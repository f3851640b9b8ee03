//! The hosts table: IP addresses with their host names, kept in the order in
//! which they were first seen.

use crate::grammar::{merge_entry, merge_maps, EntrySeq, valid_hostname, valid_ip, HostsMap};
use crate::helpers::AppendableMap;
use vstd::prelude::*;
use vstd::string::StringExecFns;

verus! {

broadcast use vstd::seq_lib::group_seq_properties;

/// No IP address occurs twice, and no entry lists a host name twice.
pub open spec fn entries_wf(es: EntrySeq) -> bool {
    &&& forall|i: int, j: int|
        0 <= i < es.len() && 0 <= j < es.len() && i != j ==> #[trigger] es[i].0 != #[trigger] es[j].0
    &&& forall|i: int| 0 <= i < es.len() ==> (#[trigger] es[i]).1.no_duplicates()
}

/// Every IP address and host name is a well-formed word, and every entry has a
/// host name: the entries can be written as hosts-file lines.
pub open spec fn entries_renderable(es: EntrySeq) -> bool {
    forall|i: int|
        0 <= i < es.len() ==> {
            &&& valid_ip((#[trigger] es[i]).0)
            &&& es[i].1.len() > 0
            &&& forall|j: int| 0 <= j < es[i].1.len() ==> valid_hostname(#[trigger] es[i].1[j])
        }
}

pub open spec fn has_ip(es: EntrySeq, ip: Seq<char>) -> bool {
    exists|i: int| 0 <= i < es.len() && (#[trigger] es[i]).0 == ip
}

/// The table that the entries describe.
pub open spec fn entries_map(es: EntrySeq) -> HostsMap {
    Map::new(
        |ip: Seq<char>| has_ip(es, ip),
        |ip: Seq<char>| es[choose|i: int| 0 <= i < es.len() && (#[trigger] es[i]).0 == ip].1.to_set(),
    )
}

pub proof fn lemma_entries_map_at(es: EntrySeq, i: int)
    requires
        entries_wf(es),
        0 <= i < es.len(),
    ensures
        entries_map(es).dom().contains(es[i].0),
        entries_map(es)[es[i].0] == es[i].1.to_set(),
{
    let ip = es[i].0;
    assert(has_ip(es, ip));
    let k = choose|k: int| 0 <= k < es.len() && (#[trigger] es[k]).0 == ip;
    assert(k == i);
}

/// The table has one address per entry.
pub proof fn lemma_entries_map_len(es: EntrySeq)
    requires
        entries_wf(es),
    ensures
        entries_map(es).dom().len() == es.len(),
{
    let ips = es.map_values(|e: (Seq<char>, Seq<Seq<char>>)| e.0);
    assert(ips.no_duplicates());
    ips.unique_seq_to_set();
    assert forall|q: Seq<char>| #[trigger] entries_map(es).dom().contains(q) == ips.to_set().contains(q) by {
        if has_ip(es, q) {
            let j = choose|j: int| 0 <= j < es.len() && (#[trigger] es[j]).0 == q;
            assert(ips[j] == q);
        }
        if ips.contains(q) {
            let j = choose|j: int| 0 <= j < ips.len() && ips[j] == q;
            assert(es[j].0 == q);
        }
    }
    assert(entries_map(es).dom() =~= ips.to_set());
}

/// One line of the table: an IP address and its host names.
#[derive(Clone, Debug)]
pub struct HostEntry {
    pub ip: String,
    pub hostnames: Vec<String>,
}

pub open spec fn entry_view(e: HostEntry) -> (Seq<char>, Seq<Seq<char>>) {
    (e.ip@, e.hostnames.deep_view())
}

pub open spec fn entries_of(v: Seq<HostEntry>) -> EntrySeq {
    v.map_values(|e: HostEntry| entry_view(e))
}

/// A hosts table. It maps each IP address to a set of host names; the entries
/// keep the order in which addresses and names were first added.
#[derive(Debug)]
pub struct Hosts {
    entries: Vec<HostEntry>,
}

impl View for Hosts {
    type V = HostsMap;

    open spec fn view(&self) -> HostsMap {
        entries_map(self.entries_view())
    }
}

impl Hosts {
    pub closed spec fn entries_view(&self) -> EntrySeq {
        entries_of(self.entries@)
    }

    pub open spec fn wf(&self) -> bool {
        entries_wf(self.entries_view())
    }

    pub open spec fn renderable(&self) -> bool {
        entries_renderable(self.entries_view())
    }

    /// An empty table.
    pub fn new() -> (h: Hosts)
        ensures
            h.wf(),
            h.renderable(),
            h.entries_view() == Seq::<(Seq<char>, Seq<Seq<char>>)>::empty(),
            h@ == Map::<Seq<char>, Set<Seq<char>>>::empty(),
    {
        let h = Hosts { entries: Vec::new() };
        assert(h.entries_view() =~= Seq::<(Seq<char>, Seq<Seq<char>>)>::empty());
        assert(h@ =~= Map::<Seq<char>, Set<Seq<char>>>::empty());
        h
    }

    /// The number of IP addresses in the table.
    pub fn len(&self) -> (n: usize)
        ensures
            n == self.entries_view().len(),
            n == self@.dom().len(),
    {
        proof {
            use_type_invariant(self);
            lemma_entries_map_len(self.entries_view());
        }
        self.entries.len()
    }

    /// The entries, in the order in which their addresses were first added.
    pub fn entries(&self) -> (r: &Vec<HostEntry>)
        ensures
            entries_of(r@) == self.entries_view(),
    {
        &self.entries
    }
}


/// Position of the entry for `ip`, if there is one.
fn find_ip(entries: &Vec<HostEntry>, ip: &String) -> (r: Option<usize>)
    ensures
        match r {
            Some(k) => k < entries@.len() && entries_of(entries@)[k as int].0 == ip@,
            None => !has_ip(entries_of(entries@), ip@),
        },
{
    let mut i: usize = 0;
    while i < entries.len()
        invariant
            i <= entries@.len(),
            forall|j: int| 0 <= j < i ==> (#[trigger] entries_of(entries@)[j]).0 != ip@,
        decreases entries@.len() - i,
    {
        if entries[i].ip == *ip {
            return Some(i);
        }
        i += 1;
    }
    None
}

/// Whether `name` is among `names`.
pub fn contains_name(names: &Vec<String>, name: &String) -> (r: bool)
    ensures
        r == names.deep_view().contains(name@),
{
    let mut i: usize = 0;
    while i < names.len()
        invariant
            i <= names@.len(),
            forall|j: int| 0 <= j < i ==> (#[trigger] names.deep_view()[j]) != name@,
        decreases names@.len() - i,
    {
        if names[i] == *name {
            assert(names.deep_view()[i as int] == name@);
            return true;
        }
        i += 1;
    }
    false
}

proof fn lemma_push_deep_view(v: Seq<String>, x: String)
    ensures
        Seq::new(v.push(x).len(), |i: int| v.push(x)[i].deep_view()) =~= Seq::new(
            v.len(),
            |i: int| v[i].deep_view(),
        ).push(x@),
{
}

/// Appends to `dst` the names of `src` that it does not hold yet, in order.
fn add_names(dst: &mut Vec<String>, src: &Vec<String>)
    requires
        old(dst).deep_view().no_duplicates(),
    ensures
        final(dst).deep_view().no_duplicates(),
        final(dst).deep_view().to_set() == old(dst).deep_view().to_set().union(
            src.deep_view().to_set(),
        ),
        forall|j: int|
            0 <= j < final(dst).deep_view().len() ==> old(dst).deep_view().contains(
                #[trigger] final(dst).deep_view()[j],
            ) || src.deep_view().contains(final(dst).deep_view()[j]),
        src@.len() > 0 ==> final(dst)@.len() > 0,
        old(dst)@.len() > 0 ==> final(dst)@.len() > 0,
{
    let ghost d0 = dst.deep_view();
    let ghost s = src.deep_view();
    let mut i: usize = 0;
    assert(s.take(0).to_set() =~= Set::<Seq<char>>::empty());
    assert(d0.to_set().union(s.take(0).to_set()) =~= d0.to_set());
    while i < src.len()
        invariant
            i <= src@.len(),
            s == src.deep_view(),
            dst.deep_view().no_duplicates(),
            dst.deep_view().to_set() == d0.to_set().union(s.take(i as int).to_set()),
            forall|j: int|
                0 <= j < dst.deep_view().len() ==> d0.contains(#[trigger] dst.deep_view()[j])
                    || s.take(i as int).contains(dst.deep_view()[j]),
            i > 0 ==> dst@.len() > 0,
            d0.len() > 0 ==> dst@.len() > 0,
        decreases src@.len() - i,
    {
        let ghost before = dst.deep_view();
        let ghost x = s[i as int];
        assert(s.take(i + 1) =~= s.take(i as int).push(x));
        proof {
            s.take(i as int).lemma_push_to_set_commute(x);
        }
        if !contains_name(dst, &src[i]) {
            let name = src[i].clone();
            dst.push(name);
            proof {
                lemma_push_deep_view(dst@.drop_last(), dst@.last());
                assert(dst@.drop_last().push(dst@.last()) =~= dst@);
            }
            assert(dst.deep_view() =~= before.push(x));
            assert(dst.deep_view().no_duplicates()) by {
                assert forall|a: int, b: int|
                    0 <= a < dst.deep_view().len() && 0 <= b < dst.deep_view().len() && a != b
                    implies dst.deep_view()[a] != dst.deep_view()[b] by {
                    if a < before.len() && b < before.len() {
                    } else if a == before.len() {
                        assert(before.contains(before[b]));
                    } else {
                        assert(before.contains(before[a]));
                    }
                }
            }
            proof {
                before.lemma_push_to_set_commute(x);
            }
            assert(dst.deep_view().to_set() =~= d0.to_set().union(s.take(i + 1).to_set()));
            assert forall|j: int| 0 <= j < dst.deep_view().len() implies d0.contains(
                #[trigger] dst.deep_view()[j],
            ) || s.take(i + 1).contains(dst.deep_view()[j]) by {
                if j < before.len() {
                    if s.take(i as int).contains(before[j]) {
                        let t = choose|t: int| 0 <= t < i && s.take(i as int)[t] == before[j];
                        assert(s.take(i + 1)[t] == before[j]);
                    }
                } else {
                    assert(s.take(i + 1)[i as int] == x);
                }
            }
        } else {
            assert(before.to_set().contains(x));
            assert(dst.deep_view().to_set() =~= d0.to_set().union(s.take(i + 1).to_set()));
            assert forall|j: int| 0 <= j < dst.deep_view().len() implies d0.contains(
                #[trigger] dst.deep_view()[j],
            ) || s.take(i + 1).contains(dst.deep_view()[j]) by {
                if s.take(i as int).contains(before[j]) {
                    let t = choose|t: int| 0 <= t < i && s.take(i as int)[t] == before[j];
                    assert(s.take(i + 1)[t] == before[j]);
                }
            }
        }
        i += 1;
    }
    assert(s.take(src@.len() as int) =~= s);
}


pub proof fn lemma_update_entry(es: EntrySeq, k: int, names: Seq<Seq<char>>)
    requires
        entries_wf(es),
        0 <= k < es.len(),
        names.no_duplicates(),
    ensures
        entries_wf(es.update(k, (es[k].0, names))),
        entries_map(es.update(k, (es[k].0, names))) == entries_map(es).insert(
            es[k].0,
            names.to_set(),
        ),
{
    let es2 = es.update(k, (es[k].0, names));
    assert(entries_wf(es2));
    let m = entries_map(es);
    let m2 = entries_map(es2);
    let r = m.insert(es[k].0, names.to_set());
    assert forall|q: Seq<char>| #[trigger] m2.dom().contains(q) == r.dom().contains(q) by {
        if has_ip(es2, q) {
            let j = choose|j: int| 0 <= j < es2.len() && (#[trigger] es2[j]).0 == q;
            if j != k {
                assert(es[j].0 == q);
            }
        }
        if has_ip(es, q) {
            let j = choose|j: int| 0 <= j < es.len() && (#[trigger] es[j]).0 == q;
            assert(es2[j].0 == q);
        }
    }
    assert forall|q: Seq<char>| #[trigger] m2.dom().contains(q) implies m2[q] == r[q] by {
        let j = choose|j: int| 0 <= j < es2.len() && (#[trigger] es2[j]).0 == q;
        lemma_entries_map_at(es2, j);
        if j != k {
            lemma_entries_map_at(es, j);
        }
    }
    assert(m2 =~= r);
}

pub proof fn lemma_push_entry(es: EntrySeq, ip: Seq<char>, names: Seq<Seq<char>>)
    requires
        entries_wf(es),
        !has_ip(es, ip),
        names.no_duplicates(),
    ensures
        entries_wf(es.push((ip, names))),
        entries_map(es.push((ip, names))) == entries_map(es).insert(ip, names.to_set()),
{
    let es2 = es.push((ip, names));
    assert forall|i: int, j: int|
        0 <= i < es2.len() && 0 <= j < es2.len() && i != j implies #[trigger] es2[i].0
        != #[trigger] es2[j].0 by {
        if i == es.len() {
            assert(es[j].0 == es2[j].0);
        } else if j == es.len() {
            assert(es[i].0 == es2[i].0);
        }
    }
    assert(entries_wf(es2));
    let m = entries_map(es);
    let m2 = entries_map(es2);
    let r = m.insert(ip, names.to_set());
    assert forall|q: Seq<char>| #[trigger] m2.dom().contains(q) == r.dom().contains(q) by {
        if has_ip(es2, q) {
            let j = choose|j: int| 0 <= j < es2.len() && (#[trigger] es2[j]).0 == q;
            if j != es.len() {
                assert(es[j].0 == q);
            }
        }
        if has_ip(es, q) {
            let j = choose|j: int| 0 <= j < es.len() && (#[trigger] es[j]).0 == q;
            assert(es2[j].0 == q);
        }
        assert(es2[es.len() as int].0 == ip);
    }
    assert forall|q: Seq<char>| #[trigger] m2.dom().contains(q) implies m2[q] == r[q] by {
        let j = choose|j: int| 0 <= j < es2.len() && (#[trigger] es2[j]).0 == q;
        lemma_entries_map_at(es2, j);
        if j != es.len() {
            lemma_entries_map_at(es, j);
        }
    }
    assert(m2 =~= r);
}

/// Merges the entry `ip names` into the entries: a new address is added with
/// its names, a known one gains the names it does not have yet.
fn merge_into(entries: &mut Vec<HostEntry>, ip: &String, names: &Vec<String>)
    requires
        entries_wf(entries_of(old(entries)@)),
    ensures
        entries_wf(entries_of(final(entries)@)),
        entries_map(entries_of(final(entries)@)) == merge_entry(
            entries_map(entries_of(old(entries)@)),
            ip@,
            names.deep_view().to_set(),
        ),
        entries_renderable(entries_of(old(entries)@)) && valid_ip(ip@) && names@.len() > 0 && (
        forall|j: int| 0 <= j < names@.len() ==> valid_hostname(#[trigger] names.deep_view()[j]))
            ==> entries_renderable(entries_of(final(entries)@)),
{
    let ghost es = entries_of(entries@);
    let ghost s = names.deep_view();
    match find_ip(entries, ip) {
        Some(k) => {
            let ghost old_entries = entries@;
            proof {
                lemma_entries_map_at(es, k as int);
            }
            let mut e = entries.remove(k);
            add_names(&mut e.hostnames, names);
            let ghost d = e.hostnames.deep_view();
            entries.insert(k, e);
            assert(entries@ =~= old_entries.update(k as int, e));
            assert(entries_of(entries@) =~= es.update(k as int, (es[k as int].0, d)));
            proof {
                lemma_update_entry(es, k as int, d);
            }
        },
        None => {
            let mut hs: Vec<String> = Vec::new();
            assert(hs.deep_view() =~= Seq::<Seq<char>>::empty());
            add_names(&mut hs, names);
            let ghost d = hs.deep_view();
            assert(d.to_set() =~= s.to_set());
            let ip2 = ip.clone();
            entries.push(HostEntry { ip: ip2, hostnames: hs });
            assert(entries_of(entries@) =~= es.push((ip@, d)));
            proof {
                lemma_push_entry(es, ip@, d);
            }
        },
    }
}

impl Hosts {
    #[verifier::type_invariant]
    spec fn inv(&self) -> bool {
        self.wf()
    }

    /// Merges the entry `ip names` into the table: a new address is added with
    /// its names, a known one gains the names it does not have yet.
    pub fn add_statement(&mut self, ip: String, names: Vec<String>)
        ensures
            final(self).wf(),
            final(self)@ == merge_entry(old(self)@, ip@, names.deep_view().to_set()),
            old(self).renderable() && valid_ip(ip@) && names@.len() > 0 && (forall|j: int|
                0 <= j < names@.len() ==> valid_hostname(#[trigger] names.deep_view()[j]))
                ==> final(self).renderable(),
    {
        proof {
            use_type_invariant(&*self);
        }
        let mut entries: Vec<HostEntry> = Vec::new();
        std::mem::swap(&mut entries, &mut self.entries);
        merge_into(&mut entries, &ip, &names);
        self.entries = entries;
    }
}


proof fn lemma_merge_maps_step(m0: HostsMap, es: EntrySeq, i: int)
    requires
        entries_wf(es),
        0 <= i < es.len(),
    ensures
        merge_maps(m0, entries_map(es.take(i + 1))) == merge_entry(
            merge_maps(m0, entries_map(es.take(i))),
            es[i].0,
            es[i].1.to_set(),
        ),
{
    let pre = es.take(i);
    assert(entries_wf(pre));
    assert(es.take(i + 1) =~= pre.push(es[i]));
    if has_ip(pre, es[i].0) {
        let j = choose|j: int| 0 <= j < pre.len() && (#[trigger] pre[j]).0 == es[i].0;
        assert(es[j].0 == es[i].0);
    }
    lemma_push_entry(pre, es[i].0, es[i].1);
    assert(!entries_map(pre).dom().contains(es[i].0));
    assert(merge_maps(m0, entries_map(es.take(i + 1))) =~= merge_entry(
        merge_maps(m0, entries_map(pre)),
        es[i].0,
        es[i].1.to_set(),
    ));
}

/// Merges every entry of `src` into `dst`, in order.
fn merge_all(dst: &mut Vec<HostEntry>, src: &Vec<HostEntry>)
    requires
        entries_wf(entries_of(old(dst)@)),
        entries_wf(entries_of(src@)),
    ensures
        entries_wf(entries_of(final(dst)@)),
        entries_map(entries_of(final(dst)@)) == merge_maps(
            entries_map(entries_of(old(dst)@)),
            entries_map(entries_of(src@)),
        ),
        entries_renderable(entries_of(old(dst)@)) && entries_renderable(entries_of(src@))
            ==> entries_renderable(entries_of(final(dst)@)),
{
    let ghost m0 = entries_map(entries_of(dst@));
    let ghost ses = entries_of(src@);
    let ghost rend = entries_renderable(entries_of(dst@)) && entries_renderable(ses);
    let mut i: usize = 0;
    assert(entries_map(ses.take(0)) =~= Map::<Seq<char>, Set<Seq<char>>>::empty());
    assert(merge_maps(m0, entries_map(ses.take(0))) =~= m0);
    while i < src.len()
        invariant
            i <= src@.len(),
            ses == entries_of(src@),
            entries_wf(ses),
            entries_wf(entries_of(dst@)),
            entries_map(entries_of(dst@)) == merge_maps(m0, entries_map(ses.take(i as int))),
            rend ==> entries_renderable(entries_of(dst@)),
            rend ==> entries_renderable(ses),
        decreases src@.len() - i,
    {
        let e = &src[i];
        assert(e.hostnames.deep_view() == ses[i as int].1);
        proof {
            lemma_merge_maps_step(m0, ses, i as int);
        }
        merge_into(dst, &e.ip, &e.hostnames);
        i += 1;
    }
    assert(ses.take(src@.len() as int) =~= ses);
}

impl AppendableMap for Hosts {
    /// Merges `other` into this table: every address of `other` is added, and
    /// an address that both tables hold gets the union of the two name sets.
    fn append(&mut self, other: Hosts) -> (r: Result<(), ()>)
        ensures
            r is Ok,
            final(self).wf(),
            final(self)@ == merge_maps(old(self)@, other@),
            old(self).renderable() && other.renderable() ==> final(self).renderable(),
    {
        proof {
            use_type_invariant(&*self);
            use_type_invariant(&other);
        }
        let mut entries: Vec<HostEntry> = Vec::new();
        std::mem::swap(&mut entries, &mut self.entries);
        merge_all(&mut entries, &other.entries);
        self.entries = entries;
        Ok(())
    }
}


impl Hosts {
    /// The host names of `ip`, if the table holds it.
    pub fn get(&self, ip: &str) -> (r: Option<&Vec<String>>)
        ensures
            match r {
                Some(v) => self@.dom().contains(ip@) && v.deep_view().to_set() == self@[ip@],
                None => !self@.dom().contains(ip@),
            },
    {
        proof {
            use_type_invariant(self);
        }
        let key = String::from_str(ip);
        match find_ip(&self.entries, &key) {
            Some(k) => {
                proof {
                    lemma_entries_map_at(self.entries_view(), k as int);
                }
                Some(&self.entries[k].hostnames)
            },
            None => None,
        }
    }
}


/// A copy of the names.
fn copy_names(names: &Vec<String>) -> (r: Vec<String>)
    ensures
        r.deep_view() == names.deep_view(),
{
    let mut r: Vec<String> = Vec::new();
    let mut i: usize = 0;
    while i < names.len()
        invariant
            i <= names@.len(),
            r.deep_view() == names.deep_view().take(i as int),
        decreases names@.len() - i,
    {
        let ghost before = r.deep_view();
        r.push(names[i].clone());
        assert(r.deep_view() =~= before.push(names@[i as int]@));
        assert(names.deep_view().take(i + 1) =~= names.deep_view().take(i as int).push(
            names@[i as int]@,
        ));
        i += 1;
    }
    assert(names.deep_view().take(i as int) =~= names.deep_view());
    r
}

impl Clone for Hosts {
    /// A copy of the table, with its entries in the same order.
    fn clone(&self) -> (r: Hosts)
        ensures
            r.entries_view() == self.entries_view(),
            r@ == self@,
    {
        proof {
            use_type_invariant(self);
        }
        let mut entries: Vec<HostEntry> = Vec::new();
        let mut i: usize = 0;
        while i < self.entries.len()
            invariant
                i <= self.entries@.len(),
                entries_of(entries@) == self.entries_view().take(i as int),
            decreases self.entries@.len() - i,
        {
            let e = &self.entries[i];
            let copy = HostEntry { ip: e.ip.clone(), hostnames: copy_names(&e.hostnames) };
            let ghost before = entries@;
            entries.push(copy);
            assert(entries_of(entries@) =~= entries_of(before).push(entry_view(copy)));
            assert(self.entries_view().take(i + 1) =~= self.entries_view().take(i as int).push(
                entry_view(self.entries@[i as int]),
            ));
            i += 1;
        }
        assert(self.entries_view().take(i as int) =~= self.entries_view());
        Hosts { entries }
    }
}

} // verus!
