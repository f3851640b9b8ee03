//! Reading and writing hosts files.

use crate::error::ErrorKind;
use crate::grammar::{
    first_index, is_blank, is_hostname_char, is_ip_char, lemma_first_index, lemma_first_index_unique,
    line_kind, lines, parse_hosts_text, parse_lines_from, strip_comment, valid_hostname, valid_ip,
    words, words_from, HostsMap, LineKind, join_names, render_entries, render_text,
    lemma_join_names_push, lemma_render_entries_push,
};
use crate::hosts_map::{entries_of, Hosts};
use crate::text::{chars_of, push_char};
use vstd::prelude::*;
use vstd::string::StringExecFns;

verus! {

/// The position of the first `c` in `chars[from..to]`, or `to`.
fn find_char(chars: &Vec<char>, from: usize, to: usize, c: char) -> (k: usize)
    requires
        from <= to <= chars@.len(),
    ensures
        from <= k <= to,
        k - from == first_index(chars@.subrange(from as int, to as int), c),
{
    let mut i = from;
    while i < to && chars[i] != c
        invariant
            from <= i <= to,
            to <= chars@.len(),
            forall|j: int| from <= j < i ==> chars@[j] != c,
        decreases to - i,
    {
        i += 1;
    }
    proof {
        let sub = chars@.subrange(from as int, to as int);
        lemma_first_index_unique(sub, c, i - from);
    }
    i
}

/// Whether `c` separates words.
fn blank(c: char) -> (r: bool)
    ensures
        r == is_blank(c),
{
    c == ' ' || c == '\t' || c == '\r'
}

/// The words of `chars[from..to]`.
fn split_words(chars: &Vec<char>, from: usize, to: usize) -> (r: Vec<String>)
    requires
        from <= to <= chars@.len(),
    ensures
        r.deep_view() == words(chars@.subrange(from as int, to as int)),
{
    let ghost all = chars@.subrange(from as int, to as int);
    let mut toks: Vec<String> = Vec::new();
    let mut cur = String::new();
    let mut i = from;
    assert(toks.deep_view() + words_from(chars@.subrange(i as int, to as int), cur@) =~= words(all));
    while i < to
        invariant
            from <= i <= to,
            to <= chars@.len(),
            all == chars@.subrange(from as int, to as int),
            words(all) == toks.deep_view() + words_from(chars@.subrange(i as int, to as int), cur@),
        decreases to - i,
    {
        let ghost t = chars@.subrange(i as int, to as int);
        let ghost old_toks = toks.deep_view();
        assert(t.drop_first() =~= chars@.subrange(i + 1, to as int));
        assert(t[0] == chars@[i as int]);
        let c = chars[i];
        if blank(c) {
            if !cur.as_str().is_empty() {
                assert(cur@.len() > 0);
                toks.push(cur);
                assert(toks.deep_view() =~= old_toks.push(toks@.last()@));
                cur = String::new();
                assert(words(all) == toks.deep_view() + words_from(
                    chars@.subrange(i + 1, to as int),
                    cur@,
                ));
            } else {
                assert(cur@ =~= Seq::<char>::empty());
                assert(words_from(t, cur@) == Seq::<Seq<char>>::empty() + words_from(
                    t.drop_first(),
                    seq![],
                ));
                assert(Seq::<Seq<char>>::empty() + words_from(t.drop_first(), seq![])
                    =~= words_from(t.drop_first(), seq![]));
                assert(words(all) == toks.deep_view() + words_from(
                    chars@.subrange(i + 1, to as int),
                    cur@,
                ));
            }
        } else {
            push_char(&mut cur, c);
        }
        i += 1;
    }
    let ghost old_toks = toks.deep_view();
    assert(chars@.subrange(i as int, to as int) =~= Seq::<char>::empty());
    if !cur.as_str().is_empty() {
        assert(cur@.len() > 0);
        toks.push(cur);
        assert(toks.deep_view() =~= old_toks.push(toks@.last()@));
    } else {
        assert(cur@.len() == 0);
        assert(toks.deep_view() =~= old_toks + Seq::<Seq<char>>::empty());
    }
    toks
}


fn ip_char(c: char) -> (r: bool)
    ensures
        r == is_ip_char(c),
{
    ('0' <= c && c <= '9') || ('a' <= c && c <= 'f') || ('A' <= c && c <= 'F') || c == '.'
        || c == ':'
}

fn hostname_char(c: char) -> (r: bool)
    ensures
        r == is_hostname_char(c),
{
    ('0' <= c && c <= '9') || ('a' <= c && c <= 'z') || ('A' <= c && c <= 'Z') || c == '.'
        || c == '-' || c == '_'
}

/// Whether `t` is an IP address as hosts files write it.
fn is_ip_token(t: &String) -> (r: bool)
    ensures
        r == valid_ip(t@),
{
    let cs = chars_of(t.as_str());
    if cs.len() == 0 {
        return false;
    }
    let mut i: usize = 0;
    while i < cs.len()
        invariant
            i <= cs@.len(),
            cs@ == t@,
            forall|j: int| 0 <= j < i ==> is_ip_char(#[trigger] cs@[j]),
        decreases cs@.len() - i,
    {
        if !ip_char(cs[i]) {
            return false;
        }
        i += 1;
    }
    true
}

/// Whether `t` is a host name as hosts files write it.
fn is_hostname_token(t: &String) -> (r: bool)
    ensures
        r == valid_hostname(t@),
{
    let cs = chars_of(t.as_str());
    if cs.len() == 0 {
        return false;
    }
    let mut i: usize = 0;
    while i < cs.len()
        invariant
            i <= cs@.len(),
            cs@ == t@,
            forall|j: int| 0 <= j < i ==> is_hostname_char(#[trigger] cs@[j]),
        decreases cs@.len() - i,
    {
        if !hostname_char(cs[i]) {
            return false;
        }
        i += 1;
    }
    true
}

/// Whether the words from the second on are all host names.
fn rest_are_hostnames(toks: &Vec<String>) -> (r: bool)
    ensures
        r == forall|i: int| 1 <= i < toks@.len() ==> valid_hostname(#[trigger] toks.deep_view()[i]),
{
    let mut i: usize = 1;
    while i < toks.len()
        invariant
            1 <= i,
            forall|j: int| 1 <= j < i && j < toks@.len() ==> valid_hostname(#[trigger] toks.deep_view()[j]),
        decreases toks@.len() - i,
    {
        if !is_hostname_token(&toks[i]) {
            assert(!valid_hostname(toks.deep_view()[i as int]));
            return false;
        }
        i += 1;
    }
    true
}

/// Reads a hosts file. Every entry line adds its host names to the set of its
/// IP address; blank and comment lines are skipped. A malformed line makes the
/// whole text fail, with the index of the first such line.
pub fn parse_from_str(text: &str) -> (r: Result<Hosts, ErrorKind>)
    ensures
        match r {
            Ok(h) => {
                &&& parse_hosts_text(text@) == Ok::<HostsMap, nat>(h@)
                &&& h.wf()
                &&& h.renderable()
            },
            Err(e) => e matches ErrorKind::ParseError { line_index } && parse_hosts_text(text@)
                == Err::<HostsMap, nat>(line_index as nat),
        },
{
    let chars = chars_of(text);
    let n = chars.len();
    let ghost s = chars@;
    let mut hosts = Hosts::new();
    let mut pos: usize = 0;
    let mut line_no: usize = 0;
    assert(s.skip(0) =~= s);
    loop
        invariant_except_break
            parse_hosts_text(s) == parse_lines_from(hosts@, lines(s.skip(pos as int)), line_no as nat),
        invariant
            s == text@,
            s == chars@,
            n == s.len(),
            pos <= n,
            line_no <= pos,
            hosts.wf(),
            hosts.renderable(),
        ensures
            parse_hosts_text(s) == Ok::<HostsMap, nat>(hosts@),
            hosts.wf(),
            hosts.renderable(),
        decreases n - pos,
    {
        let ghost rest = s.skip(pos as int);
        let ghost acc = hosts@;
        let end = find_char(&chars, pos, n, '\n');
        assert(s.subrange(pos as int, n as int) =~= rest);
        let ghost line = s.subrange(pos as int, end as int);
        let ghost tail: Seq<Seq<char>> = if end < n {
            lines(s.skip(end + 1))
        } else {
            Seq::empty()
        };
        proof {
            if end < n {
                assert(rest.take(end - pos) =~= line);
                assert(rest.skip(end - pos + 1) =~= s.skip(end + 1));
            } else {
                assert(rest =~= line);
            }
            assert(lines(rest) =~= seq![line] + tail);
            assert(lines(rest)[0] == line);
            assert(lines(rest).drop_first() =~= tail);
        }
        let cut = find_char(&chars, pos, end, '#');
        proof {
            lemma_first_index(line, '#');
            if cut < end {
                assert(line.take(cut - pos) =~= s.subrange(pos as int, cut as int));
            } else {
                assert(line =~= s.subrange(pos as int, cut as int));
            }
        }
        assert(strip_comment(line) == s.subrange(pos as int, cut as int));
        let mut toks = split_words(&chars, pos, cut);
        let ghost ws = toks.deep_view();
        assert(ws == words(strip_comment(line)));
        if toks.len() > 0 {
            if toks.len() >= 2 && is_ip_token(&toks[0]) && rest_are_hostnames(&toks) {
                assert(line_kind(line) == LineKind::Entry(ws[0], ws.drop_first()));
                let ip = toks.remove(0);
                assert(toks.deep_view() =~= ws.drop_first());
                assert(ip@ == ws[0]);
                assert forall|j: int| 0 <= j < toks@.len() implies valid_hostname(
                    #[trigger] toks.deep_view()[j],
                ) by {
                    assert(toks.deep_view()[j] == ws[j + 1]);
                }
                hosts.add_statement(ip, toks);
            } else {
                assert(line_kind(line) == LineKind::Invalid);
                return Err(ErrorKind::ParseError { line_index: line_no });
            }
        } else {
            assert(line_kind(line) == LineKind::Blank);
        }
        assert(parse_hosts_text(s) == parse_lines_from(hosts@, tail, line_no as nat + 1));
        if end >= n {
            assert(parse_lines_from(hosts@, tail, line_no as nat + 1) == Ok::<HostsMap, nat>(
                hosts@,
            ));
            break ;
        }
        pos = end + 1;
        line_no = line_no + 1;
    }
    Ok(hosts)
}


/// Writes a hosts table as a hosts file: the header, then one line per IP
/// address with its host names separated by spaces, in the table's order.
pub fn render_hosts(hosts: &Hosts, header: &str) -> (r: String)
    ensures
        r@ == render_text(hosts.entries_view(), header@),
{
    let entries = hosts.entries();
    let ghost es = hosts.entries_view();
    let mut out = String::from_str(header);
    let mut i: usize = 0;
    assert(es.take(0) =~= Seq::<(Seq<char>, Seq<Seq<char>>)>::empty());
    assert(out@ =~= header@ + render_entries(es.take(0)));
    while i < entries.len()
        invariant
            i <= entries@.len(),
            entries_of(entries@) == es,
            out@ == header@ + render_entries(es.take(i as int)),
        decreases entries@.len() - i,
    {
        let e = &entries[i];
        let ghost prefix = out@;
        let ghost hs = e.hostnames.deep_view();
        out.append(e.ip.as_str());
        push_char(&mut out, ' ');
        let mut j: usize = 0;
        assert(hs.take(0) =~= Seq::<Seq<char>>::empty());
        while j < e.hostnames.len()
            invariant
                j <= e.hostnames@.len(),
                hs == e.hostnames.deep_view(),
                out@ == prefix + e.ip@ + seq![' '] + join_names(hs.take(j as int)),
            decreases e.hostnames@.len() - j,
        {
            let ghost before = out@;
            proof {
                lemma_join_names_push(hs.take(j as int), hs[j as int]);
                assert(hs.take(j as int).push(hs[j as int]) =~= hs.take(j + 1));
            }
            if j > 0 {
                push_char(&mut out, ' ');
            }
            out.append(e.hostnames[j].as_str());
            assert(out@ =~= prefix + e.ip@ + seq![' '] + join_names(hs.take(j + 1)));
            j += 1;
        }
        push_char(&mut out, '\n');
        assert(hs.take(j as int) =~= hs);
        proof {
            lemma_render_entries_push(es.take(i as int), es[i as int]);
            assert(es.take(i as int).push(es[i as int]) =~= es.take(i + 1));
        }
        assert(out@ =~= header@ + render_entries(es.take(i + 1)));
        i += 1;
    }
    assert(es.take(i as int) =~= es);
    out
}

} // verus!
