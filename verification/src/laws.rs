//! Properties that tie the reader, the writer and the merge of hosts tables
//! together.

use crate::grammar::{
    entry_line, first_index, is_blank, is_hostname_char, is_ip_char, join_names, lemma_first_index,
    lemma_first_index_unique, lemma_hostname_alphabet, lemma_ip_alphabet, line_kind, lines,
    merge_entry, parse_hosts_text, parse_lines_from, render_entries, render_text, merge_maps,
    strip_comment, valid_hostname, valid_ip, words, words_from, EntrySeq, HostsMap, LineKind,
};
use crate::hosts_map::{entries_map, entries_renderable, entries_wf, has_ip, lemma_entries_map_at};
use vstd::prelude::*;

verus! {

/// A header whose lines are all blank or comments.
pub open spec fn header_is_blank(header: Seq<char>) -> bool {
    forall|i: int| 0 <= i < lines(header).len() ==> line_kind(#[trigger] lines(header)[i]) is Blank
}

/// A header that adds nothing to a hosts file with entries: all its lines are
/// blank or comments, and the part after its last newline holds no comment
/// (that part runs on into the first entry line).
pub open spec fn header_is_inert(header: Seq<char>) -> bool {
    &&& header_is_blank(header)
    &&& forall|k: int|
        0 <= k < lines(header).last().len() ==> #[trigger] lines(header).last()[k] != '#'
}

/// The table `acc` after the entries `es` have been merged into it, in order.
spec fn fold_merge(acc: HostsMap, es: EntrySeq) -> HostsMap
    decreases es.len(),
{
    if es.len() == 0 {
        acc
    } else {
        fold_merge(merge_entry(acc, es[0].0, es[0].1.to_set()), es.drop_first())
    }
}

proof fn lemma_lines_nonempty(s: Seq<char>)
    ensures
        lines(s).len() >= 1,
{
}

/// Splitting `a + b` into lines, where `a` ends with a newline.
proof fn lemma_lines_append(a: Seq<char>, b: Seq<char>)
    requires
        a.len() > 0,
        a.last() == '\n',
    ensures
        lines(a + b) == lines(a).drop_last() + lines(b),
    decreases a.len(),
{
    let k = first_index(a, '\n');
    lemma_first_index(a, '\n');
    if k == a.len() {
        assert(a[a.len() - 1] != '\n');
    }
    assert(k < a.len());
    let ab = a + b;
    assert forall|j: int| 0 <= j < k implies ab[j] != '\n' by {
        assert(ab[j] == a[j]);
    }
    lemma_first_index_unique(ab, '\n', k as int);
    assert(ab.take(k as int) =~= a.take(k as int));
    assert(ab.skip(k as int + 1) =~= a.skip(k as int + 1) + b);
    let a2 = a.skip(k as int + 1);
    if k + 1 == a.len() {
        assert(a2 =~= Seq::<char>::empty());
        assert(a2 + b =~= b);
        assert(first_index(a2, '\n') == 0);
        assert(lines(a2) =~= seq![a2]);
        assert(lines(a) =~= seq![a.take(k as int), a2]);
        assert(lines(ab) =~= lines(a).drop_last() + lines(b));
    } else {
        assert(a2.last() == a.last());
        lemma_lines_append(a2, b);
        lemma_lines_nonempty(a2);
        assert(lines(a).drop_last() =~= seq![a.take(k as int)] + lines(a2).drop_last());
        assert(lines(ab) =~= lines(a).drop_last() + lines(b));
    }
}

/// Blank lines leave the table as it is.
proof fn lemma_parse_blank_prefix(acc: HostsMap, l1: Seq<Seq<char>>, l2: Seq<Seq<char>>, base: nat)
    requires
        forall|i: int| 0 <= i < l1.len() ==> line_kind(#[trigger] l1[i]) is Blank,
    ensures
        parse_lines_from(acc, l1 + l2, base) == parse_lines_from(acc, l2, base + l1.len()),
    decreases l1.len(),
{
    if l1.len() == 0 {
        assert(l1 + l2 =~= l2);
    } else {
        assert((l1 + l2)[0] == l1[0]);
        assert((l1 + l2).drop_first() =~= l1.drop_first() + l2);
        assert forall|i: int| 0 <= i < l1.drop_first().len() implies line_kind(
            #[trigger] l1.drop_first()[i],
        ) is Blank by {
            assert(l1.drop_first()[i] == l1[i + 1]);
        }
        lemma_parse_blank_prefix(acc, l1.drop_first(), l2, base + 1);
    }
}

/// A run of non-blank characters continues the current word.
proof fn lemma_words_from_word(w: Seq<char>, r: Seq<char>, cur: Seq<char>)
    requires
        forall|i: int| 0 <= i < w.len() ==> !is_blank(#[trigger] w[i]),
    ensures
        words_from(w + r, cur) == words_from(r, cur + w),
    decreases w.len(),
{
    if w.len() == 0 {
        assert(w + r =~= r);
        assert(cur + w =~= cur);
    } else {
        assert((w + r)[0] == w[0]);
        assert((w + r).drop_first() =~= w.drop_first() + r);
        assert(cur.push(w[0]) + w.drop_first() =~= cur + w);
        lemma_words_from_word(w.drop_first(), r, cur.push(w[0]));
    }
}

/// Every character of joined host names is a host-name character or a space.
proof fn lemma_join_chars(hs: Seq<Seq<char>>)
    requires
        forall|i: int| 0 <= i < hs.len() ==> valid_hostname(#[trigger] hs[i]),
    ensures
        forall|k: int|
            0 <= k < join_names(hs).len() ==> is_hostname_char(#[trigger] join_names(hs)[k])
                || join_names(hs)[k] == ' ',
    decreases hs.len(),
{
    if hs.len() >= 2 {
        assert(forall|i: int| 0 <= i < hs.drop_first().len() ==> hs.drop_first()[i] == hs[i + 1]);
        lemma_join_chars(hs.drop_first());
        let j = join_names(hs.drop_first());
        assert forall|k: int| 0 <= k < join_names(hs).len() implies is_hostname_char(
            #[trigger] join_names(hs)[k],
        ) || join_names(hs)[k] == ' ' by {
            assert(valid_hostname(hs[0]));
            if k < hs[0].len() {
                assert(join_names(hs)[k] == hs[0][k]);
            } else if k > hs[0].len() {
                assert(join_names(hs)[k] == j[k - hs[0].len() - 1]);
            }
        }
    } else if hs.len() == 1 {
        assert(valid_hostname(hs[0]));
    }
}

/// The words of joined host names are the host names.
proof fn lemma_words_join(hs: Seq<Seq<char>>)
    requires
        hs.len() >= 1,
        forall|i: int| 0 <= i < hs.len() ==> valid_hostname(#[trigger] hs[i]),
    ensures
        words_from(join_names(hs), seq![]) == hs,
    decreases hs.len(),
{
    let h0 = hs[0];
    assert(valid_hostname(h0));
    assert(forall|i: int| 0 <= i < h0.len() ==> !is_blank(#[trigger] h0[i]));
    let empty = Seq::<char>::empty();
    if hs.len() == 1 {
        assert(h0 + empty =~= h0);
        lemma_words_from_word(h0, empty, seq![]);
        assert(Seq::<char>::empty() + h0 =~= h0);
        assert(words_from(empty, h0) == seq![h0]);
        assert(seq![h0] =~= hs);
    } else {
        let rest = hs.drop_first();
        assert(forall|i: int| 0 <= i < rest.len() ==> rest[i] == hs[i + 1]);
        lemma_words_join(rest);
        let j = join_names(rest);
        let sj = seq![' '] + j;
        assert(h0 + seq![' '] + j =~= h0 + sj);
        lemma_words_from_word(h0, sj, seq![]);
        assert(Seq::<char>::empty() + h0 =~= h0);
        assert(sj[0] == ' ');
        assert(sj.drop_first() =~= j);
        assert(words_from(sj, h0) == seq![h0] + words_from(j, seq![]));
        assert(seq![h0] + rest =~= hs);
    }
}

/// An entry line, without its newline, reads back as the entry.
proof fn lemma_entry_line_kind(ip: Seq<char>, hs: Seq<Seq<char>>)
    requires
        valid_ip(ip),
        hs.len() > 0,
        forall|i: int| 0 <= i < hs.len() ==> valid_hostname(#[trigger] hs[i]),
    ensures
        line_kind(ip + seq![' '] + join_names(hs)) == LineKind::Entry(ip, hs),
        forall|k: int|
            0 <= k < (ip + seq![' '] + join_names(hs)).len() ==> #[trigger] (ip + seq![' ']
                + join_names(hs))[k] != '\n' && (ip + seq![' '] + join_names(hs))[k] != '#',
{
    let j = join_names(hs);
    let content = ip + seq![' '] + j;
    lemma_join_chars(hs);
    assert forall|k: int| 0 <= k < content.len() implies #[trigger] content[k] != '#' && content[k]
        != '\n' by {
        if k < ip.len() {
            assert(content[k] == ip[k]);
        } else if k > ip.len() {
            assert(content[k] == j[k - ip.len() - 1]);
        }
    }
    lemma_first_index_unique(content, '#', content.len() as int);
    assert(strip_comment(content) == content);
    let sj = seq![' '] + j;
    assert(content =~= ip + sj);
    assert(forall|i: int| 0 <= i < ip.len() ==> !is_blank(#[trigger] ip[i]));
    lemma_words_from_word(ip, sj, seq![]);
    assert(Seq::<char>::empty() + ip =~= ip);
    assert(sj[0] == ' ');
    assert(sj.drop_first() =~= j);
    lemma_words_join(hs);
    let ws = words(content);
    assert(ws == seq![ip] + hs);
    assert(ws[0] == ip);
    assert(ws.drop_first() =~= hs);
    assert forall|i: int| 1 <= i < ws.len() implies valid_hostname(#[trigger] ws[i]) by {
        assert(ws[i] == hs[i - 1]);
    }
}

/// The lines of an entry line followed by more text.
proof fn lemma_lines_entry(ip: Seq<char>, hs: Seq<Seq<char>>, rest: Seq<char>)
    requires
        valid_ip(ip),
        hs.len() > 0,
        forall|i: int| 0 <= i < hs.len() ==> valid_hostname(#[trigger] hs[i]),
    ensures
        lines(entry_line(ip, hs) + rest) == seq![ip + seq![' '] + join_names(hs)] + lines(rest),
{
    let content = ip + seq![' '] + join_names(hs);
    lemma_entry_line_kind(ip, hs);
    let a = content + seq!['\n'];
    assert(entry_line(ip, hs) =~= a);
    assert forall|k: int| 0 <= k < content.len() implies a[k] != '\n' by {
        assert(a[k] == content[k]);
    }
    lemma_first_index_unique(a, '\n', content.len() as int);
    assert(a.take(content.len() as int) =~= content);
    let e = a.skip(content.len() as int + 1);
    assert(e =~= Seq::<char>::empty());
    assert(first_index(e, '\n') == 0);
    assert(lines(e) == seq![e]);
    assert(first_index(a, '\n') == content.len());
    assert(lines(a) == seq![a.take(content.len() as int)] + lines(e));
    assert(lines(a) =~= seq![content, Seq::<char>::empty()]);
    lemma_lines_append(a, rest);
    assert(lines(a).drop_last() =~= seq![content]);
}

/// Reading the lines of rendered entries merges the entries in order.
proof fn lemma_parse_rendered(acc: HostsMap, es: EntrySeq, base: nat)
    requires
        entries_renderable(es),
    ensures
        parse_lines_from(acc, lines(render_entries(es)), base) == Ok::<HostsMap, nat>(
            fold_merge(acc, es),
        ),
    decreases es.len(),
{
    if es.len() == 0 {
        let empty = Seq::<char>::empty();
        assert(render_entries(es) == empty);
        assert(first_index(empty, '\n') == 0);
        assert(lines(empty) =~= seq![empty]);
        assert(first_index(empty, '#') == 0);
        assert(words(strip_comment(empty)) =~= Seq::<Seq<char>>::empty());
        assert(line_kind(empty) is Blank);
        let ls = lines(render_entries(es));
        assert(ls.len() == 1 && ls[0] == empty);
        assert(ls.drop_first() =~= Seq::<Seq<char>>::empty());
        assert(parse_lines_from(acc, ls, base) == parse_lines_from(acc, ls.drop_first(), base + 1));
        assert(fold_merge(acc, es) == acc);
    } else {
        let ip = es[0].0;
        let hs = es[0].1;
        let rest = es.drop_first();
        assert(entries_renderable(rest)) by {
            assert forall|i: int| 0 <= i < rest.len() implies #[trigger] rest[i] == es[i + 1] by {}
        }
        lemma_lines_entry(ip, hs, render_entries(rest));
        lemma_entry_line_kind(ip, hs);
        let ls = lines(render_entries(es));
        assert(ls[0] == ip + seq![' '] + join_names(hs));
        assert(ls.drop_first() =~= lines(render_entries(rest)));
        lemma_parse_rendered(merge_entry(acc, ip, hs.to_set()), rest, base + 1);
        assert(line_kind(ls[0]) == LineKind::Entry(ip, hs));
        assert(parse_lines_from(acc, ls, base) == parse_lines_from(
            merge_entry(acc, ip, hs.to_set()),
            ls.drop_first(),
            base + 1,
        ));
        assert(fold_merge(acc, es) == fold_merge(merge_entry(acc, ip, hs.to_set()), rest));
    }
}

/// The table of the entries is their first address with its names, put into
/// the table of the other entries.
proof fn lemma_entries_map_first(es: EntrySeq)
    requires
        entries_wf(es),
        es.len() > 0,
    ensures
        entries_wf(es.drop_first()),
        !entries_map(es.drop_first()).dom().contains(es[0].0),
        entries_map(es) == entries_map(es.drop_first()).insert(es[0].0, es[0].1.to_set()),
{
    let rest = es.drop_first();
    assert(forall|i: int| 0 <= i < rest.len() ==> #[trigger] rest[i] == es[i + 1]);
    assert(entries_wf(rest));
    if has_ip(rest, es[0].0) {
        let j = choose|j: int| 0 <= j < rest.len() && (#[trigger] rest[j]).0 == es[0].0;
        assert(es[j + 1].0 == es[0].0);
    }
    let m = entries_map(es);
    let r = entries_map(rest).insert(es[0].0, es[0].1.to_set());
    assert forall|q: Seq<char>| #[trigger] m.dom().contains(q) == r.dom().contains(q) by {
        if has_ip(es, q) {
            let j = choose|j: int| 0 <= j < es.len() && (#[trigger] es[j]).0 == q;
            if j != 0 {
                assert(rest[j - 1].0 == q);
            }
        }
        if has_ip(rest, q) {
            let j = choose|j: int| 0 <= j < rest.len() && (#[trigger] rest[j]).0 == q;
            assert(es[j + 1].0 == q);
        }
    }
    assert forall|q: Seq<char>| #[trigger] m.dom().contains(q) implies m[q] == r[q] by {
        let j = choose|j: int| 0 <= j < es.len() && (#[trigger] es[j]).0 == q;
        lemma_entries_map_at(es, j);
        if j != 0 {
            lemma_entries_map_at(rest, j - 1);
        }
    }
    assert(m =~= r);
}

proof fn lemma_fold_merge(acc: HostsMap, es: EntrySeq)
    requires
        entries_wf(es),
        forall|i: int| 0 <= i < es.len() ==> !acc.dom().contains(#[trigger] es[i].0),
    ensures
        fold_merge(acc, es) == acc.union_prefer_right(entries_map(es)),
    decreases es.len(),
{
    if es.len() == 0 {
        assert(entries_map(es) =~= Map::<Seq<char>, Set<Seq<char>>>::empty());
        assert(acc.union_prefer_right(entries_map(es)) =~= acc);
    } else {
        let ip = es[0].0;
        let s = es[0].1.to_set();
        let rest = es.drop_first();
        assert(!acc.dom().contains(es[0].0));
        let acc2 = merge_entry(acc, ip, s);
        assert(acc2 == acc.insert(ip, s));
        lemma_entries_map_first(es);
        assert forall|i: int| 0 <= i < rest.len() implies !acc2.dom().contains(#[trigger] rest[i].0) by {
            assert(rest[i] == es[i + 1]);
        }
        lemma_fold_merge(acc2, rest);
        assert(acc2.union_prefer_right(entries_map(rest)) =~= acc.union_prefer_right(
            entries_map(es),
        ));
    }
}

/// Splitting `a + b` into lines: the last line of `a` runs on into `b`.
proof fn lemma_lines_append_any(a: Seq<char>, b: Seq<char>)
    ensures
        lines(a + b) == lines(a).drop_last() + lines(lines(a).last() + b),
    decreases a.len(),
{
    let k = first_index(a, '\n');
    lemma_first_index(a, '\n');
    if k < a.len() {
        let ab = a + b;
        assert forall|j: int| 0 <= j < k implies ab[j] != '\n' by {
            assert(ab[j] == a[j]);
        }
        lemma_first_index_unique(ab, '\n', k as int);
        assert(ab.take(k as int) =~= a.take(k as int));
        let a2 = a.skip(k as int + 1);
        assert(ab.skip(k as int + 1) =~= a2 + b);
        lemma_lines_append_any(a2, b);
        lemma_lines_nonempty(a2);
        assert(lines(a) == seq![a.take(k as int)] + lines(a2));
        assert(lines(a).drop_last() =~= seq![a.take(k as int)] + lines(a2).drop_last());
        assert(lines(a).last() == lines(a2).last());
        assert(lines(ab) =~= lines(a).drop_last() + lines(lines(a).last() + b));
    } else {
        assert(lines(a) == seq![a]);
        assert(lines(a).drop_last() =~= Seq::<Seq<char>>::empty());
        assert(lines(a + b) =~= lines(a).drop_last() + lines(lines(a).last() + b));
    }
}

/// A word already begun is never lost.
proof fn lemma_words_from_cur(s: Seq<char>, cur: Seq<char>)
    requires
        cur.len() > 0,
    ensures
        words_from(s, cur).len() > 0,
    decreases s.len(),
{
    if s.len() > 0 && !is_blank(s[0]) {
        lemma_words_from_cur(s.drop_first(), cur.push(s[0]));
    }
}

/// A text without words holds only blanks.
proof fn lemma_no_words_all_blank(s: Seq<char>)
    requires
        words_from(s, seq![]).len() == 0,
    ensures
        forall|k: int| 0 <= k < s.len() ==> is_blank(#[trigger] s[k]),
    decreases s.len(),
{
    if s.len() > 0 {
        if !is_blank(s[0]) {
            lemma_words_from_cur(s.drop_first(), seq![s[0]]);
            assert(Seq::<char>::empty().push(s[0]) =~= seq![s[0]]);
        } else {
            assert(words_from(s, seq![]) =~= words_from(s.drop_first(), seq![]));
            lemma_no_words_all_blank(s.drop_first());
            assert forall|k: int| 0 <= k < s.len() implies is_blank(#[trigger] s[k]) by {
                if k > 0 {
                    assert(s[k] == s.drop_first()[k - 1]);
                }
            }
        }
    }
}

/// Leading blanks change no words.
proof fn lemma_words_blank_prefix(t: Seq<char>, x: Seq<char>)
    requires
        forall|k: int| 0 <= k < t.len() ==> is_blank(#[trigger] t[k]),
    ensures
        words_from(t + x, seq![]) == words_from(x, seq![]),
    decreases t.len(),
{
    if t.len() == 0 {
        assert(t + x =~= x);
    } else {
        assert((t + x)[0] == t[0]);
        assert((t + x).drop_first() =~= t.drop_first() + x);
        assert(words_from(t + x, seq![]) =~= words_from((t + x).drop_first(), seq![]));
        assert forall|k: int| 0 <= k < t.drop_first().len() implies is_blank(
            #[trigger] t.drop_first()[k],
        ) by {
            assert(t.drop_first()[k] == t[k + 1]);
        }
        lemma_words_blank_prefix(t.drop_first(), x);
    }
}

/// Reading rendered entries after some leading blanks merges the entries in
/// order.
proof fn lemma_parse_rendered_after(acc: HostsMap, es: EntrySeq, base: nat, t: Seq<char>)
    requires
        entries_renderable(es),
        forall|k: int| 0 <= k < t.len() ==> is_blank(#[trigger] t[k]),
    ensures
        parse_lines_from(acc, lines(t + render_entries(es)), base) == Ok::<HostsMap, nat>(
            fold_merge(acc, es),
        ),
{
    let empty = Seq::<char>::empty();
    assert forall|k: int| 0 <= k < t.len() implies #[trigger] t[k] != '#' && t[k] != '\n' by {
        assert(is_blank(t[k]));
    }
    if es.len() == 0 {
        assert(render_entries(es) == empty);
        assert(t + render_entries(es) =~= t);
        lemma_first_index_unique(t, '\n', t.len() as int);
        assert(lines(t) == seq![t]);
        lemma_first_index_unique(t, '#', t.len() as int);
        assert(strip_comment(t) == t);
        lemma_words_blank_prefix(t, empty);
        assert(t + empty =~= t);
        assert(words(t) =~= Seq::<Seq<char>>::empty());
        assert(line_kind(t) is Blank);
        let ls = lines(t);
        assert(ls.drop_first() =~= Seq::<Seq<char>>::empty());
        assert(parse_lines_from(acc, ls, base) == parse_lines_from(acc, ls.drop_first(), base + 1));
        assert(fold_merge(acc, es) == acc);
    } else {
        let ip = es[0].0;
        let hs = es[0].1;
        let rest = es.drop_first();
        assert(entries_renderable(rest)) by {
            assert forall|i: int| 0 <= i < rest.len() implies #[trigger] rest[i] == es[i + 1] by {}
        }
        let content = ip + seq![' '] + join_names(hs);
        lemma_entry_line_kind(ip, hs);
        let c2 = t + content;
        assert forall|k: int| 0 <= k < c2.len() implies #[trigger] c2[k] != '\n' && c2[k] != '#' by {
            if k < t.len() {
                assert(c2[k] == t[k]);
            } else {
                assert(c2[k] == content[k - t.len()]);
            }
        }
        lemma_first_index_unique(c2, '#', c2.len() as int);
        lemma_first_index_unique(content, '#', content.len() as int);
        assert(strip_comment(c2) == c2);
        assert(strip_comment(content) == content);
        lemma_words_blank_prefix(t, content);
        assert(line_kind(c2) == line_kind(content));
        let a = c2 + seq!['\n'];
        let r = render_entries(rest);
        assert(t + render_entries(es) =~= a + r);
        assert forall|k: int| 0 <= k < c2.len() implies a[k] != '\n' by {
            assert(a[k] == c2[k]);
        }
        lemma_first_index_unique(a, '\n', c2.len() as int);
        let e = a.skip(c2.len() as int + 1);
        assert(e =~= empty);
        assert(lines(e) == seq![e]);
        assert(a.take(c2.len() as int) =~= c2);
        assert(lines(a) =~= seq![c2, empty]);
        lemma_lines_append(a, r);
        assert(lines(a).drop_last() =~= seq![c2]);
        let ls = lines(a + r);
        assert(ls[0] == c2);
        assert(ls.drop_first() =~= lines(r));
        lemma_parse_rendered(merge_entry(acc, ip, hs.to_set()), rest, base + 1);
        assert(parse_lines_from(acc, ls, base) == parse_lines_from(
            merge_entry(acc, ip, hs.to_set()),
            ls.drop_first(),
            base + 1,
        ));
    }
}

/// Writing a table as a hosts file and reading the file back gives the same
/// table, whatever order the entries are written in, as long as the header
/// holds only comments and blank lines and, when there are entries, does not
/// end inside a comment.
pub proof fn lemma_render_then_parse(es: EntrySeq, header: Seq<char>)
    requires
        entries_wf(es),
        entries_renderable(es),
        header_is_blank(header),
        es.len() > 0 ==> header_is_inert(header),
    ensures
        parse_hosts_text(render_text(es, header)) == Ok::<HostsMap, nat>(entries_map(es)),
{
    let body = render_entries(es);
    let empty = Map::<Seq<char>, Set<Seq<char>>>::empty();
    lemma_fold_merge(empty, es);
    assert(empty.union_prefer_right(entries_map(es)) =~= entries_map(es));
    if es.len() == 0 {
        let none = Seq::<Seq<char>>::empty();
        assert(render_entries(es) == Seq::<char>::empty());
        assert(render_text(es, header) =~= header);
        assert(lines(header) + none =~= lines(header));
        lemma_parse_blank_prefix(empty, lines(header), none, 0);
        assert(fold_merge(empty, es) == empty);
    } else {
        lemma_lines_nonempty(header);
        let hl = lines(header);
        let t = hl.last();
        lemma_lines_append_any(header, body);
        let l1 = hl.drop_last();
        assert forall|i: int| 0 <= i < l1.len() implies line_kind(#[trigger] l1[i]) is Blank by {
            assert(l1[i] == hl[i]);
        }
        lemma_parse_blank_prefix(empty, l1, lines(t + body), 0);
        assert(line_kind(hl[hl.len() - 1]) is Blank);
        lemma_first_index_unique(t, '#', t.len() as int);
        assert(strip_comment(t) == t);
        lemma_no_words_all_blank(t);
        lemma_parse_rendered_after(empty, es, l1.len(), t);
    }
}


/// Reading `l1 + l2` reads `l1`, then goes on with `l2` from the table it got.
proof fn lemma_parse_lines_concat(acc: HostsMap, l1: Seq<Seq<char>>, l2: Seq<Seq<char>>, base: nat)
    ensures
        parse_lines_from(acc, l1 + l2, base) == match parse_lines_from(acc, l1, base) {
            Ok(m) => parse_lines_from(m, l2, base + l1.len()),
            Err(e) => Err(e),
        },
    decreases l1.len(),
{
    if l1.len() == 0 {
        assert(l1 + l2 =~= l2);
    } else {
        assert((l1 + l2)[0] == l1[0]);
        assert((l1 + l2).drop_first() =~= l1.drop_first() + l2);
        match line_kind(l1[0]) {
            LineKind::Blank => {
                lemma_parse_lines_concat(acc, l1.drop_first(), l2, base + 1);
            },
            LineKind::Entry(ip, names) => {
                lemma_parse_lines_concat(
                    merge_entry(acc, ip, names.to_set()),
                    l1.drop_first(),
                    l2,
                    base + 1,
                );
            },
            LineKind::Invalid => {},
        }
    }
}

/// The index of the first line only shifts the index of an error.
proof fn lemma_parse_lines_base(acc: HostsMap, ls: Seq<Seq<char>>, base: nat)
    ensures
        parse_lines_from(acc, ls, base) == match parse_lines_from(acc, ls, 0) {
            Ok(m) => Ok(m),
            Err(e) => Err::<HostsMap, nat>(e + base),
        },
    decreases ls.len(),
{
    if ls.len() > 0 {
        match line_kind(ls[0]) {
            LineKind::Blank => {
                lemma_parse_lines_base(acc, ls.drop_first(), base + 1);
                lemma_parse_lines_base(acc, ls.drop_first(), 1);
            },
            LineKind::Entry(ip, names) => {
                lemma_parse_lines_base(merge_entry(acc, ip, names.to_set()), ls.drop_first(), base + 1);
                lemma_parse_lines_base(merge_entry(acc, ip, names.to_set()), ls.drop_first(), 1);
            },
            LineKind::Invalid => {},
        }
    }
}

/// Reading into a table that already holds `acc` merges `acc` with what is read.
proof fn lemma_parse_lines_acc(acc: HostsMap, m: HostsMap, ls: Seq<Seq<char>>, base: nat)
    ensures
        parse_lines_from(merge_maps(acc, m), ls, base) == match parse_lines_from(m, ls, base) {
            Ok(x) => Ok(merge_maps(acc, x)),
            Err(e) => Err::<HostsMap, nat>(e),
        },
    decreases ls.len(),
{
    if ls.len() > 0 {
        match line_kind(ls[0]) {
            LineKind::Blank => {
                lemma_parse_lines_acc(acc, m, ls.drop_first(), base + 1);
            },
            LineKind::Entry(ip, names) => {
                let s = names.to_set();
                assert(merge_entry(merge_maps(acc, m), ip, s) =~~= merge_maps(
                    acc,
                    merge_entry(m, ip, s),
                ));
                lemma_parse_lines_acc(acc, merge_entry(m, ip, s), ls.drop_first(), base + 1);
            },
            LineKind::Invalid => {},
        }
    }
}

/// A hosts file of one line that gives an address written with hexadecimal
/// digits (either case), dots and colons, such as `127.0.0.1` or `ff02::1`,
/// followed by host names made of letters, digits, dots, hyphens and
/// underscores, such as `ip6-allnodes`, is read as that address mapped to
/// those names, with or without a newline at its end.
pub proof fn lemma_address_line_read(ip: Seq<char>, hs: Seq<Seq<char>>)
    requires
        ip.len() > 0,
        forall|k: int| 0 <= k < ip.len() ==> "0123456789abcdefABCDEF.:"@.contains(#[trigger] ip[k]),
        hs.len() > 0,
        forall|i: int| 0 <= i < hs.len() ==> (#[trigger] hs[i]).len() > 0,
        forall|i: int, k: int|
            0 <= i < hs.len() && 0 <= k < hs[i].len()
                ==> "0123456789abcdefghijklmnopqrstuvwxyzABCDEFGHIJKLMNOPQRSTUVWXYZ.-_"@.contains(
                #[trigger] hs[i][k],
            ),
    ensures
        parse_hosts_text(ip + seq![' '] + join_names(hs)) == Ok::<HostsMap, nat>(
            Map::empty().insert(ip, hs.to_set()),
        ),
        parse_hosts_text(entry_line(ip, hs)) == Ok::<HostsMap, nat>(
            Map::empty().insert(ip, hs.to_set()),
        ),
{
    assert forall|k: int| 0 <= k < ip.len() implies is_ip_char(#[trigger] ip[k]) by {
        lemma_ip_alphabet(ip[k]);
    }
    assert forall|i: int| 0 <= i < hs.len() implies valid_hostname(#[trigger] hs[i]) by {
        assert forall|k: int| 0 <= k < hs[i].len() implies is_hostname_char(#[trigger] hs[i][k]) by {
            lemma_hostname_alphabet(hs[i][k]);
        }
    }
    let empty = Map::<Seq<char>, Set<Seq<char>>>::empty();
    let want = empty.insert(ip, hs.to_set());
    assert(merge_entry(empty, ip, hs.to_set()) == want);
    let content = ip + seq![' '] + join_names(hs);
    lemma_entry_line_kind(ip, hs);
    lemma_first_index_unique(content, '\n', content.len() as int);
    let ls = lines(content);
    assert(ls == seq![content]);
    assert(ls.drop_first() =~= Seq::<Seq<char>>::empty());
    assert(parse_lines_from(empty, ls, 0) == parse_lines_from(want, ls.drop_first(), 1));
    let es: EntrySeq = seq![(ip, hs)];
    assert(entries_renderable(es)) by {
        assert forall|i: int| 0 <= i < es.len() implies #[trigger] es[i] == (ip, hs) by {}
    }
    lemma_parse_rendered(empty, es, 0);
    assert(es.drop_first() =~= Seq::<(Seq<char>, Seq<Seq<char>>)>::empty());
    assert(render_entries(es.drop_first()) == Seq::<char>::empty());
    assert(render_entries(es) =~= entry_line(ip, hs));
    assert(fold_merge(empty, es) == fold_merge(want, es.drop_first()));
}

/// Reading lines: the result is an error exactly when one of the lines is
/// malformed, and the error is the position of the first malformed line,
/// counted on from `base`.
proof fn lemma_parse_lines_error(acc: HostsMap, ls: Seq<Seq<char>>, base: nat)
    ensures
        parse_lines_from(acc, ls, base) is Err <==> exists|k: int|
            0 <= k < ls.len() && line_kind(#[trigger] ls[k]) is Invalid,
        parse_lines_from(acc, ls, base) matches Err(e) ==> base <= e < base + ls.len()
            && line_kind(ls[e - base]) is Invalid && forall|k: int|
            0 <= k < e - base ==> !(line_kind(#[trigger] ls[k]) is Invalid),
    decreases ls.len(),
{
    if ls.len() > 0 {
        let rest = ls.drop_first();
        assert forall|k: int| 0 <= k < rest.len() implies #[trigger] rest[k] == ls[k + 1] by {}
        match line_kind(ls[0]) {
            LineKind::Blank => {
                lemma_parse_lines_error(acc, rest, base + 1);
            },
            LineKind::Entry(ip, names) => {
                lemma_parse_lines_error(merge_entry(acc, ip, names.to_set()), rest, base + 1);
            },
            LineKind::Invalid => {},
        }
        if !(line_kind(ls[0]) is Invalid) {
            if exists|k: int| 0 <= k < ls.len() && line_kind(#[trigger] ls[k]) is Invalid {
                let k = choose|k: int| 0 <= k < ls.len() && line_kind(#[trigger] ls[k]) is Invalid;
                assert(k > 0);
                assert(line_kind(rest[k - 1]) is Invalid);
            }
            if exists|k: int| 0 <= k < rest.len() && line_kind(#[trigger] rest[k]) is Invalid {
                let k = choose|k: int| 0 <= k < rest.len() && line_kind(#[trigger] rest[k]) is Invalid;
                assert(line_kind(ls[k + 1]) is Invalid);
            }
            match parse_lines_from(acc, ls, base) {
                Err(e) => {
                    assert(line_kind(ls[e - base]) == line_kind(rest[e - base - 1]));
                    assert forall|k: int| 0 <= k < e - base implies !(line_kind(
                        #[trigger] ls[k],
                    ) is Invalid) by {
                        if k > 0 {
                            assert(ls[k] == rest[k - 1]);
                        }
                    }
                },
                Ok(_) => {},
            }
        } else {
            assert(line_kind(ls[0]) is Invalid);
        }
    }
}

/// A hosts file is refused exactly when one of its lines is malformed, and the
/// error gives the first malformed line, counted from 0.
pub proof fn lemma_parse_error_line(s: Seq<char>)
    ensures
        parse_hosts_text(s) is Err <==> exists|k: int|
            0 <= k < lines(s).len() && line_kind(#[trigger] lines(s)[k]) is Invalid,
        parse_hosts_text(s) matches Err(e) ==> e < lines(s).len() && line_kind(lines(s)[e as int])
            is Invalid && forall|k: int|
            0 <= k < e ==> !(line_kind(#[trigger] lines(s)[k]) is Invalid),
{
    lemma_parse_lines_error(Map::empty(), lines(s), 0);
}

/// A line that starts with `#` is a comment: a file of one such line gives no
/// addresses, whatever the comment says.
pub proof fn lemma_comment_line(c: Seq<char>)
    requires
        forall|k: int| 0 <= k < c.len() ==> c[k] != '\n',
    ensures
        parse_hosts_text(seq!['#'] + c) == Ok::<HostsMap, nat>(Map::empty()),
{
    let l = seq!['#'] + c;
    assert forall|k: int| 0 <= k < l.len() implies l[k] != '\n' by {
        if k > 0 {
            assert(l[k] == c[k - 1]);
        }
    }
    lemma_first_index_unique(l, '\n', l.len() as int);
    lemma_first_index_unique(l, '#', 0);
    let e = Seq::<char>::empty();
    assert(strip_comment(l) =~= e);
    assert(words(e) =~= Seq::<Seq<char>>::empty());
    assert(line_kind(l) is Blank);
    let ls = lines(l);
    assert(ls == seq![l]);
    assert(ls.drop_first() =~= Seq::<Seq<char>>::empty());
    let empty = Map::<Seq<char>, Set<Seq<char>>>::empty();
    assert(parse_lines_from(empty, ls, 0) == parse_lines_from(empty, ls.drop_first(), 1));
}

/// Adding an entry to a table keeps every name the table had, adds the entry's
/// names to its address, and leaves the other addresses as they were.
pub proof fn lemma_merge_entry_names(
    m: HostsMap,
    ip: Seq<char>,
    names: Set<Seq<char>>,
    q: Seq<char>,
    n: Seq<char>,
)
    ensures
        merge_entry(m, ip, names).dom() == m.dom().insert(ip),
        merge_entry(m, ip, names)[ip].contains(n) <==> (m.dom().contains(ip) && m[ip].contains(n))
            || names.contains(n),
        q != ip ==> merge_entry(m, ip, names)[q] == m[q],
{
    assert(merge_entry(m, ip, names).dom() =~= m.dom().insert(ip));
}

/// The merge of two tables has the addresses of both, and each address has
/// every name that either table gives it, and no other.
pub proof fn lemma_merge_maps_names(a: HostsMap, b: HostsMap, q: Seq<char>, n: Seq<char>)
    ensures
        merge_maps(a, b).dom() == a.dom().union(b.dom()),
        merge_maps(a, b).dom().contains(q) ==> (merge_maps(a, b)[q].contains(n) <==> (a.dom().contains(
            q,
        ) && a[q].contains(n)) || (b.dom().contains(q) && b[q].contains(n))),
{
    assert(merge_maps(a, b).dom() =~= a.dom().union(b.dom()));
}

/// Reading two hosts files one after the other (the first ending with a
/// newline) gives the merge of the two tables; an error in either file is an
/// error of the whole, at the same line.
pub proof fn lemma_parse_concat(a: Seq<char>, b: Seq<char>)
    requires
        a.len() > 0,
        a.last() == '\n',
    ensures
        parse_hosts_text(a + b) == match (parse_hosts_text(a), parse_hosts_text(b)) {
            (Ok(x), Ok(y)) => Ok(merge_maps(x, y)),
            (Err(e), _) => Err(e),
            (Ok(_), Err(e)) => Err::<HostsMap, nat>(e + (lines(a).len() - 1) as nat),
        },
{
    let empty = Map::<Seq<char>, Set<Seq<char>>>::empty();
    let la = lines(a);
    lemma_lines_nonempty(a);
    let l1 = la.drop_last();
    lemma_lines_append(a, b);
    let e = Seq::<char>::empty();
    lemma_lines_append(a, e);
    assert(a + e =~= a);
    assert(first_index(e, '\n') == 0);
    assert(lines(e) == seq![e]);
    assert(la =~= l1 + seq![e]);
    assert(first_index(e, '#') == 0);
    assert(words(strip_comment(e)) =~= Seq::<Seq<char>>::empty());
    assert(line_kind(e) is Blank);
    lemma_parse_lines_concat(empty, l1, seq![e], 0);
    lemma_parse_lines_concat(empty, l1, lines(b), 0);
    match parse_lines_from(empty, l1, 0) {
        Ok(x) => {
            let sb = seq![e];
            assert(sb.drop_first() =~= Seq::<Seq<char>>::empty());
            assert(sb[0] == e);
            assert(parse_lines_from(x, sb.drop_first(), l1.len() + 1) == Ok::<HostsMap, nat>(x));
            assert(parse_lines_from(x, sb, l1.len()) == Ok::<HostsMap, nat>(x));
            assert(merge_maps(x, empty) =~= x);
            lemma_parse_lines_acc(x, empty, lines(b), l1.len());
            lemma_parse_lines_base(empty, lines(b), l1.len());
        },
        Err(_) => {},
    }
}

} // verus!
