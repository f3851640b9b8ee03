//! The hosts-file format, stated as spec functions.
//!
//! A hosts file is a sequence of lines separated by `'\n'`. On each line,
//! everything from the first `'#'` on is a comment. What is left is split into
//! words at runs of blanks (space, tab, carriage return). A line without words
//! is blank; a line whose first word is an IP address and whose other words (at
//! least one) are host names is an entry; every other line is malformed. The
//! entries of a file are merged into one table: each IP address is mapped to the
//! set of all host names that the entries give for it.

use vstd::prelude::*;

verus! {

/// Blank characters that separate words.
pub open spec fn is_blank(c: char) -> bool {
    c == ' ' || c == '\t' || c == '\r'
}

/// Characters of an IP address: hexadecimal digits, dots and colons.
pub open spec fn is_ip_char(c: char) -> bool {
    ('0' <= c && c <= '9') || ('a' <= c && c <= 'f') || ('A' <= c && c <= 'F') || c == '.'
        || c == ':'
}

/// Characters of a host name: ASCII letters and digits, dots, hyphens and underscores.
pub open spec fn is_hostname_char(c: char) -> bool {
    ('0' <= c && c <= '9') || ('a' <= c && c <= 'z') || ('A' <= c && c <= 'Z') || c == '.'
        || c == '-' || c == '_'
}

pub open spec fn valid_ip(t: Seq<char>) -> bool {
    t.len() > 0 && forall|i: int| 0 <= i < t.len() ==> is_ip_char(#[trigger] t[i])
}

pub open spec fn valid_hostname(t: Seq<char>) -> bool {
    t.len() > 0 && forall|i: int| 0 <= i < t.len() ==> is_hostname_char(#[trigger] t[i])
}

/// Words are separated by spaces, tabs and carriage returns, and by nothing else.
pub proof fn lemma_blank_alphabet(c: char)
    ensures
        is_blank(c) <==> " \t\r"@.contains(c),
{
    reveal_strlit(" \t\r");
    let s = " \t\r"@;
    assert forall|i: int| 0 <= i < s.len() implies is_blank(#[trigger] s[i]) by {
        if i == 0 {
            assert(s[0] == ' ');
        } else if i == 1 {
            assert(s[1] == '\t');
        } else if i == 2 {
            assert(s[2] == '\r');
        }
    }
    if is_blank(c) {
        if c == ' ' {
            assert(s[0] == c);
        } else if c == '\t' {
            assert(s[1] == c);
        } else if c == '\r' {
            assert(s[2] == c);
        }
    }
}

/// An IP address is written with the hexadecimal digits, in either case, the
/// dot and the colon: every IPv4 address (`127.0.0.1`) and every IPv6 address
/// (`ff02::1`, `FE80::1`) is made of these characters, and of no others.
pub proof fn lemma_ip_alphabet(c: char)
    ensures
        is_ip_char(c) <==> "0123456789abcdefABCDEF.:"@.contains(c),
{
    reveal_strlit("0123456789abcdefABCDEF.:");
    let s = "0123456789abcdefABCDEF.:"@;
    assert forall|i: int| 0 <= i < s.len() implies is_ip_char(#[trigger] s[i]) by {
        if i == 0 {
            assert(s[0] == '0');
        } else if i == 1 {
            assert(s[1] == '1');
        } else if i == 2 {
            assert(s[2] == '2');
        } else if i == 3 {
            assert(s[3] == '3');
        } else if i == 4 {
            assert(s[4] == '4');
        } else if i == 5 {
            assert(s[5] == '5');
        } else if i == 6 {
            assert(s[6] == '6');
        } else if i == 7 {
            assert(s[7] == '7');
        } else if i == 8 {
            assert(s[8] == '8');
        } else if i == 9 {
            assert(s[9] == '9');
        } else if i == 10 {
            assert(s[10] == 'a');
        } else if i == 11 {
            assert(s[11] == 'b');
        } else if i == 12 {
            assert(s[12] == 'c');
        } else if i == 13 {
            assert(s[13] == 'd');
        } else if i == 14 {
            assert(s[14] == 'e');
        } else if i == 15 {
            assert(s[15] == 'f');
        } else if i == 16 {
            assert(s[16] == 'A');
        } else if i == 17 {
            assert(s[17] == 'B');
        } else if i == 18 {
            assert(s[18] == 'C');
        } else if i == 19 {
            assert(s[19] == 'D');
        } else if i == 20 {
            assert(s[20] == 'E');
        } else if i == 21 {
            assert(s[21] == 'F');
        } else if i == 22 {
            assert(s[22] == '.');
        } else if i == 23 {
            assert(s[23] == ':');
        }
    }
    if is_ip_char(c) {
        if c == '0' {
            assert(s[0] == c);
        } else if c == '1' {
            assert(s[1] == c);
        } else if c == '2' {
            assert(s[2] == c);
        } else if c == '3' {
            assert(s[3] == c);
        } else if c == '4' {
            assert(s[4] == c);
        } else if c == '5' {
            assert(s[5] == c);
        } else if c == '6' {
            assert(s[6] == c);
        } else if c == '7' {
            assert(s[7] == c);
        } else if c == '8' {
            assert(s[8] == c);
        } else if c == '9' {
            assert(s[9] == c);
        } else if c == 'a' {
            assert(s[10] == c);
        } else if c == 'b' {
            assert(s[11] == c);
        } else if c == 'c' {
            assert(s[12] == c);
        } else if c == 'd' {
            assert(s[13] == c);
        } else if c == 'e' {
            assert(s[14] == c);
        } else if c == 'f' {
            assert(s[15] == c);
        } else if c == 'A' {
            assert(s[16] == c);
        } else if c == 'B' {
            assert(s[17] == c);
        } else if c == 'C' {
            assert(s[18] == c);
        } else if c == 'D' {
            assert(s[19] == c);
        } else if c == 'E' {
            assert(s[20] == c);
        } else if c == 'F' {
            assert(s[21] == c);
        } else if c == '.' {
            assert(s[22] == c);
        } else if c == ':' {
            assert(s[23] == c);
        }
    }
}

/// A host name is written with ASCII letters of either case, digits, the dot,
/// the hyphen and the underscore, and with no other character.
pub proof fn lemma_hostname_alphabet(c: char)
    ensures
        is_hostname_char(c) <==> "0123456789abcdefghijklmnopqrstuvwxyzABCDEFGHIJKLMNOPQRSTUVWXYZ.-_"@.contains(c),
{
    reveal_strlit("0123456789abcdefghijklmnopqrstuvwxyzABCDEFGHIJKLMNOPQRSTUVWXYZ.-_");
    let s = "0123456789abcdefghijklmnopqrstuvwxyzABCDEFGHIJKLMNOPQRSTUVWXYZ.-_"@;
    assert forall|i: int| 0 <= i < s.len() implies is_hostname_char(#[trigger] s[i]) by {
        if i == 0 {
            assert(s[0] == '0');
        } else if i == 1 {
            assert(s[1] == '1');
        } else if i == 2 {
            assert(s[2] == '2');
        } else if i == 3 {
            assert(s[3] == '3');
        } else if i == 4 {
            assert(s[4] == '4');
        } else if i == 5 {
            assert(s[5] == '5');
        } else if i == 6 {
            assert(s[6] == '6');
        } else if i == 7 {
            assert(s[7] == '7');
        } else if i == 8 {
            assert(s[8] == '8');
        } else if i == 9 {
            assert(s[9] == '9');
        } else if i == 10 {
            assert(s[10] == 'a');
        } else if i == 11 {
            assert(s[11] == 'b');
        } else if i == 12 {
            assert(s[12] == 'c');
        } else if i == 13 {
            assert(s[13] == 'd');
        } else if i == 14 {
            assert(s[14] == 'e');
        } else if i == 15 {
            assert(s[15] == 'f');
        } else if i == 16 {
            assert(s[16] == 'g');
        } else if i == 17 {
            assert(s[17] == 'h');
        } else if i == 18 {
            assert(s[18] == 'i');
        } else if i == 19 {
            assert(s[19] == 'j');
        } else if i == 20 {
            assert(s[20] == 'k');
        } else if i == 21 {
            assert(s[21] == 'l');
        } else if i == 22 {
            assert(s[22] == 'm');
        } else if i == 23 {
            assert(s[23] == 'n');
        } else if i == 24 {
            assert(s[24] == 'o');
        } else if i == 25 {
            assert(s[25] == 'p');
        } else if i == 26 {
            assert(s[26] == 'q');
        } else if i == 27 {
            assert(s[27] == 'r');
        } else if i == 28 {
            assert(s[28] == 's');
        } else if i == 29 {
            assert(s[29] == 't');
        } else if i == 30 {
            assert(s[30] == 'u');
        } else if i == 31 {
            assert(s[31] == 'v');
        } else if i == 32 {
            assert(s[32] == 'w');
        } else if i == 33 {
            assert(s[33] == 'x');
        } else if i == 34 {
            assert(s[34] == 'y');
        } else if i == 35 {
            assert(s[35] == 'z');
        } else if i == 36 {
            assert(s[36] == 'A');
        } else if i == 37 {
            assert(s[37] == 'B');
        } else if i == 38 {
            assert(s[38] == 'C');
        } else if i == 39 {
            assert(s[39] == 'D');
        } else if i == 40 {
            assert(s[40] == 'E');
        } else if i == 41 {
            assert(s[41] == 'F');
        } else if i == 42 {
            assert(s[42] == 'G');
        } else if i == 43 {
            assert(s[43] == 'H');
        } else if i == 44 {
            assert(s[44] == 'I');
        } else if i == 45 {
            assert(s[45] == 'J');
        } else if i == 46 {
            assert(s[46] == 'K');
        } else if i == 47 {
            assert(s[47] == 'L');
        } else if i == 48 {
            assert(s[48] == 'M');
        } else if i == 49 {
            assert(s[49] == 'N');
        } else if i == 50 {
            assert(s[50] == 'O');
        } else if i == 51 {
            assert(s[51] == 'P');
        } else if i == 52 {
            assert(s[52] == 'Q');
        } else if i == 53 {
            assert(s[53] == 'R');
        } else if i == 54 {
            assert(s[54] == 'S');
        } else if i == 55 {
            assert(s[55] == 'T');
        } else if i == 56 {
            assert(s[56] == 'U');
        } else if i == 57 {
            assert(s[57] == 'V');
        } else if i == 58 {
            assert(s[58] == 'W');
        } else if i == 59 {
            assert(s[59] == 'X');
        } else if i == 60 {
            assert(s[60] == 'Y');
        } else if i == 61 {
            assert(s[61] == 'Z');
        } else if i == 62 {
            assert(s[62] == '.');
        } else if i == 63 {
            assert(s[63] == '-');
        } else if i == 64 {
            assert(s[64] == '_');
        }
    }
    if is_hostname_char(c) {
        if c == '0' {
            assert(s[0] == c);
        } else if c == '1' {
            assert(s[1] == c);
        } else if c == '2' {
            assert(s[2] == c);
        } else if c == '3' {
            assert(s[3] == c);
        } else if c == '4' {
            assert(s[4] == c);
        } else if c == '5' {
            assert(s[5] == c);
        } else if c == '6' {
            assert(s[6] == c);
        } else if c == '7' {
            assert(s[7] == c);
        } else if c == '8' {
            assert(s[8] == c);
        } else if c == '9' {
            assert(s[9] == c);
        } else if c == 'a' {
            assert(s[10] == c);
        } else if c == 'b' {
            assert(s[11] == c);
        } else if c == 'c' {
            assert(s[12] == c);
        } else if c == 'd' {
            assert(s[13] == c);
        } else if c == 'e' {
            assert(s[14] == c);
        } else if c == 'f' {
            assert(s[15] == c);
        } else if c == 'g' {
            assert(s[16] == c);
        } else if c == 'h' {
            assert(s[17] == c);
        } else if c == 'i' {
            assert(s[18] == c);
        } else if c == 'j' {
            assert(s[19] == c);
        } else if c == 'k' {
            assert(s[20] == c);
        } else if c == 'l' {
            assert(s[21] == c);
        } else if c == 'm' {
            assert(s[22] == c);
        } else if c == 'n' {
            assert(s[23] == c);
        } else if c == 'o' {
            assert(s[24] == c);
        } else if c == 'p' {
            assert(s[25] == c);
        } else if c == 'q' {
            assert(s[26] == c);
        } else if c == 'r' {
            assert(s[27] == c);
        } else if c == 's' {
            assert(s[28] == c);
        } else if c == 't' {
            assert(s[29] == c);
        } else if c == 'u' {
            assert(s[30] == c);
        } else if c == 'v' {
            assert(s[31] == c);
        } else if c == 'w' {
            assert(s[32] == c);
        } else if c == 'x' {
            assert(s[33] == c);
        } else if c == 'y' {
            assert(s[34] == c);
        } else if c == 'z' {
            assert(s[35] == c);
        } else if c == 'A' {
            assert(s[36] == c);
        } else if c == 'B' {
            assert(s[37] == c);
        } else if c == 'C' {
            assert(s[38] == c);
        } else if c == 'D' {
            assert(s[39] == c);
        } else if c == 'E' {
            assert(s[40] == c);
        } else if c == 'F' {
            assert(s[41] == c);
        } else if c == 'G' {
            assert(s[42] == c);
        } else if c == 'H' {
            assert(s[43] == c);
        } else if c == 'I' {
            assert(s[44] == c);
        } else if c == 'J' {
            assert(s[45] == c);
        } else if c == 'K' {
            assert(s[46] == c);
        } else if c == 'L' {
            assert(s[47] == c);
        } else if c == 'M' {
            assert(s[48] == c);
        } else if c == 'N' {
            assert(s[49] == c);
        } else if c == 'O' {
            assert(s[50] == c);
        } else if c == 'P' {
            assert(s[51] == c);
        } else if c == 'Q' {
            assert(s[52] == c);
        } else if c == 'R' {
            assert(s[53] == c);
        } else if c == 'S' {
            assert(s[54] == c);
        } else if c == 'T' {
            assert(s[55] == c);
        } else if c == 'U' {
            assert(s[56] == c);
        } else if c == 'V' {
            assert(s[57] == c);
        } else if c == 'W' {
            assert(s[58] == c);
        } else if c == 'X' {
            assert(s[59] == c);
        } else if c == 'Y' {
            assert(s[60] == c);
        } else if c == 'Z' {
            assert(s[61] == c);
        } else if c == '.' {
            assert(s[62] == c);
        } else if c == '-' {
            assert(s[63] == c);
        } else if c == '_' {
            assert(s[64] == c);
        }
    }
}


/// The position of the first `c` in `s`, or the length of `s` when there is none.
pub open spec fn first_index(s: Seq<char>, c: char) -> nat
    decreases s.len(),
{
    if s.len() == 0 {
        0
    } else if s[0] == c {
        0
    } else {
        1 + first_index(s.drop_first(), c)
    }
}

/// The lines of `s`: the pieces between the newlines. A text that ends with a
/// newline has an empty last line.
pub open spec fn lines(s: Seq<char>) -> Seq<Seq<char>>
    decreases s.len(),
{
    if first_index(s, '\n') < s.len() {
        seq![s.take(first_index(s, '\n') as int)] + lines(s.skip(first_index(s, '\n') as int + 1))
    } else {
        seq![s]
    }
}

/// A line without its comment.
pub open spec fn strip_comment(line: Seq<char>) -> Seq<char> {
    if first_index(line, '#') < line.len() {
        line.take(first_index(line, '#') as int)
    } else {
        line
    }
}

/// The words of `s`, where `cur` is a word already begun.
pub open spec fn words_from(s: Seq<char>, cur: Seq<char>) -> Seq<Seq<char>>
    decreases s.len(),
{
    if s.len() == 0 {
        if cur.len() == 0 {
            seq![]
        } else {
            seq![cur]
        }
    } else if is_blank(s[0]) {
        (if cur.len() == 0 {
            Seq::<Seq<char>>::empty()
        } else {
            seq![cur]
        }) + words_from(s.drop_first(), seq![])
    } else {
        words_from(s.drop_first(), cur.push(s[0]))
    }
}

/// The words of `s`: its maximal runs of non-blank characters.
pub open spec fn words(s: Seq<char>) -> Seq<Seq<char>> {
    words_from(s, seq![])
}

/// What one line of a hosts file says.
pub enum LineKind {
    Blank,
    Entry(Seq<char>, Seq<Seq<char>>),
    Invalid,
}

pub open spec fn line_kind(line: Seq<char>) -> LineKind {
    let ws = words(strip_comment(line));
    if ws.len() == 0 {
        LineKind::Blank
    } else if ws.len() >= 2 && valid_ip(ws[0]) && (forall|i: int|
        1 <= i < ws.len() ==> valid_hostname(#[trigger] ws[i])) {
        LineKind::Entry(ws[0], ws.drop_first())
    } else {
        LineKind::Invalid
    }
}

/// A hosts table: each IP address with the set of its host names.
pub type HostsMap = Map<Seq<char>, Set<Seq<char>>>;

/// `m` after the entry `ip names` has been merged into it.
pub open spec fn merge_entry(m: HostsMap, ip: Seq<char>, names: Set<Seq<char>>) -> HostsMap {
    m.insert(
        ip,
        if m.dom().contains(ip) {
            m[ip].union(names)
        } else {
            names
        },
    )
}

/// The pointwise union of two hosts tables.
pub open spec fn merge_maps(a: HostsMap, b: HostsMap) -> HostsMap {
    Map::new(
        |ip: Seq<char>| a.dom().contains(ip) || b.dom().contains(ip),
        |ip: Seq<char>|
            if a.dom().contains(ip) && b.dom().contains(ip) {
                a[ip].union(b[ip])
            } else if a.dom().contains(ip) {
                a[ip]
            } else {
                b[ip]
            },
    )
}

/// Reads the lines `ls` into the table `acc`; `base` is the index of `ls[0]` in
/// the file. The error is the index of the first malformed line.
pub open spec fn parse_lines_from(acc: HostsMap, ls: Seq<Seq<char>>, base: nat) -> Result<
    HostsMap,
    nat,
>
    decreases ls.len(),
{
    if ls.len() == 0 {
        Ok(acc)
    } else {
        match line_kind(ls[0]) {
            LineKind::Blank => parse_lines_from(acc, ls.drop_first(), base + 1),
            LineKind::Entry(ip, names) => parse_lines_from(
                merge_entry(acc, ip, names.to_set()),
                ls.drop_first(),
                base + 1,
            ),
            LineKind::Invalid => Err(base),
        }
    }
}

/// The table that a hosts file describes, or the index (from 0) of its first
/// malformed line.
pub open spec fn parse_hosts_text(s: Seq<char>) -> Result<HostsMap, nat> {
    parse_lines_from(Map::empty(), lines(s), 0)
}

pub proof fn lemma_first_index(s: Seq<char>, c: char)
    ensures
        first_index(s, c) <= s.len(),
        first_index(s, c) < s.len() ==> s[first_index(s, c) as int] == c,
        forall|j: int| 0 <= j < first_index(s, c) ==> s[j] != c,
    decreases s.len(),
{
    if s.len() > 0 && s[0] != c {
        lemma_first_index(s.drop_first(), c);
        assert forall|j: int| 0 <= j < first_index(s, c) implies s[j] != c by {
            if j > 0 {
                assert(s[j] == s.drop_first()[j - 1]);
            }
        }
    }
}

/// `first_index` is the one position before which no `c` occurs and at which
/// `c` occurs or the text ends.
pub proof fn lemma_first_index_unique(s: Seq<char>, c: char, k: int)
    requires
        0 <= k <= s.len(),
        forall|j: int| 0 <= j < k ==> s[j] != c,
        k < s.len() ==> s[k] == c,
    ensures
        first_index(s, c) == k,
    decreases s.len(),
{
    if s.len() > 0 && k > 0 {
        assert(s[0] != c);
        assert forall|j: int| 0 <= j < k - 1 implies s.drop_first()[j] != c by {
            assert(s.drop_first()[j] == s[j + 1]);
        }
        lemma_first_index_unique(s.drop_first(), c, k - 1);
    }
}


/// Entries as plain values: an IP address with its host names, in order.
pub type EntrySeq = Seq<(Seq<char>, Seq<Seq<char>>)>;

/// Host names separated by single spaces.
pub open spec fn join_names(hs: Seq<Seq<char>>) -> Seq<char>
    decreases hs.len(),
{
    if hs.len() == 0 {
        seq![]
    } else if hs.len() == 1 {
        hs[0]
    } else {
        hs[0] + seq![' '] + join_names(hs.drop_first())
    }
}

/// The hosts-file line of one entry: the address, a space, the names separated
/// by spaces, and a newline.
pub open spec fn entry_line(ip: Seq<char>, hs: Seq<Seq<char>>) -> Seq<char> {
    ip + seq![' '] + join_names(hs) + seq!['\n']
}

/// The lines of all entries, in order.
pub open spec fn render_entries(es: EntrySeq) -> Seq<char>
    decreases es.len(),
{
    if es.len() == 0 {
        seq![]
    } else {
        entry_line(es[0].0, es[0].1) + render_entries(es.drop_first())
    }
}

/// A hosts file: the header followed by the lines of the entries.
pub open spec fn render_text(es: EntrySeq, header: Seq<char>) -> Seq<char> {
    header + render_entries(es)
}

pub proof fn lemma_join_names_push(hs: Seq<Seq<char>>, x: Seq<char>)
    ensures
        join_names(hs.push(x)) == if hs.len() == 0 {
            x
        } else {
            join_names(hs) + seq![' '] + x
        },
    decreases hs.len(),
{
    if hs.len() == 0 {
        assert(hs.push(x)[0] == x);
    } else if hs.len() == 1 {
        assert(hs.push(x).drop_first() =~= seq![x]);
        assert(join_names(seq![x]) == x);
        assert(hs.push(x)[0] == hs[0]);
        assert(join_names(hs) == hs[0]);
    } else {
        lemma_join_names_push(hs.drop_first(), x);
        assert(hs.push(x).drop_first() =~= hs.drop_first().push(x));
        assert(hs[0] + seq![' '] + (join_names(hs.drop_first()) + seq![' '] + x) =~= hs[0] + seq![
            ' ',
        ] + join_names(hs.drop_first()) + seq![' '] + x);
    }
}

pub proof fn lemma_render_entries_push(es: EntrySeq, e: (Seq<char>, Seq<Seq<char>>))
    ensures
        render_entries(es.push(e)) == render_entries(es) + entry_line(e.0, e.1),
    decreases es.len(),
{
    if es.len() == 0 {
        let empty = Seq::<(Seq<char>, Seq<Seq<char>>)>::empty();
        assert(es.push(e).drop_first() =~= empty);
        assert(render_entries(empty) == Seq::<char>::empty());
        assert(es.push(e)[0] == e);
        assert(render_entries(es) == Seq::<char>::empty());
        assert(render_entries(es.push(e)) =~= render_entries(es) + entry_line(e.0, e.1));
    } else {
        lemma_render_entries_push(es.drop_first(), e);
        assert(es.push(e).drop_first() =~= es.drop_first().push(e));
        assert(render_entries(es.push(e)) =~= render_entries(es) + entry_line(e.0, e.1));
    }
}

} // verus!
