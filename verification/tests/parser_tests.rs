use bebasin::error::ErrorKind;
use bebasin::helpers::AppendableMap;
use bebasin::hosts_map::Hosts;
use bebasin::parser::{parse_from_str, render_hosts};
use std::collections::BTreeSet;

fn names(h: &Hosts, ip: &str) -> Option<BTreeSet<String>> {
    h.get(ip).map(|v| v.iter().cloned().collect())
}

fn set(items: &[&str]) -> BTreeSet<String> {
    items.iter().map(|s| s.to_string()).collect()
}

fn table(h: &Hosts) -> Vec<(String, BTreeSet<String>)> {
    let mut t: Vec<(String, BTreeSet<String>)> = h
        .entries()
        .iter()
        .map(|e| (e.ip.clone(), e.hostnames.iter().cloned().collect()))
        .collect();
    t.sort();
    t
}

#[test]
fn parse_simple_file() {
    let h = parse_from_str("127.0.0.1 localhost\n0.0.0.0 a.com b.com\n").unwrap();
    assert_eq!(h.len(), 2);
    assert_eq!(names(&h, "127.0.0.1"), Some(set(&["localhost"])));
    assert_eq!(names(&h, "0.0.0.0"), Some(set(&["a.com", "b.com"])));
    assert_eq!(names(&h, "10.0.0.1"), None);
}

#[test]
fn parse_merges_repeated_addresses() {
    let h = parse_from_str("0.0.0.0 a.com\n0.0.0.0 a.com c.com\n0.0.0.0 b.com a.com\n").unwrap();
    assert_eq!(h.len(), 1);
    let e = &h.entries()[0];
    assert_eq!(e.ip, "0.0.0.0");
    assert_eq!(e.hostnames, vec!["a.com".to_string(), "c.com".to_string(), "b.com".to_string()]);
}

#[test]
fn parse_skips_comments_and_blank_lines() {
    let text = "# header\n\n   \n0.0.0.0 a.com # trailing comment\n\t# indented comment\n::1\tip6-localhost ip6-loopback\r\n";
    let h = parse_from_str(text).unwrap();
    assert_eq!(h.len(), 2);
    assert_eq!(names(&h, "0.0.0.0"), Some(set(&["a.com"])));
    assert_eq!(names(&h, "::1"), Some(set(&["ip6-localhost", "ip6-loopback"])));
}

#[test]
fn parse_empty_text() {
    let h = parse_from_str("").unwrap();
    assert_eq!(h.len(), 0);
    let h = parse_from_str("# only a comment").unwrap();
    assert_eq!(h.len(), 0);
}

#[test]
fn parse_last_line_without_newline() {
    let h = parse_from_str("0.0.0.0 a.com\n127.0.0.1 b.org").unwrap();
    assert_eq!(names(&h, "127.0.0.1"), Some(set(&["b.org"])));
}

#[test]
fn parse_rejects_address_without_names() {
    let r = parse_from_str("0.0.0.0 a.com\n127.0.0.1\n");
    assert_eq!(r.err(), Some(ErrorKind::ParseError { line_index: 1 }));
}

#[test]
fn parse_rejects_bad_address() {
    let r = parse_from_str("# x\nlocalhost 127.0.0.1\n");
    assert_eq!(r.err(), Some(ErrorKind::ParseError { line_index: 1 }));
}

#[test]
fn parse_rejects_bad_hostname() {
    let r = parse_from_str("0.0.0.0 a.com\n\n0.0.0.0 b.com ex!ample.com\n");
    assert_eq!(r.err(), Some(ErrorKind::ParseError { line_index: 2 }));
}

#[test]
fn parse_reports_first_malformed_line() {
    let r = parse_from_str("bad\nworse\n");
    assert_eq!(r.err(), Some(ErrorKind::ParseError { line_index: 0 }));
}

#[test]
fn render_writes_header_then_entries() {
    let h = parse_from_str("0.0.0.0 a.com b.com\n127.0.0.1 localhost\n0.0.0.0 c.com\n").unwrap();
    let out = render_hosts(&h, "# generated\n");
    assert_eq!(out, "# generated\n0.0.0.0 a.com b.com c.com\n127.0.0.1 localhost\n");
}

#[test]
fn render_empty_table() {
    let h = Hosts::new();
    assert_eq!(render_hosts(&h, "# header\n"), "# header\n");
    assert_eq!(render_hosts(&h, ""), "");
}

#[test]
fn render_then_parse_gives_same_table() {
    let text = "# hosts\n127.0.0.1 localhost\n0.0.0.0 ads.example.com\n0.0.0.0 tracker.example.net ads.example.com\n::1 ip6-localhost\n";
    let h = parse_from_str(text).unwrap();
    let written = render_hosts(&h, "# backup of the hosts file\n#\n");
    let back = parse_from_str(&written).unwrap();
    assert_eq!(table(&back), table(&h));
    assert_eq!(render_hosts(&back, ""), render_hosts(&h, ""));
}

#[test]
fn append_merges_tables() {
    let mut a = parse_from_str("0.0.0.0 a.com b.com\n127.0.0.1 localhost\n").unwrap();
    let b = parse_from_str("0.0.0.0 b.com c.com\n10.0.0.1 intranet\n").unwrap();
    assert_eq!(a.append(b), Ok(()));
    assert_eq!(a.len(), 3);
    assert_eq!(names(&a, "0.0.0.0"), Some(set(&["a.com", "b.com", "c.com"])));
    assert_eq!(names(&a, "127.0.0.1"), Some(set(&["localhost"])));
    assert_eq!(names(&a, "10.0.0.1"), Some(set(&["intranet"])));
}

#[test]
fn append_empty_table_changes_nothing() {
    let mut a = parse_from_str("0.0.0.0 a.com\n").unwrap();
    let before = table(&a);
    assert_eq!(a.append(Hosts::new()), Ok(()));
    assert_eq!(table(&a), before);
}

#[test]
fn parse_of_concatenation_is_merge_of_parses() {
    let first = "0.0.0.0 a.com\n127.0.0.1 localhost\n";
    let second = "0.0.0.0 b.com a.com\n10.0.0.1 intranet\n";
    let whole = parse_from_str(&format!("{}{}", first, second)).unwrap();
    let mut merged = parse_from_str(first).unwrap();
    merged.append(parse_from_str(second).unwrap()).unwrap();
    assert_eq!(table(&whole), table(&merged));
}

#[test]
fn parse_of_concatenation_shifts_error_lines() {
    let r = parse_from_str("0.0.0.0 a.com\n# c\nbroken\n");
    assert_eq!(r.err(), Some(ErrorKind::ParseError { line_index: 2 }));
}

#[test]
fn add_statement_deduplicates_names() {
    let mut h = Hosts::new();
    h.add_statement("0.0.0.0".to_string(), vec!["x.com".to_string(), "x.com".to_string()]);
    h.add_statement("0.0.0.0".to_string(), vec!["y.com".to_string(), "x.com".to_string()]);
    assert_eq!(h.entries()[0].hostnames, vec!["x.com".to_string(), "y.com".to_string()]);
}

#[test]
fn render_then_parse_with_blank_header_without_newline() {
    let h = parse_from_str("0.0.0.0 a.com b.com\n127.0.0.1 localhost\n").unwrap();
    let back = parse_from_str(&render_hosts(&h, "# top\n  \t")).unwrap();
    assert_eq!(table(&back), table(&h));
}

#[test]
fn header_ending_in_comment_swallows_first_entry() {
    let h = parse_from_str("0.0.0.0 a.com\n").unwrap();
    let back = parse_from_str(&render_hosts(&h, "# c")).unwrap();
    assert_eq!(back.len(), 0);
}

#[test]
fn clone_keeps_table() {
    let h = parse_from_str("0.0.0.0 a.com b.com\n127.0.0.1 localhost\n").unwrap();
    let c = h.clone();
    assert_eq!(table(&c), table(&h));
    assert_eq!(render_hosts(&c, ""), render_hosts(&h, ""));
}

#[test]
fn empty_table_under_comment_header_without_newline() {
    let back = parse_from_str(&render_hosts(&Hosts::new(), "# only a comment")).unwrap();
    assert_eq!(back.len(), 0);
}
