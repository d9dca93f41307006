//! Scanner, value store, substitution, and import/export flows.

use template_markers::import::{export_values, import_and_apply, import_values, split_lines_exec, trim_exec};
use template_markers::merge::merge_contents;
use template_markers::scan::scan_markers;
use template_markers::store::{scan_and_update_markers, ValueMap};
use template_markers::subst::apply_values;

fn cs(s: &str) -> Vec<char> {
    s.chars().collect()
}

fn st(v: &[char]) -> String {
    v.iter().collect()
}

#[test]
fn scan_finds_sorted_unique_markers() {
    let buf = cs("x {{b}} y {{a}} z {{b}}");
    let markers = scan_markers(&buf);
    let names: Vec<String> = markers.iter().map(|m| st(m)).collect();
    assert_eq!(names, vec!["{{a}}".to_string(), "{{b}}".to_string()]);
}

#[test]
fn scan_is_idempotent_without_edits() {
    let buf = cs("{{one}} and {{two}} and {{one}}");
    let first = scan_markers(&buf);
    let second = scan_markers(&buf);
    let a: Vec<String> = first.iter().map(|m| st(m)).collect();
    let b: Vec<String> = second.iter().map(|m| st(m)).collect();
    assert_eq!(a, b);
}

#[test]
fn scan_adjacent_markers_split() {
    let buf = cs("{{a}}{{b}}");
    let markers = scan_markers(&buf);
    let names: Vec<String> = markers.iter().map(|m| st(m)).collect();
    assert_eq!(names, vec!["{{a}}".to_string(), "{{b}}".to_string()]);
}

#[test]
fn scan_rejects_empty_body_and_unclosed() {
    assert_eq!(scan_markers(&cs("{{}}")).len(), 0);
    assert_eq!(scan_markers(&cs("{{abc")).len(), 0);
    assert_eq!(scan_markers(&cs("{abc}")).len(), 0);
}

#[test]
fn scan_keeps_spaces_distinct() {
    let buf = cs("{{Name}} {{ Name }}");
    let markers = scan_markers(&buf);
    let names: Vec<String> = markers.iter().map(|m| st(m)).collect();
    assert_eq!(names, vec!["{{ Name }}".to_string(), "{{Name}}".to_string()]);
}

#[test]
fn scan_nongreedy_stops_at_first_brace() {
    // the body may not hold `}`, so the span ends at the first `}}`
    let buf = cs("{{a}} trailing }}");
    let markers = scan_markers(&buf);
    let names: Vec<String> = markers.iter().map(|m| st(m)).collect();
    assert_eq!(names, vec!["{{a}}".to_string()]);
}

#[test]
fn reconcile_sets_keys_to_scan() {
    let buf = cs("{{a}} {{b}}");
    let mut map = ValueMap::new();
    let markers = scan_and_update_markers(&mut map, &buf);
    assert_eq!(map.len(), 2);
    assert_eq!(markers.len(), 2);
    assert!(map.get(&cs("{{a}}")).is_some());
    assert!(map.get(&cs("{{b}}")).is_some());
    assert_eq!(st(map.get(&cs("{{a}}")).unwrap()), "");
}

#[test]
fn reconcile_twice_preserves_values() {
    let buf = cs("{{a}} {{b}}");
    let mut map = ValueMap::new();
    scan_and_update_markers(&mut map, &buf);
    assert!(map.set_value(&cs("{{a}}"), cs("kept")));
    scan_and_update_markers(&mut map, &buf);
    assert_eq!(st(map.get(&cs("{{a}}")).unwrap()), "kept");
    assert_eq!(st(map.get(&cs("{{b}}")).unwrap()), "");
    assert_eq!(map.len(), 2);
}

#[test]
fn reconcile_drops_stale_adds_new() {
    let buf1 = cs("{{a}} {{b}}");
    let buf2 = cs("{{b}} {{c}}");
    let mut map = ValueMap::new();
    scan_and_update_markers(&mut map, &buf1);
    assert!(map.set_value(&cs("{{a}}"), cs("one")));
    assert!(map.set_value(&cs("{{b}}"), cs("two")));
    scan_and_update_markers(&mut map, &buf2);
    assert_eq!(map.len(), 2);
    assert!(map.get(&cs("{{a}}")).is_none());
    assert_eq!(st(map.get(&cs("{{b}}")).unwrap()), "two");
    assert_eq!(st(map.get(&cs("{{c}}")).unwrap()), "");
}

#[test]
fn set_value_ignores_unknown_marker() {
    let mut map = ValueMap::new();
    scan_and_update_markers(&mut map, &cs("{{a}}"));
    assert!(!map.set_value(&cs("{{zz}}"), cs("no")));
    assert_eq!(map.len(), 1);
    assert!(map.get(&cs("{{zz}}")).is_none());
}

#[test]
fn substitution_replaces_all_occurrences() {
    let buf = cs("{{x}}-{{x}}-{{x}}");
    let mut map = ValueMap::new();
    scan_and_update_markers(&mut map, &buf);
    map.set_value(&cs("{{x}}"), cs("7"));
    let out = apply_values(&buf, &map);
    assert_eq!(st(&out), "7-7-7");
}

#[test]
fn substitution_leaves_empty_values_alone() {
    let buf = cs("Hello {{name}}, today is {{date}}.");
    let mut map = ValueMap::new();
    scan_and_update_markers(&mut map, &buf);
    map.set_value(&cs("{{name}}"), cs("Alice"));
    let out = apply_values(&buf, &map);
    assert_eq!(st(&out), "Hello Alice, today is {{date}}.");
}

#[test]
fn substitution_all_empty_is_identity() {
    let buf = cs("Hello {{name}} and {{date}}.");
    let mut map = ValueMap::new();
    scan_and_update_markers(&mut map, &buf);
    let out = apply_values(&buf, &map);
    assert_eq!(st(&out), "Hello {{name}} and {{date}}.");
}

#[test]
fn substitution_single_pass_in_sorted_order() {
    // {{a}}'s value introduces the literal {{b}}, which {{b}}'s later pass
    // then replaces; no marker is processed twice
    let buf = cs("x{{a}}y");
    let mut map = ValueMap::new();
    scan_and_update_markers(&mut map, &cs("x{{a}}y {{b}}"));
    map.set_value(&cs("{{a}}"), cs("{{b}}"));
    map.set_value(&cs("{{b}}"), cs("Z"));
    let out = apply_values(&buf, &map);
    assert_eq!(st(&out), "xZy");
}

#[test]
fn import_updates_only_present_markers() {
    let buf = cs("{{a}}");
    let mut map = ValueMap::new();
    let text = cs("a=1\nb=2\n");
    let (out, count) = import_and_apply(&buf, &mut map, &text);
    assert_eq!(count, 1);
    assert_eq!(st(&out), "1");
    assert_eq!(map.len(), 1);
    assert!(map.get(&cs("{{b}}")).is_none());
    assert_eq!(st(map.get(&cs("{{a}}")).unwrap()), "1");
}

#[test]
fn import_zero_matches_leaves_buffer() {
    let buf = cs("{{a}}");
    let mut map = ValueMap::new();
    let text = cs("zz=1\n");
    let (out, count) = import_and_apply(&buf, &mut map, &text);
    assert_eq!(count, 0);
    assert_eq!(st(&out), "{{a}}");
}

#[test]
fn import_accepts_wrapped_and_bare_keys() {
    let buf = cs("{{a}} {{b}}");
    let mut map = ValueMap::new();
    let text = cs("{{a}}=one\nb=two\n");
    let (out, count) = import_and_apply(&buf, &mut map, &text);
    assert_eq!(count, 2);
    assert_eq!(st(&out), "one two");
}

#[test]
fn import_trims_and_splits_at_first_equals() {
    let buf = cs("{{a}}");
    let mut map = ValueMap::new();
    scan_and_update_markers(&mut map, &buf);
    let count = import_values(&mut map, &cs("  a  =  b=c  \n\n   \nnoequals\n"));
    assert_eq!(count, 1);
    assert_eq!(st(map.get(&cs("{{a}}")).unwrap()), "b=c");
}

#[test]
fn import_handles_crlf_lines() {
    let buf = cs("{{a}}");
    let mut map = ValueMap::new();
    scan_and_update_markers(&mut map, &buf);
    let count = import_values(&mut map, &cs("a=v\r\n"));
    assert_eq!(count, 1);
    assert_eq!(st(map.get(&cs("{{a}}")).unwrap()), "v");
}

#[test]
fn export_writes_sorted_lines() {
    let buf = cs("{{b}} {{a}}");
    let mut map = ValueMap::new();
    scan_and_update_markers(&mut map, &buf);
    map.set_value(&cs("{{a}}"), cs("1"));
    map.set_value(&cs("{{b}}"), cs("2"));
    let out = export_values(&map);
    assert_eq!(st(&out), "{{a}}=1\n{{b}}=2\n");
}

#[test]
fn export_then_import_round_trips_values() {
    let buf = cs("{{a}} {{b}}");
    let mut map = ValueMap::new();
    scan_and_update_markers(&mut map, &buf);
    map.set_value(&cs("{{a}}"), cs("alpha"));
    map.set_value(&cs("{{b}}"), cs("beta"));
    let text = export_values(&map);
    let mut map2 = ValueMap::new();
    scan_and_update_markers(&mut map2, &buf);
    let count = import_values(&mut map2, &text);
    assert_eq!(count, 2);
    assert_eq!(st(map2.get(&cs("{{a}}")).unwrap()), "alpha");
    assert_eq!(st(map2.get(&cs("{{b}}")).unwrap()), "beta");
}

#[test]
fn split_lines_matches_line_conventions() {
    let lines = split_lines_exec(&cs("a\nb\r\n\nc"));
    let out: Vec<String> = lines.iter().map(|l| st(l)).collect();
    assert_eq!(out, vec!["a".to_string(), "b".to_string(), "".to_string(), "c".to_string()]);
    assert_eq!(split_lines_exec(&cs("a\n")).len(), 1);
    assert_eq!(split_lines_exec(&cs("")).len(), 0);
}

#[test]
fn trim_strips_unicode_whitespace() {
    assert_eq!(st(&trim_exec(&cs("  \u{3000}abc\t "))), "abc");
    assert_eq!(st(&trim_exec(&cs("   "))), "");
    assert_eq!(st(&trim_exec(&cs("x"))), "x");
}

#[test]
fn empty_buffer_has_no_markers() {
    let buf = cs("");
    assert_eq!(scan_markers(&buf).len(), 0);
    let mut map = ValueMap::new();
    scan_and_update_markers(&mut map, &buf);
    assert_eq!(map.len(), 0);
    let (out, count) = import_and_apply(&buf, &mut map, &cs("a=1\n"));
    assert_eq!(count, 0);
    assert_eq!(st(&out), "");
}

#[test]
fn marker_at_buffer_end_is_found() {
    let names: Vec<String> = scan_markers(&cs("ab{{x}}")).iter().map(|m| st(m)).collect();
    assert_eq!(names, vec!["{{x}}".to_string()]);
}

#[test]
fn merge_joins_with_blank_lines() {
    let parts = vec![cs("first"), cs("second"), cs("third")];
    assert_eq!(st(&merge_contents(&parts)), "first\n\nsecond\n\nthird");
}

#[test]
fn merge_edge_cases() {
    assert_eq!(st(&merge_contents(&Vec::new())), "");
    assert_eq!(st(&merge_contents(&vec![cs("only")])), "only");
    assert_eq!(st(&merge_contents(&vec![cs(""), cs("b")])), "\n\nb");
}

#[test]
fn marker_list_reports_sorted_keys() {
    let mut map = ValueMap::new();
    scan_and_update_markers(&mut map, &cs("{{z}} {{m}} {{a}}"));
    let names: Vec<String> = map.marker_list().iter().map(|m| st(m)).collect();
    assert_eq!(names, vec!["{{a}}".to_string(), "{{m}}".to_string(), "{{z}}".to_string()]);
}
