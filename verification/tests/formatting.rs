//! Decorator, selection formatter, style inventory, and task guard.

use template_markers::decorate::decorate_markers;
use template_markers::selection::{custom_style_affixes, wrap_selection};
use template_markers::session::TaskGuard;
use template_markers::styles::{clamp_selected, filter_styles, partition_styles, StyleKind};

fn fc(s: &str) -> Vec<char> {
    s.chars().collect()
}

fn fs(v: &[char]) -> String {
    v.iter().collect()
}

#[test]
fn decorate_wraps_and_counts() {
    let (out, count) = decorate_markers(&fc("See {{x}}."));
    assert_eq!(fs(&out), "See [{{x}}]{.underline}.");
    assert_eq!(count, 1);
}

#[test]
fn decorate_twice_changes_nothing() {
    let (once, c1) = decorate_markers(&fc("See {{x}}."));
    assert_eq!(c1, 1);
    let (twice, c2) = decorate_markers(&once);
    assert_eq!(fs(&twice), fs(&once));
    assert_eq!(c2, 0);
}

#[test]
fn decorate_leaves_decorated_span_alone() {
    let (out, count) = decorate_markers(&fc("a [{{x}}]{.underline} b"));
    assert_eq!(fs(&out), "a [{{x}}]{.underline} b");
    assert_eq!(count, 0);
}

#[test]
fn decorate_needs_both_bracket_and_annotation() {
    let (out, count) = decorate_markers(&fc("[{{x}} and {{y}}]{.underline}"));
    assert_eq!(fs(&out), "[[{{x}}]{.underline} and [{{y}}]{.underline}]{.underline}");
    assert_eq!(count, 2);
}

#[test]
fn decorate_accepts_empty_body_and_stray_brace() {
    let (out, count) = decorate_markers(&fc("{{}} {{a}b}}"));
    assert_eq!(fs(&out), "[{{}}]{.underline} [{{a}b}}]{.underline}");
    assert_eq!(count, 2);
}

#[test]
fn decorate_does_not_cross_newlines() {
    let (out, count) = decorate_markers(&fc("{{a\nb}}"));
    assert_eq!(fs(&out), "{{a\nb}}");
    assert_eq!(count, 0);
}

#[test]
fn decorate_multiple_markers_counts_each() {
    let (out, count) = decorate_markers(&fc("{{a}} {{b}} [{{c}}]{.underline}"));
    assert_eq!(fs(&out), "[{{a}}]{.underline} [{{b}}]{.underline} [{{c}}]{.underline}");
    assert_eq!(count, 2);
}

#[test]
fn decorate_empty_and_plain_buffers() {
    let (out, count) = decorate_markers(&fc(""));
    assert_eq!(fs(&out), "");
    assert_eq!(count, 0);
    let (out2, count2) = decorate_markers(&fc("no markers here"));
    assert_eq!(fs(&out2), "no markers here");
    assert_eq!(count2, 0);
}

#[test]
fn wrap_selection_whole_buffer() {
    let buf = fc("all");
    let (out, cursor) = wrap_selection(&buf, 0, 3, &fc("{{"), &fc("}}")).unwrap();
    assert_eq!(fs(&out), "{{all}}");
    assert_eq!(cursor, 7);
}

#[test]
fn wrap_selection_bold_example() {
    let buf = fc("abcdef");
    let r = wrap_selection(&buf, 1, 4, &fc("**"), &fc("**"));
    let (out, cursor) = r.unwrap();
    assert_eq!(fs(&out), "a**bcd**ef");
    // the cursor lands after the inserted suffix: 1 + len("**bcd**")
    assert_eq!(cursor, 8);
}

#[test]
fn wrap_selection_order_does_not_matter() {
    let buf = fc("abcdef");
    let r = wrap_selection(&buf, 4, 1, &fc("*"), &fc("*"));
    let (out, cursor) = r.unwrap();
    assert_eq!(fs(&out), "a*bcd*ef");
    assert_eq!(cursor, 6);
}

#[test]
fn wrap_selection_zero_width_is_noop() {
    let buf = fc("abcdef");
    assert!(wrap_selection(&buf, 3, 3, &fc("**"), &fc("**")).is_none());
}

#[test]
fn wrap_selection_counts_characters_not_bytes() {
    let buf = fc("αβγδε");
    let r = wrap_selection(&buf, 1, 3, &fc("["), &fc("]{.underline}"));
    let (out, cursor) = r.unwrap();
    assert_eq!(fs(&out), "α[βγ]{.underline}δε");
    assert_eq!(cursor, 1 + 1 + 2 + 13);
}

#[test]
fn wrap_selection_custom_style_block() {
    let buf = fc("text");
    let (prefix, suffix) = custom_style_affixes(&fc("X"), true);
    let r = wrap_selection(&buf, 0, 4, &prefix, &suffix);
    let (out, _) = r.unwrap();
    assert_eq!(fs(&out), "::: {custom-style=\"X\"}\ntext\n:::");
}

#[test]
fn wrap_selection_custom_style_inline() {
    let buf = fc("a word here");
    let (prefix, suffix) = custom_style_affixes(&fc("Fancy"), false);
    let r = wrap_selection(&buf, 2, 6, &prefix, &suffix);
    let (out, _) = r.unwrap();
    assert_eq!(fs(&out), "a [word]{custom-style=\"Fancy\"} here");
}

#[test]
fn partition_drops_defaults_and_sorts() {
    let styles: Vec<(Vec<char>, StyleKind)> = vec![
        (fc("Zeta"), StyleKind::Paragraph),
        (fc("Normal"), StyleKind::Paragraph),
        (fc("Alpha"), StyleKind::Paragraph),
        (fc(""), StyleKind::Paragraph),
        (fc("Strong"), StyleKind::Character),
        (fc("Mark"), StyleKind::Character),
        (fc("Numbered"), StyleKind::Other),
    ];
    let (paras, chars) = partition_styles(&styles);
    let p: Vec<String> = paras.iter().map(|s| fs(s)).collect();
    let c: Vec<String> = chars.iter().map(|s| fs(s)).collect();
    assert_eq!(p, vec!["Alpha".to_string(), "Zeta".to_string()]);
    assert_eq!(c, vec!["Mark".to_string()]);
}

#[test]
fn partition_keeps_duplicate_identifiers() {
    let styles: Vec<(Vec<char>, StyleKind)> = vec![
        (fc("Zeta"), StyleKind::Paragraph),
        (fc("Alpha"), StyleKind::Paragraph),
        (fc("Zeta"), StyleKind::Paragraph),
        (fc("Mark"), StyleKind::Character),
        (fc("Mark"), StyleKind::Character),
    ];
    let (paras, chars) = partition_styles(&styles);
    let p: Vec<String> = paras.iter().map(|s| fs(s)).collect();
    let c: Vec<String> = chars.iter().map(|s| fs(s)).collect();
    assert_eq!(p, vec!["Alpha".to_string(), "Zeta".to_string(), "Zeta".to_string()]);
    assert_eq!(c, vec!["Mark".to_string(), "Mark".to_string()]);
}

#[test]
fn filter_is_case_insensitive() {
    let paras = vec![fc("QuoteFancy"), fc("Plain")];
    let chars = vec![fc("MARKED")];
    let rows = filter_styles(&paras, &chars, &fc("quotefancy"));
    assert_eq!(rows.len(), 1);
    assert_eq!(fs(&rows[0].0), "QuoteFancy");
    assert!(rows[0].1);
    let rows2 = filter_styles(&paras, &chars, &fc("marked"));
    assert_eq!(rows2.len(), 1);
    assert_eq!(fs(&rows2[0].0), "MARKED");
    assert!(!rows2[0].1);
}

#[test]
fn filter_empty_search_keeps_paragraphs_first() {
    let paras = vec![fc("P1"), fc("P2")];
    let chars = vec![fc("C1")];
    let rows = filter_styles(&paras, &chars, &fc(""));
    let names: Vec<String> = rows.iter().map(|r| fs(&r.0)).collect();
    assert_eq!(names, vec!["P1".to_string(), "P2".to_string(), "C1".to_string()]);
    assert_eq!(rows[0].1, true);
    assert_eq!(rows[2].1, false);
}

#[test]
fn filter_matches_non_ascii_case() {
    let paras = vec![fc("ÄHNLICH")];
    let rows = filter_styles(&paras, &Vec::new(), &fc("ähnlich"));
    assert_eq!(rows.len(), 1);
}

#[test]
fn clamp_selected_stays_in_range() {
    assert_eq!(clamp_selected(5, 0), 0);
    assert_eq!(clamp_selected(1, 3), 1);
    assert_eq!(clamp_selected(9, 3), 2);
}

#[test]
fn guard_rejects_second_task() {
    let mut g = TaskGuard::new();
    assert!(g.try_begin_conversion());
    assert!(!g.try_begin_conversion());
    assert!(!g.try_begin_import());
    let r = g.poll_conversion(Some(Ok(fc("done"))));
    assert_eq!(fs(&r.unwrap().unwrap()), "done");
    assert!(g.try_begin_conversion());
}

#[test]
fn guard_import_success_replaces_buffer() {
    let mut g = TaskGuard::new();
    let mut buf = fc("old");
    assert!(g.try_begin_import());
    assert!(g.poll_import(&mut buf, None).is_none());
    let err = g.poll_import(&mut buf, Some(Ok(fc("new text"))));
    assert!(err.is_none());
    assert_eq!(fs(&buf), "new text");
    assert!(g.try_begin_import());
}

#[test]
fn guard_import_failure_keeps_buffer() {
    let mut g = TaskGuard::new();
    let mut buf = fc("kept");
    assert!(g.try_begin_import());
    let err = g.poll_import(&mut buf, Some(Err(fc("boom"))));
    assert_eq!(fs(&err.unwrap()), "boom");
    assert_eq!(fs(&buf), "kept");
}

#[test]
fn guard_result_without_pending_task_is_ignored() {
    let mut g = TaskGuard::new();
    let mut buf = fc("b");
    assert!(g.poll_conversion(Some(Ok(fc("x")))).is_none());
    assert!(g.poll_import(&mut buf, Some(Ok(fc("x")))).is_none());
    assert_eq!(fs(&buf), "b");
}
