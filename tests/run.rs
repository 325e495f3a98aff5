use codesnip::check::{run_passed, UnitResult};
use codesnip::format::{minify, FormatOption};
use codesnip::source::{GitDependency, GitHubSource};
use codesnip::{LinkedSnippet, SnippetMap, VsCode};

fn snippet(contents: &str, deps: &[&str]) -> LinkedSnippet {
    let mut l = LinkedSnippet::new();
    l.push_contents(contents);
    for d in deps {
        l.push_include(d.to_string());
    }
    l
}

fn map_of(entries: &[(&str, &str, &[&str])]) -> SnippetMap {
    let mut m = SnippetMap::new();
    for (name, contents, deps) in entries {
        m.merge_entry(name.to_string(), snippet(contents, deps));
    }
    m
}

fn result(missing: usize, compiled: bool) -> UnitResult {
    UnitResult { missing, compiled }
}

#[test]
fn unknown_dependency_warns_and_fails_the_run() {
    let m = map_of(&[("a", "A;", &["ghost"]), ("b", "B;", &[])]);
    let unit = m.check_unit(0);
    assert_eq!(unit.name, "a");
    assert_eq!(unit.missing, vec!["ghost".to_string()]);
    assert_eq!(unit.contents, "A;");
    let results = vec![result(unit.missing.len(), true), result(0, true)];
    assert!(!run_passed(&results));
}

#[test]
fn check_unit_bundles_without_guards() {
    let m = map_of(&[("a", "A;", &["b"]), ("b", "B;", &[])]);
    let unit = m.check_unit(0);
    assert!(unit.missing.is_empty());
    assert_eq!(unit.contents, "A;B;");
}

#[test]
fn run_passes_only_when_every_unit_does() {
    assert!(run_passed(&vec![]));
    assert!(run_passed(&vec![result(0, true), result(0, true)]));
    assert!(!run_passed(&vec![result(0, true), result(0, false)]));
    assert!(!run_passed(&vec![result(1, true)]));
}

#[test]
fn run_verdict_ignores_completion_order() {
    let a = vec![result(0, true), result(0, false), result(0, true)];
    let b = vec![result(0, false), result(0, true), result(0, true)];
    let c = vec![result(0, true), result(0, true), result(0, false)];
    assert_eq!(run_passed(&a), run_passed(&b));
    assert_eq!(run_passed(&b), run_passed(&c));
}

#[test]
fn format_option_from_str() {
    assert_eq!(FormatOption::from_str("rustfmt"), Ok(FormatOption::Rustfmt));
    assert_eq!(FormatOption::from_str("minify"), Ok(FormatOption::Minify));
    assert_eq!(
        FormatOption::from_str("pretty"),
        Err("expected one of [rustfmt|minify]".to_string())
    );
}

#[test]
fn minify_strips_spacing() {
    let out = minify("fn  main ( ) { }").unwrap();
    assert_ne!(out, "fn  main ( ) { }");
    assert!(out.contains("fn main(){}"));
}

#[test]
fn apply_formats_keeps_text_that_failed() {
    let mut m = map_of(&[("a", "A", &[]), ("b", "B", &[])]);
    let failed = m.apply_formats(vec![Some("A2".to_string()), None]);
    assert_eq!(failed, vec!["b".to_string()]);
    assert_eq!(m.get("a").unwrap().contents, "A2");
    assert_eq!(m.get("b").unwrap().contents, "B");
}

#[test]
fn vscode_record_escapes_dollars() {
    let v = VsCode::new("p".to_string(), "let $x = \"$\";");
    assert_eq!(v.prefix, "p");
    assert_eq!(v.body, "let \\$x = \"\\$\";");
    assert_eq!(v.scope, "rust");
}

#[test]
fn vscode_records_skip_hidden_and_bundle() {
    let m = map_of(&[("a", "A$;", &["_h"]), ("_h", "H;", &[])]);
    let recs = m.to_vscode(false);
    assert_eq!(recs.len(), 1);
    assert_eq!(recs[0].0, "a");
    assert_eq!(recs[0].1.body, "A\\$;H;");
    let plain = m.to_vscode(true);
    assert_eq!(plain[0].1.body, "A\\$;");
}

#[test]
fn fetch_plan_for_each_revision_kind() {
    let s = |d: Option<GitDependency>| GitHubSource { url: "u".to_string(), dependency: d };
    let p = s(Some(GitDependency::Tag("v1".to_string()))).fetch_plan();
    assert!(p.all_tags && !p.shallow);
    assert_eq!(p.checkout, Some("refs/tags/v1".to_string()));
    let p = s(Some(GitDependency::Branch("dev".to_string()))).fetch_plan();
    assert!(!p.all_tags && p.shallow);
    assert_eq!(p.branch, Some("dev".to_string()));
    assert_eq!(p.checkout, None);
    let p = s(Some(GitDependency::Rev("abc".to_string()))).fetch_plan();
    assert!(!p.shallow);
    assert_eq!(p.checkout, Some("abc".to_string()));
    let p = s(None).fetch_plan();
    assert!(p.shallow && p.branch.is_none() && p.checkout.is_none());
}

#[test]
fn minify_reports_failure_on_unbalanced_text() {
    assert_eq!(minify("fn main( {"), None);
}
