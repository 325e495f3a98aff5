use codesnip::{LinkedSnippet, SnippetMap};

fn snippet(contents: &str, deps: &[&str]) -> LinkedSnippet {
    let mut l = LinkedSnippet::new();
    l.push_contents(contents);
    for d in deps {
        l.push_include(d.to_string());
    }
    l
}

fn map_of(entries: &[(&str, &str, &[&str])]) -> SnippetMap {
    let mut m = SnippetMap::new();
    for (name, contents, deps) in entries {
        m.merge_entry(name.to_string(), snippet(contents, deps));
    }
    m
}

fn bundle(m: &SnippetMap, name: &str, excludes: &[&str], guard: bool) -> String {
    let link = m.get(name).unwrap();
    m.bundle(name, link, excludes.iter().map(|s| s.to_string()).collect(), guard)
}

#[test]
fn bundle_without_deps_is_own_contents() {
    let m = map_of(&[("a", "fn a() {}", &[]), ("b", "fn b() {}", &[])]);
    assert_eq!(bundle(&m, "a", &[], false), "fn a() {}");
}

#[test]
fn bundle_cycle_holds_each_once() {
    let m = map_of(&[("a", "A;", &["b"]), ("b", "B;", &["a"])]);
    assert_eq!(bundle(&m, "a", &[], false), "A;B;");
    assert_eq!(bundle(&m, "b", &[], false), "B;A;");
}

#[test]
fn bundle_self_cycle_holds_own_text_once() {
    let m = map_of(&[("a", "A;", &["a"])]);
    assert_eq!(bundle(&m, "a", &[], false), "A;");
}

#[test]
fn bundle_diamond_holds_shared_dependency_once() {
    let m = map_of(&[
        ("a", "A;", &["b", "c"]),
        ("b", "B;", &["d"]),
        ("c", "C;", &["d"]),
        ("d", "D;", &[]),
    ]);
    let out = bundle(&m, "a", &[], false);
    assert_eq!(out, "A;B;C;D;");
    assert_eq!(out.matches("D;").count(), 1);
    assert_eq!(out.matches("B;").count(), 1);
    assert_eq!(out.matches("C;").count(), 1);
}

#[test]
fn bundle_of_excluded_name_is_empty() {
    let m = map_of(&[("a", "A;", &["b"]), ("b", "B;", &[])]);
    assert_eq!(bundle(&m, "a", &["a"], false), "");
    assert_eq!(bundle(&m, "a", &["a"], true), "");
}

#[test]
fn bundle_leaves_out_excluded_dependency() {
    let m = map_of(&[("a", "A;", &["b", "c"]), ("b", "B;", &[]), ("c", "C;", &[])]);
    assert_eq!(bundle(&m, "a", &["b"], false), "A;C;");
}

#[test]
fn bundle_does_not_expand_excluded_direct_dependency() {
    let m = map_of(&[("a", "A;", &["b"]), ("b", "B;", &["c"]), ("c", "C;", &[])]);
    assert_eq!(bundle(&m, "a", &["b"], false), "A;");
}

#[test]
fn bundle_does_not_expand_its_own_name() {
    let m = map_of(&[("a", "A;", &["b"]), ("b", "B;", &[])]);
    let link = snippet("l", &["a"]);
    assert_eq!(m.bundle("a", &link, vec![], false), "l");
}

#[test]
fn bundle_gives_missing_dependency_no_guard_line() {
    let m = map_of(&[("a", "A;", &["zz"])]);
    assert_eq!(bundle(&m, "a", &[], true), "// codesnip-guard: a\nA;");
}

#[test]
fn bundle_units_come_in_ascending_order() {
    let m = map_of(&[("a", "A;", &["z", "c", "m"]), ("z", "Z;", &[]), ("m", "M;", &[]), ("c", "C;", &[])]);
    assert_eq!(bundle(&m, "a", &[], false), "A;C;M;Z;");
    assert_eq!(bundle(&m, "a", &[], false), bundle(&m, "a", &[], false));
}

#[test]
fn keys_are_sorted_whatever_the_order_of_insertion() {
    let m = map_of(&[("b", "", &[]), ("_h", "", &[]), ("a", "", &[])]);
    assert_eq!(m.keys(false), vec!["_h".to_string(), "a".to_string(), "b".to_string()]);
    assert_eq!(m.keys(true), vec!["a".to_string(), "b".to_string()]);
    assert_eq!(m.list_text(false), "_h a b");
}

#[test]
fn bundle_stops_at_excluded_deeper_dependency() {
    let m = map_of(&[
        ("a", "A;", &["b"]),
        ("b", "B;", &["c"]),
        ("c", "C;", &["d"]),
        ("d", "D;", &[]),
    ]);
    assert_eq!(bundle(&m, "a", &["c"], false), "A;B;");
}

#[test]
fn bundle_passes_over_unknown_dependency() {
    let m = map_of(&[("a", "A;", &["missing"])]);
    assert_eq!(bundle(&m, "a", &[], false), "A;");
}

#[test]
fn bundle_with_guard_comments() {
    let m = map_of(&[("a", "fn a() {}", &["b"]), ("b", "fn b() {}\n", &[])]);
    assert_eq!(
        bundle(&m, "a", &[], true),
        "// codesnip-guard: a\nfn a() {}\n// codesnip-guard: b\nfn b() {}\n"
    );
}

#[test]
fn bundle_named_reports_unknown_name() {
    let m = map_of(&[("a", "A;", &[])]);
    assert_eq!(m.bundle_named("zz", vec![]), None);
    assert_eq!(
        m.bundle_named("a", vec![]),
        Some("// codesnip-guard: a\nA;".to_string())
    );
}

#[test]
fn keys_hide_underscore_names() {
    let m = map_of(&[("_hidden", "", &[]), ("shown", "", &[]), ("x_y", "", &[])]);
    assert_eq!(m.keys(true), vec!["shown".to_string(), "x_y".to_string()]);
    assert_eq!(m.keys(false).len(), 3);
    assert_eq!(m.list_text(true), "shown x_y");
    assert_eq!(m.list_text(false), "_hidden shown x_y");
}

#[test]
fn list_text_of_empty_map_is_empty() {
    let m = SnippetMap::new();
    assert_eq!(m.list_text(false), "");
    assert!(m.keys(false).is_empty());
}

#[test]
fn merge_appends_text_and_unites_dependencies() {
    let mut m = map_of(&[("a", "X;", &["b"])]);
    m.merge_entry("a".to_string(), snippet("Y;", &["c", "b"]));
    let a = m.get("a").unwrap();
    assert_eq!(a.contents, "X;Y;");
    let mut deps = a.includes.clone();
    deps.sort();
    assert_eq!(deps, vec!["b".to_string(), "c".to_string()]);
    assert_eq!(m.map.len(), 1);
}

#[test]
fn extend_merges_two_maps() {
    let mut m = map_of(&[("a", "A1;", &[]), ("b", "B;", &[])]);
    let other = map_of(&[("a", "A2;", &["z"]), ("c", "C;", &[])]);
    m.extend(other);
    assert_eq!(m.get("a").unwrap().contents, "A1;A2;");
    assert_eq!(m.get("a").unwrap().includes, vec!["z".to_string()]);
    assert_eq!(m.get("c").unwrap().contents, "C;");
    assert_eq!(m.map.len(), 3);
}

#[test]
fn push_include_keeps_names_once() {
    let mut l = LinkedSnippet::new();
    l.push_include("x".to_string());
    l.push_include("x".to_string());
    l.push_includes(vec!["y".to_string(), "x".to_string()]);
    assert_eq!(l.includes, vec!["x".to_string(), "y".to_string()]);
}

#[test]
fn append_joins_snippets() {
    let mut l = snippet("a", &["p"]);
    l.append(snippet("b", &["q"]));
    assert_eq!(l.contents, "ab");
    assert_eq!(l.includes, vec!["p".to_string(), "q".to_string()]);
}

#[test]
fn with_prefix_renames_every_entry() {
    let m = map_of(&[("a", "A;", &[]), ("b", "B;", &[])]);
    let p = m.with_prefix("lib");
    assert_eq!(p.keys(false), vec!["lib_a".to_string(), "lib_b".to_string()]);
    assert_eq!(p.get("lib_b").unwrap().contents, "B;");
}

#[test]
fn format_replaces_text_only_on_success() {
    let mut l = snippet("old", &["d"]);
    assert!(!l.format(None));
    assert_eq!(l.contents, "old");
    assert!(l.format(Some("new".to_string())));
    assert_eq!(l.contents, "new");
    assert_eq!(l.includes, vec!["d".to_string()]);
}

#[test]
fn entries_round_trip_to_the_same_map() {
    let m = map_of(&[("a", "A;", &["b", "c"]), ("b", "B;", &[]), ("_c", "", &["a"])]);
    let back = SnippetMap::from_entries(m.to_entries());
    assert_eq!(back.keys(false), m.keys(false));
    for name in m.keys(false) {
        let x = m.get(&name).unwrap();
        let y = back.get(&name).unwrap();
        assert_eq!(x.contents, y.contents);
        assert_eq!(x.includes, y.includes);
    }
}

#[test]
fn entries_in_another_order_give_the_same_snippets() {
    let rows = vec![
        ("b".to_string(), "B;".to_string(), vec![]),
        ("a".to_string(), "A;".to_string(), vec!["b".to_string()]),
    ];
    let m = SnippetMap::from_entries(rows);
    assert_eq!(bundle(&m, "a", &[], false), "A;B;");
    assert_eq!(m.to_entries().len(), 2);
}
