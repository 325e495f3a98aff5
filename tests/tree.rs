use codesnip::cfg::{cfg_condition, prune_item, CfgSet, Truth};
use codesnip::filter::Filter;
use codesnip::syntax::{render, Attr, Item, ItemKind, Lit, Meta, MetaKind};
use codesnip::SnippetMap;

fn path(p: &str) -> Vec<String> {
    p.split("::").map(|s| s.to_string()).collect()
}

fn word(p: &str) -> Meta {
    Meta { path: path(p), kind: MetaKind::Word, text: p.to_string() }
}

fn list(p: &str, args: Vec<Meta>) -> Meta {
    let inner: Vec<String> = args.iter().map(|a| a.text.clone()).collect();
    let text = format!("{}({})", p, inner.join(", "));
    Meta { path: path(p), kind: MetaKind::List(Some(args)), text }
}

fn string(s: &str) -> Meta {
    Meta { path: vec![], kind: MetaKind::Lit(Lit::Str(s.to_string())), text: format!("{:?}", s) }
}

fn outer(m: Meta) -> Attr {
    Attr { outer: true, meta: m }
}

fn decl(name: &str, body: &str, attrs: Vec<Attr>) -> Item {
    Item { attrs, kind: ItemKind::Other { name: Some(name.to_string()), body: body.to_string() } }
}

fn module(name: &str, attrs: Vec<Attr>, content: Vec<Item>) -> Item {
    Item {
        attrs,
        kind: ItemKind::Mod {
            head: format!("mod {} ", name),
            ident: name.to_string(),
            content: Some(content),
        },
    }
}

fn enabled(names: &[&str]) -> CfgSet {
    CfgSet { enabled: names.iter().map(|s| s.to_string()).collect(), disabled: vec![] }
}

fn no_filter() -> Filter {
    Filter::new(vec![], vec![])
}

#[test]
fn cfg_enabled_atom_keeps_declaration_and_drops_gate() {
    let cfg = enabled(&["x"]);
    let it = prune_item(&cfg, decl("f", "fn f() {}", vec![outer(list("cfg", vec![word("x")]))]));
    assert!(matches!(it.kind, ItemKind::Other { .. }));
    assert!(it.attrs.is_empty());
}

#[test]
fn cfg_negated_enabled_atom_removes_declaration() {
    let cfg = enabled(&["x"]);
    let it = prune_item(
        &cfg,
        decl("f", "fn f() {}", vec![outer(list("cfg", vec![list("not", vec![word("x")])]))]),
    );
    assert!(matches!(it.kind, ItemKind::Removed));
}

#[test]
fn cfg_unlisted_atom_keeps_declaration_with_gate() {
    let cfg = enabled(&["x"]);
    let it = prune_item(&cfg, decl("f", "fn f() {}", vec![outer(list("cfg", vec![word("y")]))]));
    assert!(matches!(it.kind, ItemKind::Other { .. }));
    assert_eq!(it.attrs.len(), 1);
    assert_eq!(it.attrs[0].meta.text, "cfg(y)");
}

#[test]
fn cfg_disabled_atom_is_false() {
    let cfg = CfgSet { enabled: vec![], disabled: vec!["x".to_string()] };
    assert_eq!(cfg_condition(&cfg, &word("x")), Truth::False);
    assert_eq!(cfg_condition(&cfg, &list("not", vec![word("x")])), Truth::True);
}

#[test]
fn cfg_connectives_in_three_values() {
    let cfg = CfgSet { enabled: vec!["a".to_string()], disabled: vec!["b".to_string()] };
    assert_eq!(cfg_condition(&cfg, &list("all", vec![word("a"), word("u")])), Truth::Unknown);
    assert_eq!(cfg_condition(&cfg, &list("all", vec![word("b"), word("u")])), Truth::False);
    assert_eq!(cfg_condition(&cfg, &list("any", vec![word("a"), word("u")])), Truth::True);
    assert_eq!(cfg_condition(&cfg, &list("any", vec![word("b"), word("u")])), Truth::Unknown);
    assert_eq!(cfg_condition(&cfg, &list("any", vec![])), Truth::False);
    assert_eq!(cfg_condition(&cfg, &list("all", vec![])), Truth::True);
    assert_eq!(cfg_condition(&cfg, &list("not", vec![word("u")])), Truth::Unknown);
    assert_eq!(cfg_condition(&cfg, &list("not", vec![word("a"), word("b")])), Truth::Unknown);
}

#[test]
fn cfg_attr_known_true_gives_way_to_its_attributes() {
    let cfg = enabled(&["x"]);
    let a = outer(list("cfg_attr", vec![word("x"), word("inline"), word("cold")]));
    let it = prune_item(&cfg, decl("f", "fn f() {}", vec![a]));
    let texts: Vec<String> = it.attrs.iter().map(|a| a.meta.text.clone()).collect();
    assert_eq!(texts, vec!["inline".to_string(), "cold".to_string()]);
}

#[test]
fn cfg_attr_known_false_is_dropped_and_unknown_kept() {
    let cfg = CfgSet { enabled: vec![], disabled: vec!["x".to_string()] };
    let a = outer(list("cfg_attr", vec![word("x"), word("inline")]));
    let b = outer(list("cfg_attr", vec![word("u"), word("cold")]));
    let it = prune_item(&cfg, decl("f", "fn f() {}", vec![a, b]));
    assert_eq!(it.attrs.len(), 1);
    assert_eq!(it.attrs[0].meta.text, "cfg_attr(u, cold)");
}

#[test]
fn render_writes_attributes_and_module_body() {
    let m = module("m", vec![outer(word("doc"))], vec![decl("f", "fn f() {}", vec![])]);
    assert_eq!(render(&m), "#[doc] mod m { fn f() {} }");
}

#[test]
fn skipped_declaration_never_reaches_a_snippet() {
    let inner = vec![
        decl("keep", "fn keep() {}", vec![]),
        decl("gone", "fn gone() {}", vec![outer(word("codesnip::skip"))]),
    ];
    let m = module("m", vec![outer(word("codesnip::entry"))], inner);
    let mut map = SnippetMap::new();
    map.extend_with_filter(&m, &no_filter());
    let text = &map.get("m").unwrap().contents;
    assert!(text.contains("fn keep() {}"));
    assert!(!text.contains("gone"));
}

#[test]
fn skipped_entry_declaration_contributes_nothing() {
    let it = decl(
        "f",
        "fn f() {}",
        vec![outer(word("codesnip::entry")), outer(word("codesnip::skip"))],
    );
    let mut map = SnippetMap::new();
    map.extend_with_filter(&it, &no_filter());
    assert_eq!(map.get("f").unwrap().contents, "");
}

#[test]
fn entry_with_name_and_dependencies() {
    let e = list("codesnip::entry", vec![string("lcm"), list("include", vec![string("gcd")])]);
    let it = decl("lcm", "fn lcm() {}", vec![outer(e)]);
    let mut map = SnippetMap::new();
    map.extend_with_filter(&it, &no_filter());
    let l = map.get("lcm").unwrap();
    assert_eq!(l.contents, "fn lcm() {}");
    assert_eq!(l.includes, vec!["gcd".to_string()]);
}

#[test]
fn entry_name_may_be_given_as_name_value() {
    let nv = Meta {
        path: vec!["name".to_string()],
        kind: MetaKind::NameValue(Lit::Str("other".to_string())),
        text: "name = \"other\"".to_string(),
    };
    let it = decl("f", "fn f() {}", vec![outer(list("codesnip::entry", vec![nv]))]);
    let mut map = SnippetMap::new();
    map.extend_with_filter(&it, &no_filter());
    assert_eq!(map.keys(false), vec!["other".to_string()]);
}

#[test]
fn inline_entry_takes_the_module_declarations() {
    let e = list("codesnip::entry", vec![string("all"), word("inline")]);
    let m = module("m", vec![outer(e)], vec![decl("f", "fn f() {}", vec![]), decl("g", "fn g() {}", vec![])]);
    let mut map = SnippetMap::new();
    map.extend_with_filter(&m, &no_filter());
    assert_eq!(map.get("all").unwrap().contents, "fn f() {} fn g() {} ");
}

#[test]
fn nested_entries_are_collected_too() {
    let inner = decl("g", "fn g() {}", vec![outer(word("codesnip::entry"))]);
    let m = module("m", vec![outer(word("codesnip::entry"))], vec![inner]);
    let mut map = SnippetMap::new();
    map.collect_entries(&vec![m], &no_filter());
    assert_eq!(map.keys(false), vec!["g".to_string(), "m".to_string()]);
    assert_eq!(map.get("g").unwrap().contents, "fn g() {}");
}

#[test]
fn entry_without_any_name_is_ignored() {
    let it = Item {
        attrs: vec![outer(word("codesnip::entry"))],
        kind: ItemKind::Other { name: None, body: "impl X {}".to_string() },
    };
    let mut map = SnippetMap::new();
    map.extend_with_filter(&it, &no_filter());
    assert!(map.map.is_empty());
}

#[test]
fn entry_with_unknown_argument_is_ignored() {
    let it = decl("f", "fn f() {}", vec![outer(list("codesnip::entry", vec![word("bogus")]))]);
    let mut map = SnippetMap::new();
    map.extend_with_filter(&it, &no_filter());
    assert!(map.map.is_empty());
}

#[test]
fn same_name_from_two_declarations_concatenates() {
    let e = || outer(list("codesnip::entry", vec![string("both"), list("include", vec![string("x")])]));
    let items = vec![decl("f", "fn f() {}", vec![e()]), decl("g", "fn g() {}", vec![e()])];
    let mut map = SnippetMap::new();
    map.collect_entries(&items, &no_filter());
    let l = map.get("both").unwrap();
    assert_eq!(l.contents, "fn f() {}fn g() {}");
    assert_eq!(l.includes, vec!["x".to_string()]);
}

#[test]
fn filter_patterns_strip_attributes_and_drop_declarations() {
    let f = Filter::new(vec![path("inline")], vec![path("test")]);
    let inner = vec![
        decl("a", "fn a() {}", vec![outer(word("inline"))]),
        decl("t", "fn t() {}", vec![outer(word("test"))]),
    ];
    let m = module("m", vec![outer(word("codesnip::entry"))], inner);
    let mut map = SnippetMap::new();
    map.extend_with_filter(&m, &f);
    assert_eq!(map.get("m").unwrap().contents, "mod m { fn a() {} }");
}

#[test]
fn source_map_prefixes_names() {
    let items = vec![decl("f", "fn f() {}", vec![outer(word("codesnip::entry"))])];
    let m = SnippetMap::from_items(&items, &no_filter(), Some("math"));
    assert_eq!(m.keys(false), vec!["math_f".to_string()]);
    let plain = SnippetMap::from_items(&items, &no_filter(), None);
    assert_eq!(plain.keys(false), vec!["f".to_string()]);
}
