use codesnip::cfg::CfgSet;
use codesnip::paths::{join_path, parent_dir};
use codesnip::syntax::{Attr, Item, ItemKind, Lit, Meta, MetaKind};
use codesnip::{parse_file_recursive, Error, FileStore, Probe, Resolution, SourceFile};

fn decl(name: &str, body: &str) -> Item {
    Item { attrs: vec![], kind: ItemKind::Other { name: Some(name.to_string()), body: body.to_string() } }
}

fn file_mod(name: &str, attrs: Vec<Attr>) -> Item {
    Item {
        attrs,
        kind: ItemKind::Mod { head: format!("mod {} ", name), ident: name.to_string(), content: None },
    }
}

fn path_attr(p: &str) -> Attr {
    Attr {
        outer: true,
        meta: Meta {
            path: vec!["path".to_string()],
            kind: MetaKind::NameValue(Lit::Str(p.to_string())),
            text: format!("path = {:?}", p),
        },
    }
}

fn cfg_attr_of(atom: &str) -> Attr {
    let inner = Meta { path: vec![atom.to_string()], kind: MetaKind::Word, text: atom.to_string() };
    Attr {
        outer: true,
        meta: Meta {
            path: vec!["cfg".to_string()],
            kind: MetaKind::List(Some(vec![inner])),
            text: format!("cfg({})", atom),
        },
    }
}

fn parsed(items: Vec<Item>) -> Probe {
    Probe::Parsed(SourceFile { attrs: vec![], items })
}

fn no_cfg() -> CfgSet {
    CfgSet { enabled: vec![], disabled: vec![] }
}

fn store(files: Vec<(&str, Probe)>) -> FileStore {
    FileStore { files: files.into_iter().map(|(p, f)| (p.to_string(), f)).collect() }
}

fn resolve(files: Vec<(&str, Probe)>) -> Resolution {
    parse_file_recursive(&"src/lib.rs".to_string(), store(files), &no_cfg())
}

fn inner_items(it: &Item) -> &Vec<Item> {
    match &it.kind {
        ItemKind::Mod { content: Some(c), .. } => c,
        _ => panic!("not an inline module"),
    }
}

#[test]
fn unprobed_root_is_asked_for() {
    match resolve(vec![]) {
        Resolution::Unprobed(p) => assert_eq!(p, "src/lib.rs"),
        _ => panic!("expected a request"),
    }
}

#[test]
fn unprobed_module_file_is_asked_for() {
    match resolve(vec![("src/lib.rs", parsed(vec![file_mod("a", vec![])]))]) {
        Resolution::Unprobed(p) => assert_eq!(p, "src/a.rs"),
        _ => panic!("expected a request"),
    }
}

#[test]
fn module_file_by_name_is_inlined() {
    let r = resolve(vec![
        ("src/lib.rs", parsed(vec![file_mod("a", vec![])])),
        ("src/a.rs", parsed(vec![decl("f", "fn f() {}"), file_mod("b", vec![])])),
        ("src/a/b.rs", parsed(vec![decl("g", "fn g() {}")])),
    ]);
    match r {
        Resolution::Done(f) => {
            assert_eq!(f.items.len(), 1);
            let a = inner_items(&f.items[0]);
            assert_eq!(a.len(), 2);
            let b = inner_items(&a[1]);
            assert_eq!(b.len(), 1);
        },
        _ => panic!("expected a tree"),
    }
}

#[test]
fn module_file_by_mod_rs_is_inlined() {
    let r = resolve(vec![
        ("src/lib.rs", parsed(vec![file_mod("a", vec![])])),
        ("src/a.rs", Probe::Missing),
        ("src/a/mod.rs", parsed(vec![decl("f", "fn f() {}")])),
    ]);
    match r {
        Resolution::Done(f) => assert_eq!(inner_items(&f.items[0]).len(), 1),
        _ => panic!("expected a tree"),
    }
}

#[test]
fn module_file_by_path_attribute() {
    let r = resolve(vec![
        ("src/lib.rs", parsed(vec![file_mod("a", vec![path_attr("other/x.rs")])])),
        ("src/other/x.rs", parsed(vec![decl("f", "fn f() {}")])),
    ]);
    match r {
        Resolution::Done(f) => assert_eq!(inner_items(&f.items[0]).len(), 1),
        _ => panic!("expected a tree"),
    }
}

#[test]
fn module_without_file_is_not_found() {
    let r = resolve(vec![
        ("src/lib.rs", parsed(vec![file_mod("a", vec![])])),
        ("src/a.rs", Probe::Missing),
        ("src/a/mod.rs", Probe::Missing),
    ]);
    match r {
        Resolution::Failed(Error::ModuleNotFound(n, p)) => {
            assert_eq!(n, "a");
            assert_eq!(p, "src/a.rs");
        },
        _ => panic!("expected ModuleNotFound"),
    }
}

#[test]
fn missing_root_is_file_not_found() {
    match resolve(vec![("src/lib.rs", Probe::Missing)]) {
        Resolution::Failed(Error::FileNotFound(p, _)) => assert_eq!(p, "src/lib.rs"),
        _ => panic!("expected FileNotFound"),
    }
}

#[test]
fn unopenable_module_file_is_file_not_found() {
    let r = resolve(vec![
        ("src/lib.rs", parsed(vec![file_mod("a", vec![])])),
        ("src/a.rs", Probe::OpenFailed("denied".to_string())),
    ]);
    match r {
        Resolution::Failed(Error::FileNotFound(p, why)) => {
            assert_eq!(p, "src/a.rs");
            assert_eq!(why, "denied");
        },
        _ => panic!("expected FileNotFound"),
    }
}

#[test]
fn unparsable_module_file_is_parse_error() {
    let r = resolve(vec![
        ("src/lib.rs", parsed(vec![file_mod("a", vec![])])),
        ("src/a.rs", Probe::ParseFailed("expected item".to_string())),
    ]);
    match r {
        Resolution::Failed(Error::ParseFile(p, e)) => {
            assert_eq!(p, "src/a.rs");
            assert_eq!(e, "expected item");
        },
        _ => panic!("expected ParseFile"),
    }
}

#[test]
fn unreadable_file_is_io_error() {
    match resolve(vec![("src/lib.rs", Probe::ReadFailed("broken".to_string()))]) {
        Resolution::Failed(Error::IoError(e)) => assert_eq!(e, "broken"),
        _ => panic!("expected IoError"),
    }
}

#[test]
fn module_that_holds_itself_is_circular() {
    let r = resolve(vec![
        ("src/lib.rs", parsed(vec![file_mod("a", vec![])])),
        ("src/a.rs", parsed(vec![file_mod("a", vec![path_attr("a.rs")])])),
    ]);
    match r {
        Resolution::Failed(Error::CircularModule(p)) => assert_eq!(p, "src/a.rs"),
        _ => panic!("expected CircularModule"),
    }
}

#[test]
fn module_removed_by_cfg_needs_no_file() {
    let cfg = CfgSet { enabled: vec![], disabled: vec!["off".to_string()] };
    let st = store(vec![("src/lib.rs", parsed(vec![file_mod("a", vec![cfg_attr_of("off")])]))]);
    match parse_file_recursive(&"src/lib.rs".to_string(), st, &cfg) {
        Resolution::Done(f) => assert!(matches!(f.items[0].kind, ItemKind::Removed)),
        _ => panic!("expected a tree"),
    }
}

#[test]
fn same_file_twice_needs_two_copies() {
    let first = resolve(vec![
        ("src/lib.rs", parsed(vec![file_mod("a", vec![path_attr("x.rs")]), file_mod("b", vec![path_attr("x.rs")])])),
        ("src/x.rs", parsed(vec![decl("f", "fn f() {}")])),
    ]);
    match first {
        Resolution::Unprobed(p) => assert_eq!(p, "src/x.rs"),
        _ => panic!("expected a request for another copy"),
    }
    let second = resolve(vec![
        ("src/lib.rs", parsed(vec![file_mod("a", vec![path_attr("x.rs")]), file_mod("b", vec![path_attr("x.rs")])])),
        ("src/x.rs", parsed(vec![decl("f", "fn f() {}")])),
        ("src/x.rs", parsed(vec![decl("f", "fn f() {}")])),
    ]);
    assert!(matches!(second, Resolution::Done(_)));
}

#[test]
fn path_helpers() {
    assert_eq!(parent_dir(&"a/b/c.rs".to_string()), "a/b");
    assert_eq!(parent_dir(&"c.rs".to_string()), "");
    assert_eq!(parent_dir(&"/c.rs".to_string()), "/");
    assert_eq!(join_path(&"a/b".to_string(), "c"), "a/b/c");
    assert_eq!(join_path(&"a/".to_string(), "c"), "a/c");
    assert_eq!(join_path(&"a".to_string(), "/abs"), "/abs");
    assert_eq!(join_path(&"".to_string(), "c"), "c");
}

#[test]
fn test_parse() {
    let r = resolve(vec![
        ("src/lib.rs", parsed(vec![file_mod("a", vec![path_attr("other/a_file.rs")]), file_mod("b", vec![])])),
        ("src/other/a_file.rs", parsed(vec![decl("f", "fn f() {}")])),
        ("src/b.rs", Probe::Missing),
        ("src/b/mod.rs", parsed(vec![file_mod("c", vec![])])),
        ("src/b/c.rs", parsed(vec![decl("g", "fn g() {}")])),
    ]);
    match r {
        Resolution::Done(f) => {
            assert_eq!(f.items.len(), 2);
            assert_eq!(inner_items(&f.items[0]).len(), 1);
            let b = inner_items(&f.items[1]);
            assert_eq!(b.len(), 1);
            assert_eq!(inner_items(&b[0]).len(), 1);
        },
        _ => panic!("expected a tree"),
    }
}
