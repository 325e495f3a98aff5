//! Module resolution: a declaration `mod name;` is replaced by a module that holds the
//! declarations of its file, found by a `#[path = ".."]` attribute or by convention
//! (`name.rs`, else `name/mod.rs`), and conditional-compile predicates are applied to
//! every declaration on the way, depth first.
//!
//! Resolution reads no file itself: it works on a store of files already probed, and
//! names the next path to probe when it meets one the store lacks. A caller probes
//! that path, adds what it found, and resolves again.

use crate::cfg::{is_pruned, prune_item, CfgSet};
use crate::map::{contains_name, names};
use crate::paths::{join, join_path, parent_dir, parent_of};
use crate::syntax::{is_word, path_is_word, Attr, Item, ItemKind, Lit, MetaKind};
use vstd::prelude::*;

verus! {

/// The parsed content of a file: its inner attributes and its declarations.
#[derive(Debug)]
pub struct SourceFile {
    pub attrs: Vec<Attr>,
    pub items: Vec<Item>,
}

/// What probing a path found.
#[derive(Debug)]
pub enum Probe {
    /// No file stands there.
    Missing,
    /// A file stands there but could not be opened; the reason.
    OpenFailed(String),
    /// The file was opened but could not be read; the reason.
    ReadFailed(String),
    /// The file was read but is not valid source; the syntax error.
    ParseFailed(String),
    /// The file, parsed.
    Parsed(SourceFile),
}

/// Paths probed so far, each with what was found. A path may stand more than once:
/// each parsed copy serves one module.
#[derive(Debug)]
pub struct FileStore {
    pub files: Vec<(String, Probe)>,
}

/// Why resolution failed.
#[derive(Debug)]
pub enum Error {
    /// A file could not be read.
    IoError(String),
    /// A file is not valid source: its path and the syntax error.
    ParseFile(String, String),
    /// A module has no file under either convention: its name and the path tried.
    ModuleNotFound(String, String),
    /// A file could not be opened: its path and the reason.
    FileNotFound(String, String),
    /// A module's file is, through its own modules, asked to hold itself.
    CircularModule(String),
}

/// Why resolution stopped before it was done.
#[derive(Debug)]
pub enum Stop {
    /// The store lacks what stands at this path: probe it and resolve again.
    Unprobed(String),
    /// Resolution failed.
    Failed(Error),
}

/// The outcome of resolving a root file.
#[derive(Debug)]
pub enum Resolution {
    /// The merged tree: the root file with every module inlined.
    Done(SourceFile),
    /// The store lacks what stands at this path: probe it and resolve again.
    Unprobed(String),
    /// Resolution failed.
    Failed(Error),
}

/// Where a module's files are looked for: the directory of its submodules' files,
/// and the one that `#[path]` attributes are taken from.
#[derive(Debug)]
pub struct Dirs {
    pub mod_dir: String,
    pub cwd: String,
}

/// What the store knows of `path`: `None` when it was never probed, else whether a
/// file stands there.
pub open spec fn known(files: Seq<(String, Probe)>, path: Seq<char>) -> Option<bool>
    decreases files.len(),
{
    if files.len() == 0 {
        None
    } else if files[0].0@ == path {
        Some(!(files[0].1 is Missing))
    } else {
        known(files.drop_first(), path)
    }
}

/// The position of the first entry of the store for `path`; its length when there is none.
pub open spec fn first_at(files: Seq<(String, Probe)>, path: Seq<char>) -> int
    decreases files.len(),
{
    if files.len() == 0 {
        0
    } else if files[0].0@ == path {
        0
    } else {
        1 + first_at(files.drop_first(), path)
    }
}

/// The inner attributes of a parsed file; none for anything else.
pub open spec fn parsed_attrs(p: Probe) -> Seq<Attr> {
    match p {
        Probe::Parsed(f) => f.attrs@,
        _ => Seq::empty(),
    }
}

/// The declarations of a parsed file; none for anything else.
pub open spec fn parsed_items(p: Probe) -> Seq<Item> {
    match p {
        Probe::Parsed(f) => f.items@,
        _ => Seq::empty(),
    }
}

/// The value of a `path = ".."` attribute.
pub open spec fn attr_path_value(a: Attr) -> Option<Seq<char>> {
    if is_word(a.meta.path@, "path"@) {
        match a.meta.kind {
            MetaKind::NameValue(Lit::Str(s)) => Some(s@),
            _ => None,
        }
    } else {
        None
    }
}

/// The value of the first `path = ".."` attribute of `attrs`.
pub open spec fn path_attr(attrs: Seq<Attr>) -> Option<Seq<char>>
    decreases attrs.len(),
{
    if attrs.len() == 0 {
        None
    } else {
        match attr_path_value(attrs[0]) {
            Some(v) => Some(v),
            None => path_attr(attrs.drop_first()),
        }
    }
}

/// Where a module's file was looked for, as values.
pub enum ModFileView {
    /// The file and the directories for the module's own submodules.
    Found(Seq<char>, Seq<char>, Seq<char>),
    /// No file: the module's name and the path tried.
    NotFound(Seq<char>, Seq<char>),
    /// This path must be probed first.
    Unprobed(Seq<char>),
}

/// Where a module's file was looked for.
pub enum ModFile {
    Found(String, Dirs),
    NotFound(String, String),
    Unprobed(String),
}

impl View for ModFile {
    type V = ModFileView;

    open spec fn view(&self) -> ModFileView {
        match self {
            ModFile::Found(p, d) => ModFileView::Found(p@, d.mod_dir@, d.cwd@),
            ModFile::NotFound(n, p) => ModFileView::NotFound(n@, p@),
            ModFile::Unprobed(p) => ModFileView::Unprobed(p@),
        }
    }
}

/// Where the file of the module `name` is, seen from `mod_dir` and `cwd`: with a path
/// attribute, that path from `cwd`; else `name.rs` in `mod_dir`, whose submodules
/// then live in `mod_dir/name`; else `name/mod.rs`, which moves `cwd` to `cwd/name`
/// too. A path the store has not probed is asked for before anything further.
pub open spec fn mod_file(
    files: Seq<(String, Probe)>,
    mod_dir: Seq<char>,
    cwd: Seq<char>,
    name: Seq<char>,
    attr: Option<Seq<char>>,
) -> ModFileView {
    match attr {
        Some(p) => {
            let path = join(cwd, p);
            match known(files, path) {
                None => ModFileView::Unprobed(path),
                Some(false) => ModFileView::NotFound(name, path),
                Some(true) => ModFileView::Found(path, mod_dir, cwd),
            }
        },
        None => {
            let md = join(mod_dir, name);
            let path1 = md + ".rs"@;
            let path2 = join(md, "mod.rs"@);
            match known(files, path1) {
                None => ModFileView::Unprobed(path1),
                Some(true) => ModFileView::Found(path1, md, cwd),
                Some(false) => match known(files, path2) {
                    None => ModFileView::Unprobed(path2),
                    Some(true) => ModFileView::Found(path2, md, join(cwd, name)),
                    Some(false) => ModFileView::NotFound(name, path1),
                },
            }
        },
    }
}

/// The first entry of the store for `path`.
fn probe_index(files: &Vec<(String, Probe)>, path: &String) -> (r: Option<usize>)
    ensures
        r is None <==> known(files@, path@) is None,
        r matches Some(i) ==> i < files@.len() && files@[i as int].0@ == path@ && known(files@, path@) == Some(
            !(files@[i as int].1 is Missing),
        ),
        r matches Some(i) ==> forall|j: int| 0 <= j < i ==> files@[j].0@ != path@,
        r matches Some(i) ==> i == first_at(files@, path@),
        r is None ==> first_at(files@, path@) == files@.len(),
{
    let mut i: usize = 0;
    assert(files@.subrange(0, files@.len() as int) =~= files@);
    while i < files.len()
        invariant
            i <= files@.len(),
            forall|j: int| 0 <= j < i ==> files@[j].0@ != path@,
            known(files@, path@) == known(files@.subrange(i as int, files@.len() as int), path@),
            first_at(files@, path@) == i + first_at(files@.subrange(i as int, files@.len() as int), path@),
        decreases files.len() - i,
    {
        let ghost rest = files@.subrange(i as int, files@.len() as int);
        assert(rest[0] == files@[i as int]);
        if files[i].0 == *path {
            return Some(i);
        }
        assert(rest.drop_first() =~= files@.subrange(i + 1, files@.len() as int));
        i = i + 1;
    }
    None
}

/// Whether a file stands at `path`, if the store knows.
fn known_at(files: &Vec<(String, Probe)>, path: &String) -> (r: Option<bool>)
    ensures
        r == known(files@, path@),
{
    match probe_index(files, path) {
        Some(i) => Some(
            match &files[i].1 {
                Probe::Missing => false,
                _ => true,
            },
        ),
        None => None,
    }
}

/// The value of the first `path = ".."` attribute of `attrs`.
pub fn find_pathstr_from_attrs(attrs: &Vec<Attr>) -> (r: Option<String>)
    ensures
        crate::entry::opt_name(r) == path_attr(attrs@),
{
    let mut i: usize = 0;
    assert(attrs@.subrange(0, attrs@.len() as int) =~= attrs@);
    while i < attrs.len()
        invariant
            i <= attrs@.len(),
            path_attr(attrs@) == path_attr(attrs@.subrange(i as int, attrs@.len() as int)),
        decreases attrs.len() - i,
    {
        let ghost rest = attrs@.subrange(i as int, attrs@.len() as int);
        assert(rest[0] == attrs@[i as int]);
        assert(rest.drop_first() =~= attrs@.subrange(i + 1, attrs@.len() as int));
        let a = &attrs[i];
        if path_is_word(&a.meta.path, "path") {
            match &a.meta.kind {
                MetaKind::NameValue(Lit::Str(s)) => {
                    return Some(s.clone());
                },
                _ => {},
            }
        }
        i = i + 1;
    }
    None
}

/// Where the file of the module `name` is.
pub fn find_mod_file(files: &Vec<(String, Probe)>, dirs: &Dirs, name: &String, attr: Option<String>) -> (r: ModFile)
    ensures
        r@ == mod_file(files@, dirs.mod_dir@, dirs.cwd@, name@, crate::entry::opt_name(attr)),
{
    proof {
        reveal_strlit(".rs");
        reveal_strlit("mod.rs");
    }
    match attr {
        Some(p) => {
            let path = join_path(&dirs.cwd, p.as_str());
            match known_at(files, &path) {
                None => ModFile::Unprobed(path),
                Some(false) => ModFile::NotFound(name.clone(), path),
                Some(true) => ModFile::Found(path, Dirs { mod_dir: dirs.mod_dir.clone(), cwd: dirs.cwd.clone() }),
            }
        },
        None => {
            let md = join_path(&dirs.mod_dir, name.as_str());
            let mut path1 = md.clone();
            path1.append(".rs");
            match known_at(files, &path1) {
                None => ModFile::Unprobed(path1),
                Some(true) => ModFile::Found(path1, Dirs { mod_dir: md, cwd: dirs.cwd.clone() }),
                Some(false) => {
                    let path2 = join_path(&md, "mod.rs");
                    match known_at(files, &path2) {
                        None => ModFile::Unprobed(path2),
                        Some(true) => {
                            let cwd = join_path(&dirs.cwd, name.as_str());
                            ModFile::Found(path2, Dirs { mod_dir: md, cwd })
                        },
                        Some(false) => ModFile::NotFound(name.clone(), path1),
                    }
                },
            }
        },
    }
}


/// Every module in `item`, at any depth, holds its declarations inline.
pub open spec fn expanded_item(item: Item) -> bool
    decreases item, 0nat,
{
    match item.kind {
        ItemKind::Mod { content, .. } => match content {
            Some(c) => expanded_list(c@, c@.len()),
            None => false,
        },
        _ => true,
    }
}

/// Every module among the first `n` declarations of `items` holds its declarations inline.
pub open spec fn expanded_list(items: Seq<Item>, n: nat) -> bool
    decreases items, n,
{
    if n == 0 || n > items.len() {
        true
    } else {
        expanded_list(items, (n - 1) as nat) && expanded_item(items[n - 1])
    }
}

proof fn lemma_expanded_prefix(s: Seq<Item>, t: Seq<Item>, n: nat)
    requires
        n <= s.len(),
        n <= t.len(),
        forall|i: int| 0 <= i < n ==> s[i] == t[i],
    ensures
        expanded_list(s, n) == expanded_list(t, n),
    decreases n,
{
    if n > 0 {
        lemma_expanded_prefix(s, t, (n - 1) as nat);
    }
}

/// Whether a predicate of `item` is known false.
pub open spec fn cfg_truth_false(cfg: CfgSet, item: Item) -> bool {
    crate::cfg::cfg_truth(cfg, item.attrs@) == crate::cfg::Truth::False
}

/// The directories for the submodules of an inline module named `name`, as values.
pub open spec fn inline_dirs_of(md: Seq<char>, cw: Seq<char>, name: Seq<char>, attr: Option<Seq<char>>) -> (
    Seq<char>,
    Seq<char>,
) {
    match attr {
        Some(p) => (join(cw, p), join(cw, p)),
        None => (join(md, name), join(md, name)),
    }
}

/// The store after `item` was resolved against `fin` with directories `md`, `cw` and
/// the files `anc` open around it: each module file inlined takes its entry out.
pub open spec fn after_item(
    fin: Seq<(String, Probe)>,
    cfg: CfgSet,
    md: Seq<char>,
    cw: Seq<char>,
    anc: Seq<Seq<char>>,
    item: Item,
) -> Seq<(String, Probe)>
    decreases fin.len(), item, 0nat,
{
    if cfg_truth_false(cfg, item) {
        fin
    } else {
        match item.kind {
            ItemKind::Mod { ident, content, .. } => {
                let attr = path_attr(crate::cfg::pruned_attrs(cfg, item.attrs@));
                match content {
                    Some(c) => {
                        let d = inline_dirs_of(md, cw, ident@, attr);
                        after_list(fin, cfg, d.0, d.1, anc, c@, c@.len())
                    },
                    None => match mod_file(fin, md, cw, ident@, attr) {
                        ModFileView::Found(path, md2, cw2) => {
                            let i = first_at(fin, path);
                            if 0 <= i < fin.len() {
                                after_list(
                                    fin.remove(i),
                                    cfg,
                                    md2,
                                    cw2,
                                    anc.push(path),
                                    parsed_items(fin[i].1),
                                    parsed_items(fin[i].1).len(),
                                )
                            } else {
                                fin
                            }
                        },
                        _ => fin,
                    },
                }
            },
            _ => fin,
        }
    }
}

/// The store after the first `n` declarations of `items` were resolved in turn.
pub open spec fn after_list(
    fin: Seq<(String, Probe)>,
    cfg: CfgSet,
    md: Seq<char>,
    cw: Seq<char>,
    anc: Seq<Seq<char>>,
    items: Seq<Item>,
    n: nat,
) -> Seq<(String, Probe)>
    decreases fin.len(), items, n,
{
    if n == 0 || n > items.len() {
        fin
    } else {
        let mid = after_list(fin, cfg, md, cw, anc, items, (n - 1) as nat);
        if mid.len() <= fin.len() {
            after_item(mid, cfg, md, cw, anc, items[n - 1])
        } else {
            mid
        }
    }
}

/// `r` is what resolving `item` against `fin` gives: a declaration that is no module,
/// or is removed, comes out as its predicates leave it; an inline module keeps its
/// pruned attributes and has its declarations resolved; a module without a body is
/// found by `mod_file`, must not be one of the files `anc` open around it, and takes
/// the first entry of the store for its path, which must be parsed: it gets that
/// file's inner attributes after its own, and the file's declarations resolved.
pub open spec fn ok_item(
    fin: Seq<(String, Probe)>,
    cfg: CfgSet,
    md: Seq<char>,
    cw: Seq<char>,
    anc: Seq<Seq<char>>,
    item: Item,
    r: Item,
) -> bool
    decreases fin.len(), item, 0nat,
{
    if cfg_truth_false(cfg, item) || !(item.kind is Mod) {
        is_pruned(cfg, item, r)
    } else {
        let pruned = crate::cfg::pruned_attrs(cfg, item.attrs@);
        let attr = path_attr(pruned);
        match (item.kind, r.kind) {
            (
                ItemKind::Mod { head, ident, content },
                ItemKind::Mod { head: h2, ident: i2, content: Some(c2) },
            ) => h2 == head && i2 == ident && match content {
                Some(c) => {
                    let d = inline_dirs_of(md, cw, ident@, attr);
                    r.attrs@ == pruned && c2@.len() == c@.len() && ok_list(
                        fin,
                        cfg,
                        d.0,
                        d.1,
                        anc,
                        c@,
                        c2@,
                        c@.len(),
                    )
                },
                None => match mod_file(fin, md, cw, ident@, attr) {
                    ModFileView::Found(path, md2, cw2) => {
                        let i = first_at(fin, path);
                        &&& 0 <= i < fin.len()
                        &&& fin[i].1 is Parsed
                        &&& !anc.contains(path)
                        &&& r.attrs@ == pruned + parsed_attrs(fin[i].1)
                        &&& c2@.len() == parsed_items(fin[i].1).len()
                        &&& ok_list(
                            fin.remove(i),
                            cfg,
                            md2,
                            cw2,
                            anc.push(path),
                            parsed_items(fin[i].1),
                            c2@,
                            parsed_items(fin[i].1).len(),
                        )
                    },
                    _ => false,
                },
            },
            _ => false,
        }
    }
}

/// The first `n` declarations of `out` are what resolving those of `items` in turn
/// gives, each against the store that the ones before it left.
pub open spec fn ok_list(
    fin: Seq<(String, Probe)>,
    cfg: CfgSet,
    md: Seq<char>,
    cw: Seq<char>,
    anc: Seq<Seq<char>>,
    items: Seq<Item>,
    out: Seq<Item>,
    n: nat,
) -> bool
    decreases fin.len(), items, n,
{
    if n == 0 {
        true
    } else if n > items.len() || n > out.len() {
        false
    } else {
        let mid = after_list(fin, cfg, md, cw, anc, items, (n - 1) as nat);
        &&& ok_list(fin, cfg, md, cw, anc, items, out, (n - 1) as nat)
        &&& mid.len() <= fin.len()
        &&& ok_item(mid, cfg, md, cw, anc, items[n - 1], out[n - 1])
    }
}

proof fn lemma_ok_list_prefix(
    fin: Seq<(String, Probe)>,
    cfg: CfgSet,
    md: Seq<char>,
    cw: Seq<char>,
    anc: Seq<Seq<char>>,
    items: Seq<Item>,
    out: Seq<Item>,
    out2: Seq<Item>,
    n: nat,
)
    requires
        n <= out.len(),
        n <= out2.len(),
        forall|j: int| 0 <= j < n ==> out[j] == out2[j],
    ensures
        ok_list(fin, cfg, md, cw, anc, items, out, n) == ok_list(fin, cfg, md, cw, anc, items, out2, n),
    decreases n,
{
    if n > 0 {
        lemma_ok_list_prefix(fin, cfg, md, cw, anc, items, out, out2, (n - 1) as nat);
    }
}

/// The directories for the submodules of an inline module named `name`: with a path
/// attribute, that path from `cwd` serves as both; else `mod_dir/name` does.
pub fn inline_dirs(dirs: &Dirs, name: &String, attr: Option<String>) -> (r: Dirs)
    ensures
        (r.mod_dir@, r.cwd@) == inline_dirs_of(dirs.mod_dir@, dirs.cwd@, name@, crate::entry::opt_name(attr)),
        crate::entry::opt_name(attr) matches Some(p) ==> r.cwd@ == join(dirs.cwd@, p) && r.mod_dir@ == r.cwd@,
        attr is None ==> r.mod_dir@ == join(dirs.mod_dir@, name@) && r.cwd@ == r.mod_dir@,
{
    match attr {
        Some(p) => {
            let cwd = join_path(&dirs.cwd, p.as_str());
            Dirs { mod_dir: cwd.clone(), cwd }
        },
        None => {
            let md = join_path(&dirs.mod_dir, name.as_str());
            Dirs { mod_dir: md.clone(), cwd: md }
        },
    }
}

/// `e` says that no file could be opened at `path`.
pub open spec fn names_unopened(e: Option<Error>, path: Seq<char>) -> bool {
    match e {
        Some(Error::FileNotFound(p, _)) => p@ == path,
        _ => false,
    }
}

/// A copy of a list of names.
fn copy_names(v: &Vec<String>) -> (r: Vec<String>)
    ensures
        names(r@) == names(v@),
{
    let mut r: Vec<String> = Vec::new();
    let mut i: usize = 0;
    while i < v.len()
        invariant
            i <= v@.len(),
            names(r@) == names(v@).subrange(0, i as int),
        decreases v.len() - i,
    {
        let ghost b = names(r@);
        r.push(v[i].clone());
        assert(names(r@) =~= b.push(v@[i as int]@));
        assert(names(v@).subrange(0, i + 1) =~= names(v@).subrange(0, i as int).push(v@[i as int]@));
        i = i + 1;
    }
    assert(names(v@).subrange(0, v@.len() as int) =~= names(v@));
    r
}

/// Why resolution failed, as values.
pub enum ErrorView {
    Io(Seq<char>),
    Parse(Seq<char>, Seq<char>),
    ModuleNotFound(Seq<char>, Seq<char>),
    FileNotFound(Seq<char>, Seq<char>),
    Circular(Seq<char>),
}

impl View for Error {
    type V = ErrorView;

    open spec fn view(&self) -> ErrorView {
        match self {
            Error::IoError(m) => ErrorView::Io(m@),
            Error::ParseFile(p, m) => ErrorView::Parse(p@, m@),
            Error::ModuleNotFound(n, p) => ErrorView::ModuleNotFound(n@, p@),
            Error::FileNotFound(p, m) => ErrorView::FileNotFound(p@, m@),
            Error::CircularModule(p) => ErrorView::Circular(p@),
        }
    }
}

/// How resolution ends, as values: done, asking that a path be probed, or failed.
pub enum Outcome {
    Done,
    Ask(Seq<char>),
    Fail(ErrorView),
}

/// The outcome that a stop stands for.
pub open spec fn stop_outcome(s: Stop) -> Outcome {
    match s {
        Stop::Unprobed(p) => Outcome::Ask(p@),
        Stop::Failed(e) => Outcome::Fail(e@),
    }
}

/// The error for the file at `path` that probing found as `p`: none when it parsed.
/// No file, or one that could not be opened, is `FileNotFound`; one that could not
/// be read is an I/O error; one that did not parse is `ParseFile`.
pub open spec fn probe_error(path: Seq<char>, p: Probe) -> Option<ErrorView> {
    match p {
        Probe::Missing => Some(ErrorView::FileNotFound(path, Seq::empty())),
        Probe::OpenFailed(m) => Some(ErrorView::FileNotFound(path, m@)),
        Probe::ReadFailed(m) => Some(ErrorView::Io(m@)),
        Probe::ParseFailed(m) => Some(ErrorView::Parse(path, m@)),
        Probe::Parsed(_) => None,
    }
}

/// How resolving `item` against `fin` ends. A declaration that is no module, or is
/// removed, is done. An inline module ends as its declarations do. A module without
/// a body ends as `mod_file` says when its file is not found or not yet probed (a
/// path among the files `anc` open around it is circular); a found file that is
/// open around it is circular; a found file the store lacks is asked for; a found
/// file that did not parse gives its `probe_error`; else the module ends as the
/// file's declarations do.
pub open spec fn outcome_item(
    fin: Seq<(String, Probe)>,
    cfg: CfgSet,
    md: Seq<char>,
    cw: Seq<char>,
    anc: Seq<Seq<char>>,
    item: Item,
) -> Outcome
    decreases fin.len(), item, 0nat,
{
    if cfg_truth_false(cfg, item) {
        Outcome::Done
    } else {
        match item.kind {
            ItemKind::Mod { ident, content, .. } => {
                let attr = path_attr(crate::cfg::pruned_attrs(cfg, item.attrs@));
                match content {
                    Some(c) => {
                        let d = inline_dirs_of(md, cw, ident@, attr);
                        outcome_list(fin, cfg, d.0, d.1, anc, c@, c@.len())
                    },
                    None => match mod_file(fin, md, cw, ident@, attr) {
                        ModFileView::Unprobed(p) => if anc.contains(p) {
                            Outcome::Fail(ErrorView::Circular(p))
                        } else {
                            Outcome::Ask(p)
                        },
                        ModFileView::NotFound(n, p) => Outcome::Fail(ErrorView::ModuleNotFound(n, p)),
                        ModFileView::Found(path, md2, cw2) => if anc.contains(path) {
                            Outcome::Fail(ErrorView::Circular(path))
                        } else {
                            let i = first_at(fin, path);
                            if 0 <= i < fin.len() {
                                match probe_error(path, fin[i].1) {
                                    Some(e) => Outcome::Fail(e),
                                    None => outcome_list(
                                        fin.remove(i),
                                        cfg,
                                        md2,
                                        cw2,
                                        anc.push(path),
                                        parsed_items(fin[i].1),
                                        parsed_items(fin[i].1).len(),
                                    ),
                                }
                            } else {
                                Outcome::Ask(path)
                            }
                        },
                    },
                }
            },
            _ => Outcome::Done,
        }
    }
}

/// How resolving the first `n` declarations of `items` in turn ends: as the first
/// that is not done, else done.
pub open spec fn outcome_list(
    fin: Seq<(String, Probe)>,
    cfg: CfgSet,
    md: Seq<char>,
    cw: Seq<char>,
    anc: Seq<Seq<char>>,
    items: Seq<Item>,
    n: nat,
) -> Outcome
    decreases fin.len(), items, n,
{
    if n == 0 || n > items.len() {
        Outcome::Done
    } else {
        match outcome_list(fin, cfg, md, cw, anc, items, (n - 1) as nat) {
            Outcome::Done => {
                let mid = after_list(fin, cfg, md, cw, anc, items, (n - 1) as nat);
                if mid.len() <= fin.len() {
                    outcome_item(mid, cfg, md, cw, anc, items[n - 1])
                } else {
                    Outcome::Done
                }
            },
            o => o,
        }
    }
}

proof fn lemma_outcome_stays(
    fin: Seq<(String, Probe)>,
    cfg: CfgSet,
    md: Seq<char>,
    cw: Seq<char>,
    anc: Seq<Seq<char>>,
    items: Seq<Item>,
    k: nat,
    n: nat,
)
    requires
        1 <= k <= n <= items.len(),
        outcome_list(fin, cfg, md, cw, anc, items, k) != Outcome::Done,
    ensures
        outcome_list(fin, cfg, md, cw, anc, items, n) == outcome_list(fin, cfg, md, cw, anc, items, k),
    decreases n - k,
{
    if k < n {
        lemma_outcome_stays(fin, cfg, md, cw, anc, items, k, (n - 1) as nat);
    }
}

/// A declaration that resolves to some tree resolves without fail.
pub proof fn lemma_ok_item_done(
    fin: Seq<(String, Probe)>,
    cfg: CfgSet,
    md: Seq<char>,
    cw: Seq<char>,
    anc: Seq<Seq<char>>,
    item: Item,
    r: Item,
)
    requires
        ok_item(fin, cfg, md, cw, anc, item, r),
    ensures
        outcome_item(fin, cfg, md, cw, anc, item) == Outcome::Done,
    decreases fin.len(), item, 0nat,
{
    if !cfg_truth_false(cfg, item) {
        match (item.kind, r.kind) {
            (ItemKind::Mod { ident, content, .. }, ItemKind::Mod { content: Some(c2), .. }) => {
                let attr = path_attr(crate::cfg::pruned_attrs(cfg, item.attrs@));
                match content {
                    Some(c) => {
                        let d = inline_dirs_of(md, cw, ident@, attr);
                        lemma_ok_list_done(fin, cfg, d.0, d.1, anc, c@, c2@, c@.len());
                    },
                    None => match mod_file(fin, md, cw, ident@, attr) {
                        ModFileView::Found(path, md2, cw2) => {
                            let i = first_at(fin, path);
                            lemma_ok_list_done(
                                fin.remove(i),
                                cfg,
                                md2,
                                cw2,
                                anc.push(path),
                                parsed_items(fin[i].1),
                                c2@,
                                parsed_items(fin[i].1).len(),
                            );
                        },
                        _ => {},
                    },
                }
            },
            _ => {},
        }
    }
}

/// Declarations that resolve to some trees resolve without fail.
pub proof fn lemma_ok_list_done(
    fin: Seq<(String, Probe)>,
    cfg: CfgSet,
    md: Seq<char>,
    cw: Seq<char>,
    anc: Seq<Seq<char>>,
    items: Seq<Item>,
    out: Seq<Item>,
    n: nat,
)
    requires
        ok_list(fin, cfg, md, cw, anc, items, out, n),
    ensures
        outcome_list(fin, cfg, md, cw, anc, items, n) == Outcome::Done,
    decreases fin.len(), items, n,
{
    if n > 0 {
        lemma_ok_list_done(fin, cfg, md, cw, anc, items, out, (n - 1) as nat);
        let mid = after_list(fin, cfg, md, cw, anc, items, (n - 1) as nat);
        lemma_ok_item_done(mid, cfg, md, cw, anc, items[n - 1], out[n - 1]);
    }
}

/// The error for a file that was found but could not be used.
fn load_error(path: String, p: Probe) -> (r: Option<Error>)
    ensures
        p is Parsed <==> r is None,
        p is Missing ==> names_unopened(r, path@),
        match r {
            Some(e) => probe_error(path@, p) == Some(e@),
            None => probe_error(path@, p) is None,
        },
{
    match p {
        Probe::Missing => Some(Error::FileNotFound(path, String::new())),
        Probe::OpenFailed(msg) => Some(Error::FileNotFound(path, msg)),
        Probe::ReadFailed(msg) => Some(Error::IoError(msg)),
        Probe::ParseFailed(msg) => Some(Error::ParseFile(path, msg)),
        Probe::Parsed(_) => None,
    }
}

/// Applies predicates to `item` and, if it is a module, resolves it: a module without
/// a body gets its file's declarations; the declarations of every module are resolved
/// in turn.
pub fn resolve_item(store: FileStore, cfg: &CfgSet, dirs: &Dirs, ancestors: &Vec<String>, item: Item) -> (r: (
    FileStore,
    Result<Item, Stop>,
))
    ensures
        r.0.files@.len() <= store.files@.len(),
        r.1 matches Ok(it) ==> expanded_item(it) && ok_item(
            store.files@,
            *cfg,
            dirs.mod_dir@,
            dirs.cwd@,
            names(ancestors@),
            item,
            it,
        ) && r.0.files@ == after_item(store.files@, *cfg, dirs.mod_dir@, dirs.cwd@, names(ancestors@), item),
        cfg_truth_false(*cfg, item) || !(item.kind is Mod) ==> r.1 is Ok,
        r.1 is Ok <==> outcome_item(store.files@, *cfg, dirs.mod_dir@, dirs.cwd@, names(ancestors@), item)
            == Outcome::Done,
        r.1 matches Err(e) ==> outcome_item(store.files@, *cfg, dirs.mod_dir@, dirs.cwd@, names(ancestors@), item)
            == stop_outcome(e),
        (exists|it: Item|
            #[trigger] ok_item(store.files@, *cfg, dirs.mod_dir@, dirs.cwd@, names(ancestors@), item, it))
            ==> r.1 is Ok,
    decreases store.files@.len(), item,
{
    let ghost item0 = item;
    let ghost fin = store.files@;
    proof {
        if exists|it: Item| #[trigger] ok_item(fin, *cfg, dirs.mod_dir@, dirs.cwd@, names(ancestors@), item, it) {
            let it = choose|it: Item| #[trigger] ok_item(fin, *cfg, dirs.mod_dir@, dirs.cwd@, names(ancestors@), item, it);
            lemma_ok_item_done(fin, *cfg, dirs.mod_dir@, dirs.cwd@, names(ancestors@), item, it);
        }
    }
    let pruned = prune_item(cfg, item);
    let Item { attrs, kind } = pruned;
    match kind {
        ItemKind::Mod { head, ident, content } => {
            let attr = find_pathstr_from_attrs(&attrs);
            match content {
                Some(c) => {
                    let d2 = inline_dirs(dirs, &ident, attr);
                    assert(decreases_to!(item0 => c));
                    let (store, res) = resolve_list(store, cfg, &d2, ancestors, c);
                    match res {
                        Ok(items) => {
                            let it = Item { attrs, kind: ItemKind::Mod { head, ident, content: Some(items) } };
                            assert(ok_item(fin, *cfg, dirs.mod_dir@, dirs.cwd@, names(ancestors@), item0, it));
                            (store, Ok(it))
                        },
                        Err(e) => (store, Err(e)),
                    }
                },
                None => {
                    match find_mod_file(&store.files, dirs, &ident, attr) {
                        ModFile::Unprobed(p) => {
                            if contains_name(ancestors, &p) {
                                (store, Err(Stop::Failed(Error::CircularModule(p))))
                            } else {
                                (store, Err(Stop::Unprobed(p)))
                            }
                        },
                        ModFile::NotFound(n, p) => (store, Err(Stop::Failed(Error::ModuleNotFound(n, p)))),
                        ModFile::Found(path, d2) => {
                            if contains_name(ancestors, &path) {
                                return (store, Err(Stop::Failed(Error::CircularModule(path))));
                            }
                            match probe_index(&store.files, &path) {
                                None => (store, Err(Stop::Unprobed(path))),
                                Some(i) => {
                                    let mut store = store;
                                    let (_, probe) = store.files.remove(i);
                                    match probe {
                                        Probe::Parsed(file) => {
                                            let SourceFile { attrs: mut inner, items } = file;
                                            let mut attrs = attrs;
                                            let ghost pre = attrs@;
                                            attrs.append(&mut inner);
                                            let ghost gpath = path@;
                                            let ghost gfile_items = items@;
                                            let mut anc = copy_names(ancestors);
                                            anc.push(path);
                                            assert(names(anc@) =~= names(ancestors@).push(gpath));
                                            let (store, res) = resolve_list(store, cfg, &d2, &anc, items);
                                            match res {
                                                Ok(items) => {
                                                    let it = Item {
                                                        attrs,
                                                        kind: ItemKind::Mod { head, ident, content: Some(items) },
                                                    };
                                                    assert(ok_item(
                                                        fin,
                                                        *cfg,
                                                        dirs.mod_dir@,
                                                        dirs.cwd@,
                                                        names(ancestors@),
                                                        item0,
                                                        it,
                                                    ));
                                                    (store, Ok(it))
                                                },
                                                Err(e) => (store, Err(e)),
                                            }
                                        },
                                        other => {
                                            match load_error(path, other) {
                                                Some(e) => (store, Err(Stop::Failed(e))),
                                                None => (store, Err(Stop::Failed(Error::IoError(String::new())))),
                                            }
                                        },
                                    }
                                },
                            }
                        },
                    }
                },
            }
        },
        kind => (store, Ok(Item { attrs, kind })),
    }
}

/// Resolves each declaration of `items`, in order; stops at the first that cannot be.
pub fn resolve_list(store: FileStore, cfg: &CfgSet, dirs: &Dirs, ancestors: &Vec<String>, items: Vec<Item>) -> (r: (
    FileStore,
    Result<Vec<Item>, Stop>,
))
    ensures
        r.0.files@.len() <= store.files@.len(),
        r.1 matches Ok(v) ==> v@.len() == items@.len() && expanded_list(v@, v@.len()) && ok_list(
            store.files@,
            *cfg,
            dirs.mod_dir@,
            dirs.cwd@,
            names(ancestors@),
            items@,
            v@,
            items@.len(),
        ) && r.0.files@ == after_list(
            store.files@,
            *cfg,
            dirs.mod_dir@,
            dirs.cwd@,
            names(ancestors@),
            items@,
            items@.len(),
        ),
        r.1 is Ok <==> outcome_list(
            store.files@,
            *cfg,
            dirs.mod_dir@,
            dirs.cwd@,
            names(ancestors@),
            items@,
            items@.len(),
        ) == Outcome::Done,
        r.1 matches Err(e) ==> outcome_list(
            store.files@,
            *cfg,
            dirs.mod_dir@,
            dirs.cwd@,
            names(ancestors@),
            items@,
            items@.len(),
        ) == stop_outcome(e),
        (exists|v: Seq<Item>|
            #[trigger] ok_list(
                store.files@,
                *cfg,
                dirs.mod_dir@,
                dirs.cwd@,
                names(ancestors@),
                items@,
                v,
                items@.len(),
            )) ==> r.1 is Ok,
    decreases store.files@.len(), items,
{
    let ghost orig = items@;
    let ghost fin = store.files@;
    proof {
        if exists|v: Seq<Item>|
            #[trigger] ok_list(fin, *cfg, dirs.mod_dir@, dirs.cwd@, names(ancestors@), orig, v, orig.len()) {
            let v = choose|v: Seq<Item>|
                #[trigger] ok_list(fin, *cfg, dirs.mod_dir@, dirs.cwd@, names(ancestors@), orig, v, orig.len());
            lemma_ok_list_done(fin, *cfg, dirs.mod_dir@, dirs.cwd@, names(ancestors@), orig, v, orig.len());
        }
    }
    let ghost n0 = store.files@.len();
    let mut st = store;
    let mut rest = items;
    let mut out: Vec<Item> = Vec::new();
    while rest.len() > 0
        invariant
            st.files@.len() <= n0,
            n0 == store.files@.len(),
            items@ == orig,
            out@.len() + rest@.len() == orig.len(),
            rest@ == orig.subrange(out@.len() as int, orig.len() as int),
            expanded_list(out@, out@.len()),
            fin == store.files@,
            ok_list(fin, *cfg, dirs.mod_dir@, dirs.cwd@, names(ancestors@), orig, out@, out@.len() as nat),
            st.files@ == after_list(fin, *cfg, dirs.mod_dir@, dirs.cwd@, names(ancestors@), orig, out@.len() as nat),
            outcome_list(fin, *cfg, dirs.mod_dir@, dirs.cwd@, names(ancestors@), orig, out@.len() as nat)
                == Outcome::Done,
            (exists|v: Seq<Item>| #[trigger] ok_list(fin, *cfg, dirs.mod_dir@, dirs.cwd@, names(ancestors@), orig, v, orig.len()))
                ==> outcome_list(fin, *cfg, dirs.mod_dir@, dirs.cwd@, names(ancestors@), orig, orig.len()) == Outcome::Done,
        decreases rest.len(),
    {
        let ghost k = out@.len() as int;
        let ghost before = rest@;
        let child = rest.remove(0);
        assert(child == orig[k]) by {
            assert(before[0] == child);
        }
        assert(decreases_to!(items => child)) by {
            assert(decreases_to!(items => items@));
            assert(items@[k] == child);
        }
        let (s2, res) = resolve_item(st, cfg, dirs, ancestors, child);
        st = s2;
        match res {
            Ok(it) => {
                let ghost bo = out@;
                out.push(it);
                assert(out@.drop_last() =~= bo);
                proof {
                    lemma_expanded_prefix(out@, bo, bo.len());
                    lemma_ok_list_prefix(fin, *cfg, dirs.mod_dir@, dirs.cwd@, names(ancestors@), orig, bo, out@, bo.len());
                }
                assert(rest@ =~= orig.subrange(out@.len() as int, orig.len() as int));
            },
            Err(e) => {
                proof {
                    let k = out@.len() as nat;
                    assert(outcome_list(fin, *cfg, dirs.mod_dir@, dirs.cwd@, names(ancestors@), orig, k + 1)
                        == stop_outcome(e));
                    lemma_outcome_stays(fin, *cfg, dirs.mod_dir@, dirs.cwd@, names(ancestors@), orig, k + 1, orig.len());
                }
                return (st, Err(e));
            },
        }
    }
    (st, Ok(out))
}

/// `r` asks that `path` be probed.
pub open spec fn asks_for(r: Resolution, path: Seq<char>) -> bool {
    match r {
        Resolution::Unprobed(p) => p@ == path,
        _ => false,
    }
}

/// `r` says that no file could be opened at `path`.
pub open spec fn not_found(r: Resolution, path: Seq<char>) -> bool {
    match r {
        Resolution::Failed(Error::FileNotFound(p, _)) => p@ == path,
        _ => false,
    }
}

/// `f` is what resolving the root file `root` against `fin` gives: the first entry of
/// the store for `root` is parsed, `f` keeps its inner attributes, and its
/// declarations are resolved from the root's directory with the root file open.
pub open spec fn root_ok(fin: Seq<(String, Probe)>, cfg: CfgSet, root: Seq<char>, f: SourceFile) -> bool {
    let i = first_at(fin, root);
    &&& 0 <= i < fin.len()
    &&& fin[i].1 is Parsed
    &&& f.attrs@ == parsed_attrs(fin[i].1)
    &&& f.items@.len() == parsed_items(fin[i].1).len()
    &&& ok_list(
        fin.remove(i),
        cfg,
        parent_of(root),
        parent_of(root),
        seq![root],
        parsed_items(fin[i].1),
        f.items@,
        parsed_items(fin[i].1).len(),
    )
}

/// The outcome that a resolution stands for.
pub open spec fn resolution_outcome(r: Resolution) -> Outcome {
    match r {
        Resolution::Done(_) => Outcome::Done,
        Resolution::Unprobed(p) => Outcome::Ask(p@),
        Resolution::Failed(e) => Outcome::Fail(e@),
    }
}

/// How resolving the root file `root` against `fin` ends: the root is asked for
/// when the store lacks it; a root that did not parse gives its `probe_error`; else
/// resolution ends as the root's declarations do, from the root's directory with the
/// root file open.
pub open spec fn root_outcome(fin: Seq<(String, Probe)>, cfg: CfgSet, root: Seq<char>) -> Outcome {
    let i = first_at(fin, root);
    if !(0 <= i < fin.len()) {
        Outcome::Ask(root)
    } else {
        match probe_error(root, fin[i].1) {
            Some(e) => Outcome::Fail(e),
            None => outcome_list(
                fin.remove(i),
                cfg,
                parent_of(root),
                parent_of(root),
                seq![root],
                parsed_items(fin[i].1),
                parsed_items(fin[i].1).len(),
            ),
        }
    }
}

/// The store holds a parsed root file whose declarations resolve to some trees.
pub open spec fn root_resolves(fin: Seq<(String, Probe)>, cfg: CfgSet, root: Seq<char>) -> bool {
    let i = first_at(fin, root);
    &&& 0 <= i < fin.len()
    &&& fin[i].1 is Parsed
    &&& exists|v: Seq<Item>|
        #[trigger] ok_list(
            fin.remove(i),
            cfg,
            parent_of(root),
            parent_of(root),
            seq![root],
            parsed_items(fin[i].1),
            v,
            parsed_items(fin[i].1).len(),
        )
}

/// Declarations none of which is a module resolve without fail, and whatever they
/// resolve to is each of them as its predicates leave it.
pub proof fn lemma_plain_list_resolves(
    fin: Seq<(String, Probe)>,
    cfg: CfgSet,
    md: Seq<char>,
    cw: Seq<char>,
    anc: Seq<Seq<char>>,
    items: Seq<Item>,
    out: Seq<Item>,
    n: nat,
)
    requires
        n <= items.len(),
        forall|j: int| 0 <= j < n ==> !(#[trigger] items[j].kind is Mod),
    ensures
        after_list(fin, cfg, md, cw, anc, items, n) == fin,
        outcome_list(fin, cfg, md, cw, anc, items, n) == Outcome::Done,
        ok_list(fin, cfg, md, cw, anc, items, out, n) ==> forall|j: int|
            0 <= j < n ==> is_pruned(cfg, #[trigger] items[j], out[j]),
    decreases n,
{
    if n > 0 {
        lemma_plain_list_resolves(fin, cfg, md, cw, anc, items, out, (n - 1) as nat);
        assert(!(items[n - 1].kind is Mod));
        assert(after_item(fin, cfg, md, cw, anc, items[n - 1]) == fin);
        assert(outcome_item(fin, cfg, md, cw, anc, items[n - 1]) == Outcome::Done);
        if ok_list(fin, cfg, md, cw, anc, items, out, n) {
            assert(ok_list(fin, cfg, md, cw, anc, items, out, (n - 1) as nat));
            assert(ok_item(fin, cfg, md, cw, anc, items[n - 1], out[n - 1]));
            assert forall|j: int| 0 <= j < n implies is_pruned(cfg, #[trigger] items[j], out[j]) by {
                if j < n - 1 {
                    assert(is_pruned(cfg, items[j], out[j]));
                }
            }
        }
    }
}

/// With a root file of plain declarations (no modules), resolution is done, and each
/// declaration comes out as its predicates leave it: under an enabled `cfg(x)` it
/// stays without the predicate, under `cfg(not(x))` it is removed, under an unknown
/// atom it stays with its predicate.
pub proof fn lemma_plain_root_resolves(fin: Seq<(String, Probe)>, cfg: CfgSet, root: Seq<char>, f: SourceFile)
    requires
        0 <= first_at(fin, root) < fin.len(),
        fin[first_at(fin, root)].1 is Parsed,
        forall|j: int|
            0 <= j < parsed_items(fin[first_at(fin, root)].1).len() ==> !(
            #[trigger] parsed_items(fin[first_at(fin, root)].1)[j].kind is Mod),
    ensures
        root_outcome(fin, cfg, root) == Outcome::Done,
        root_ok(fin, cfg, root, f) ==> forall|j: int|
            0 <= j < f.items@.len() ==> is_pruned(
                cfg,
                #[trigger] parsed_items(fin[first_at(fin, root)].1)[j],
                f.items@[j],
            ),
{
    let i = first_at(fin, root);
    let items = parsed_items(fin[i].1);
    lemma_plain_list_resolves(
        fin.remove(i),
        cfg,
        parent_of(root),
        parent_of(root),
        seq![root],
        items,
        f.items@,
        items.len(),
    );
}

/// Resolves the file at `root` against the files probed so far.
pub fn parse_file_recursive(root: &String, store: FileStore, cfg: &CfgSet) -> (r: Resolution)
    ensures
        r matches Resolution::Done(f) ==> expanded_list(f.items@, f.items@.len()) && root_ok(
            store.files@,
            *cfg,
            root@,
            f,
        ),
        resolution_outcome(r) == root_outcome(store.files@, *cfg, root@),
        root_resolves(store.files@, *cfg, root@) ==> r is Done,
        known(store.files@, root@) is None ==> asks_for(r, root@),
        known(store.files@, root@) == Some(false) ==> not_found(r, root@),
{
    proof {
        let fin = store.files@;
        let i = first_at(fin, root@);
        if root_resolves(fin, *cfg, root@) {
            let v = choose|v: Seq<Item>|
                #[trigger] ok_list(
                    fin.remove(i),
                    *cfg,
                    parent_of(root@),
                    parent_of(root@),
                    seq![root@],
                    parsed_items(fin[i].1),
                    v,
                    parsed_items(fin[i].1).len(),
                );
            lemma_ok_list_done(
                fin.remove(i),
                *cfg,
                parent_of(root@),
                parent_of(root@),
                seq![root@],
                parsed_items(fin[i].1),
                v,
                parsed_items(fin[i].1).len(),
            );
        }
    }
    match probe_index(&store.files, root) {
        None => Resolution::Unprobed(root.clone()),
        Some(i) => {
            let mut store = store;
            let (_, probe) = store.files.remove(i);
            match probe {
                Probe::Parsed(file) => {
                    let SourceFile { attrs, items } = file;
                    let dir = parent_dir(root);
                    let dirs = Dirs { mod_dir: dir.clone(), cwd: dir };
                    let mut anc: Vec<String> = Vec::new();
                    anc.push(root.clone());
                    assert(names(anc@) =~= seq![root@]);
                    let (_, res) = resolve_list(store, cfg, &dirs, &anc, items);
                    match res {
                        Ok(items) => Resolution::Done(SourceFile { attrs, items }),
                        Err(Stop::Unprobed(p)) => Resolution::Unprobed(p),
                        Err(Stop::Failed(e)) => Resolution::Failed(e),
                    }
                },
                other => match load_error(root.clone(), other) {
                    Some(e) => Resolution::Failed(e),
                    None => Resolution::Failed(Error::IoError(String::new())),
                },
            }
        },
    }
}

} // verus!
