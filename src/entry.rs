//! The arguments of a `codesnip::entry` annotation: the snippet's name, the names it
//! depends on, and whether a module contributes its declarations rather than itself.

use crate::filter::is_marker;
use crate::map::names;
use crate::syntax::{path_is_word, is_word, Attr, Lit, Meta, MetaKind};
use vstd::prelude::*;

verus! {

/// What an entry annotation says, as values.
pub struct EntryModel {
    pub name: Seq<char>,
    pub deps: Seq<Seq<char>>,
    pub inline: bool,
}

/// What an entry annotation says.
#[derive(Clone, Debug)]
pub struct Entry {
    pub name: String,
    pub deps: Vec<String>,
    pub inline: bool,
}

impl View for Entry {
    type V = EntryModel;

    open spec fn view(&self) -> EntryModel {
        EntryModel { name: self.name@, deps: names(self.deps@), inline: self.inline }
    }
}

/// The arguments read so far: a name if one was given, the names depended on, and
/// whether `inline` was given.
pub struct ArgsModel {
    pub name: Option<Seq<char>>,
    pub deps: Seq<Seq<char>>,
    pub inline: bool,
}

/// The values of a list of string literals; `None` if an item is anything else.
pub open spec fn str_list(items: Seq<Meta>, n: nat) -> Option<Seq<Seq<char>>>
    decreases n,
{
    if n == 0 || n > items.len() {
        Some(Seq::empty())
    } else {
        match str_list(items, (n - 1) as nat) {
            Some(acc) => match items[n - 1].kind {
                MetaKind::Lit(Lit::Str(s)) => Some(acc.push(s@)),
                _ => None,
            },
            None => None,
        }
    }
}

/// The arguments read with one more, `a`: a string literal or `name = ".."` names
/// the snippet (once only), `inline` sets the flag, `include(".." , ..)` adds names
/// depended on; anything else is an error.
pub open spec fn arg_step(acc: ArgsModel, a: Meta) -> Option<ArgsModel> {
    match a.kind {
        MetaKind::Lit(Lit::Str(s)) => if acc.name is None {
            Some(ArgsModel { name: Some(s@), ..acc })
        } else {
            None
        },
        MetaKind::NameValue(Lit::Str(s)) => if is_word(a.path@, "name"@) && acc.name is None {
            Some(ArgsModel { name: Some(s@), ..acc })
        } else {
            None
        },
        MetaKind::Word => if is_word(a.path@, "inline"@) {
            Some(ArgsModel { inline: true, ..acc })
        } else {
            None
        },
        MetaKind::List(Some(items)) => if is_word(a.path@, "include"@) {
            match str_list(items@, items@.len()) {
                Some(d) => Some(ArgsModel { deps: acc.deps + d, ..acc }),
                None => None,
            }
        } else {
            None
        },
        _ => None,
    }
}

/// The first `n` arguments of `args`, read in order.
pub open spec fn read_args(args: Seq<Meta>, n: nat) -> Option<ArgsModel>
    decreases n,
{
    if n == 0 || n > args.len() {
        Some(ArgsModel { name: None, deps: Seq::empty(), inline: false })
    } else {
        match read_args(args, (n - 1) as nat) {
            Some(acc) => arg_step(acc, args[n - 1]),
            None => None,
        }
    }
}

/// The arguments of an entry annotation: none for a bare one, else its list, read in order.
pub open spec fn entry_args(m: Meta) -> Option<ArgsModel> {
    match m.kind {
        MetaKind::Word => Some(ArgsModel { name: None, deps: Seq::empty(), inline: false }),
        MetaKind::List(Some(args)) => read_args(args@, args@.len()),
        _ => None,
    }
}

/// What the entry annotation `a` says of a declaration named `own` (if it has a
/// name): `None` when `a` is no entry annotation, its arguments do not read, or no
/// name is given and the declaration has none.
pub open spec fn entry_of(a: Attr, own: Option<Seq<char>>) -> Option<EntryModel> {
    if !is_marker(a.meta.path@, "entry"@) {
        None
    } else {
        match entry_args(a.meta) {
            Some(r) => match (r.name, own) {
                (Some(n), _) => Some(EntryModel { name: n, deps: r.deps, inline: r.inline }),
                (None, Some(n)) => Some(EntryModel { name: n, deps: r.deps, inline: r.inline }),
                (None, None) => None,
            },
            None => None,
        }
    }
}

/// The text of an optional name.
pub open spec fn opt_name(o: Option<String>) -> Option<Seq<char>> {
    match o {
        Some(s) => Some(s@),
        None => None,
    }
}

/// The text of an optional borrowed name.
pub open spec fn ref_name(o: Option<&String>) -> Option<Seq<char>> {
    match o {
        Some(s) => Some(s@),
        None => None,
    }
}

/// Reads the string literals of `items` onto the end of `deps`; false if an item is
/// anything else.
fn push_str_list(items: &Vec<Meta>, deps: &mut Vec<String>) -> (r: bool)
    ensures
        r == str_list(items@, items@.len()) is Some,
        r ==> names(final(deps)@) == names(old(deps)@) + str_list(
            items@,
            items@.len(),
        ).unwrap(),
{
    let ghost base = names(deps@);
    let mut i: usize = 0;
    while i < items.len()
        invariant
            i <= items.len(),
            str_list(items@, i as nat) is Some,
            names(deps@) == base + str_list(items@, i as nat).unwrap(),
        decreases items.len() - i,
    {
        match &items[i].kind {
            MetaKind::Lit(Lit::Str(s)) => {
                let ghost b = names(deps@);
                deps.push(s.clone());
                assert(names(deps@) =~= b.push(s@));
                assert(base + str_list(items@, (i + 1) as nat).unwrap() =~= (base + str_list(items@, i as nat).unwrap()).push(s@));
            },
            _ => {
                proof {
                    lemma_str_list_stays_none(items@, (i + 1) as nat, items@.len());
                }
                return false;
            },
        }
        i = i + 1;
    }
    true
}

proof fn lemma_str_list_stays_none(items: Seq<Meta>, k: nat, n: nat)
    requires
        k <= n <= items.len(),
        str_list(items, k) is None,
    ensures
        str_list(items, n) is None,
    decreases n - k,
{
    if k < n {
        lemma_str_list_stays_none(items, (k + 1) as nat, n);
        assert(str_list(items, (k + 1) as nat) is None);
    }
}

proof fn lemma_read_args_stays_none(args: Seq<Meta>, k: nat, n: nat)
    requires
        k <= n <= args.len(),
        read_args(args, k) is None,
    ensures
        read_args(args, n) is None,
    decreases n - k,
{
    if k < n {
        lemma_read_args_stays_none(args, (k + 1) as nat, n);
    }
}

/// Reads an entry annotation of a declaration whose own name is `own`.
pub fn parse_entry(a: &Attr, own: Option<&String>) -> (r: Option<Entry>)
    ensures
        r is Some <==> entry_of(*a, ref_name(own)) is Some,
        r matches Some(e) ==> e@ == entry_of(*a, ref_name(own)).unwrap(),
{
    if !crate::filter::path_is_marker(&a.meta.path, "entry") {
        return None;
    }
    let mut name: Option<String> = None;
    let mut deps: Vec<String> = Vec::new();
    let mut inline = false;
    match &a.meta.kind {
        MetaKind::Word => {},
        MetaKind::List(Some(args)) => {
            let mut i: usize = 0;
            while i < args.len()
                invariant
                    i <= args.len(),
                    a.meta.kind == MetaKind::List(Some(*args)),
                    read_args(args@, i as nat) matches Some(acc) && acc.name == opt_name(name)
                        && acc.deps == names(deps@) && acc.inline == inline,
                decreases args.len() - i,
            {
                let ghost acc = read_args(args@, i as nat).unwrap();
                let arg = &args[i];
                let ok = match &arg.kind {
                    MetaKind::Lit(Lit::Str(s)) => {
                        if name.is_none() {
                            name = Some(s.clone());
                            true
                        } else {
                            false
                        }
                    },
                    MetaKind::NameValue(Lit::Str(s)) => {
                        if path_is_word(&arg.path, "name") && name.is_none() {
                            name = Some(s.clone());
                            true
                        } else {
                            false
                        }
                    },
                    MetaKind::Word => {
                        if path_is_word(&arg.path, "inline") {
                            inline = true;
                            true
                        } else {
                            false
                        }
                    },
                    MetaKind::List(Some(items)) => {
                        if path_is_word(&arg.path, "include") {
                            push_str_list(items, &mut deps)
                        } else {
                            false
                        }
                    },
                    _ => false,
                };
                if !ok {
                    assert(arg_step(acc, args@[i as int]) is None);
                    assert(read_args(args@, (i + 1) as nat) is None);
                    proof {
                        lemma_read_args_stays_none(args@, (i + 1) as nat, args@.len());
                    }
                    assert(entry_args(a.meta) is None);
                    return None;
                }
                i = i + 1;
            }
        },
        _ => {
            return None;
        },
    }
    assert(entry_args(a.meta) matches Some(r) && r.name == opt_name(name) && r.deps == names(deps@) && r.inline == inline);
    let name = match name {
        Some(n) => n,
        None => match own {
            Some(n) => n.clone(),
            None => {
                return None;
            },
        },
    };
    Some(Entry { name, deps, inline })
}

} // verus!
