//! Conditional-compile predicates, evaluated in three values: an atom is true when
//! enabled, false when disabled, and unknown otherwise. Only what is known for
//! certain is acted on; an unknown predicate stays attached to its declaration.

use crate::map::names;
use crate::map::contains_name;
use crate::syntax::{is_word, path_is_word, Attr, Item, ItemKind, Meta, MetaKind};
use vstd::prelude::*;

verus! {

/// A truth value that may be unknown.
#[derive(PartialEq, Eq, Structural, Clone, Copy, Debug)]
pub enum Truth {
    True,
    False,
    Unknown,
}

/// Conjunction: false if either is, true if both are, else unknown.
pub open spec fn and3(a: Truth, b: Truth) -> Truth {
    if a == Truth::False || b == Truth::False {
        Truth::False
    } else if a == Truth::True && b == Truth::True {
        Truth::True
    } else {
        Truth::Unknown
    }
}

/// Disjunction: true if either is, false if both are, else unknown.
pub open spec fn or3(a: Truth, b: Truth) -> Truth {
    if a == Truth::True || b == Truth::True {
        Truth::True
    } else if a == Truth::False && b == Truth::False {
        Truth::False
    } else {
        Truth::Unknown
    }
}

/// Negation; unknown stays unknown.
pub open spec fn not3(a: Truth) -> Truth {
    match a {
        Truth::True => Truth::False,
        Truth::False => Truth::True,
        Truth::Unknown => Truth::Unknown,
    }
}

/// The conditions known to hold and those known not to, each by its text
/// (`test`, `feature = "x"`).
#[derive(Clone, Debug)]
pub struct CfgSet {
    pub enabled: Vec<String>,
    pub disabled: Vec<String>,
}

/// The truth of an atom whose text is `t`.
pub open spec fn atom_truth(cfg: CfgSet, t: Seq<char>) -> Truth {
    if names(cfg.enabled@).contains(t) {
        Truth::True
    } else if names(cfg.disabled@).contains(t) {
        Truth::False
    } else {
        Truth::Unknown
    }
}

/// The truth of a predicate: `all`, `any` and `not` over their arguments; any other
/// predicate is an atom. A connective whose arguments did not parse, or a `not`
/// without exactly one argument, is unknown.
pub open spec fn eval(cfg: CfgSet, m: Meta) -> Truth
    decreases m, 0nat,
{
    if is_word(m.path@, "all"@) || is_word(m.path@, "any"@) || is_word(m.path@, "not"@) {
        match m.kind {
            MetaKind::List(Some(args)) => if is_word(m.path@, "all"@) {
                eval_all(cfg, args@, args@.len())
            } else if is_word(m.path@, "any"@) {
                eval_any(cfg, args@, args@.len())
            } else if args@.len() == 1 {
                not3(eval(cfg, args@[0]))
            } else {
                Truth::Unknown
            },
            MetaKind::List(None) => Truth::Unknown,
            _ => atom_truth(cfg, m.text@),
        }
    } else {
        atom_truth(cfg, m.text@)
    }
}

/// The conjunction of the first `n` predicates of `args`.
pub open spec fn eval_all(cfg: CfgSet, args: Seq<Meta>, n: nat) -> Truth
    decreases args, n,
{
    if n == 0 || n > args.len() {
        Truth::True
    } else {
        and3(eval_all(cfg, args, (n - 1) as nat), eval(cfg, args[n - 1]))
    }
}

/// The disjunction of the first `n` predicates of `args`.
pub open spec fn eval_any(cfg: CfgSet, args: Seq<Meta>, n: nat) -> Truth
    decreases args, n,
{
    if n == 0 || n > args.len() {
        Truth::False
    } else {
        or3(eval_any(cfg, args, (n - 1) as nat), eval(cfg, args[n - 1]))
    }
}

/// The truth of an atom whose text is `t`.
fn eval_atom(cfg: &CfgSet, t: &String) -> (r: Truth)
    ensures
        r == atom_truth(*cfg, t@),
{
    if contains_name(&cfg.enabled, t) {
        Truth::True
    } else if contains_name(&cfg.disabled, t) {
        Truth::False
    } else {
        Truth::Unknown
    }
}

/// The truth of the predicate `m`.
pub fn cfg_condition(cfg: &CfgSet, m: &Meta) -> (r: Truth)
    ensures
        r == eval(*cfg, *m),
    decreases m,
{
    let is_all = path_is_word(&m.path, "all");
    let is_any = path_is_word(&m.path, "any");
    let is_not = path_is_word(&m.path, "not");
    if is_all || is_any || is_not {
        match &m.kind {
            MetaKind::List(Some(args)) => {
                if is_all {
                    cfg_fold(cfg, args, true)
                } else if is_any {
                    cfg_fold(cfg, args, false)
                } else if args.len() == 1 {
                    match cfg_condition(cfg, &args[0]) {
                        Truth::True => Truth::False,
                        Truth::False => Truth::True,
                        Truth::Unknown => Truth::Unknown,
                    }
                } else {
                    Truth::Unknown
                }
            },
            MetaKind::List(None) => Truth::Unknown,
            _ => eval_atom(cfg, &m.text),
        }
    } else {
        eval_atom(cfg, &m.text)
    }
}

/// The conjunction (`all`) or the disjunction of the predicates of `args`.
fn cfg_fold(cfg: &CfgSet, args: &Vec<Meta>, all: bool) -> (r: Truth)
    ensures
        r == (if all {
            eval_all(*cfg, args@, args@.len())
        } else {
            eval_any(*cfg, args@, args@.len())
        }),
    decreases args,
{
    let mut acc = if all {
        Truth::True
    } else {
        Truth::False
    };
    let mut i: usize = 0;
    while i < args.len()
        invariant
            i <= args.len(),
            acc == (if all {
                eval_all(*cfg, args@, i as nat)
            } else {
                eval_any(*cfg, args@, i as nat)
            }),
        decreases args.len() - i,
    {
        let t = cfg_condition(cfg, &args[i]);
        acc = if all {
            if acc == Truth::False || t == Truth::False {
                Truth::False
            } else if acc == Truth::True && t == Truth::True {
                Truth::True
            } else {
                Truth::Unknown
            }
        } else {
            if acc == Truth::True || t == Truth::True {
                Truth::True
            } else if acc == Truth::False && t == Truth::False {
                Truth::False
            } else {
                Truth::Unknown
            }
        };
        i = i + 1;
    }
    acc
}


/// The predicate of a `cfg(..)` attribute.
pub open spec fn cfg_pred(a: Attr) -> Option<Meta> {
    if is_word(a.meta.path@, "cfg"@) {
        match a.meta.kind {
            MetaKind::List(Some(args)) => if args@.len() == 1 {
                Some(args@[0])
            } else {
                None
            },
            _ => None,
        }
    } else {
        None
    }
}

/// The arguments of a `cfg_attr(..)` attribute: its predicate, then the attributes it gates.
pub open spec fn cfg_attr_args(a: Attr) -> Option<Seq<Meta>> {
    if is_word(a.meta.path@, "cfg_attr"@) {
        match a.meta.kind {
            MetaKind::List(Some(args)) => if args@.len() >= 1 {
                Some(args@)
            } else {
                None
            },
            _ => None,
        }
    } else {
        None
    }
}

/// The conjunction of the `cfg` predicates among `attrs`.
pub open spec fn cfg_truth(cfg: CfgSet, attrs: Seq<Attr>) -> Truth
    decreases attrs.len(),
{
    if attrs.len() == 0 {
        Truth::True
    } else {
        and3(
            cfg_truth(cfg, attrs.drop_last()),
            match cfg_pred(attrs.last()) {
                Some(p) => eval(cfg, p),
                None => Truth::True,
            },
        )
    }
}

/// What stands for `a` once predicates are applied: a `cfg` known true goes; a
/// `cfg_attr` known true gives way to the attributes it gates, one known false goes;
/// the rest stay as they are.
pub open spec fn attr_out(cfg: CfgSet, a: Attr) -> Seq<Attr> {
    match cfg_pred(a) {
        Some(p) => if eval(cfg, p) == Truth::True {
            Seq::empty()
        } else {
            seq![a]
        },
        None => match cfg_attr_args(a) {
            Some(args) => match eval(cfg, args[0]) {
                Truth::True => args.drop_first().map_values(|m: Meta| Attr { outer: a.outer, meta: m }),
                Truth::False => Seq::empty(),
                Truth::Unknown => seq![a],
            },
            None => seq![a],
        },
    }
}

/// The attributes of `attrs` once predicates are applied, in order.
pub open spec fn pruned_attrs(cfg: CfgSet, attrs: Seq<Attr>) -> Seq<Attr>
    decreases attrs.len(),
{
    if attrs.len() == 0 {
        Seq::empty()
    } else {
        pruned_attrs(cfg, attrs.drop_last()) + attr_out(cfg, attrs.last())
    }
}

/// A declaration once its predicates are applied: removed when one is known false,
/// else kept with its attributes pruned.
pub open spec fn is_pruned(cfg: CfgSet, item: Item, r: Item) -> bool {
    if cfg_truth(cfg, item.attrs@) == Truth::False {
        r.kind == ItemKind::Removed && r.attrs@.len() == 0
    } else {
        r.kind == item.kind && r.attrs@ == pruned_attrs(cfg, item.attrs@)
    }
}

/// The predicate of `a` if it is a `cfg(..)` attribute.
fn cfg_predicate(a: &Attr) -> (r: Option<&Meta>)
    ensures
        r matches Some(p) ==> cfg_pred(*a) == Some(*p),
        r is None ==> cfg_pred(*a) is None,
{
    if path_is_word(&a.meta.path, "cfg") {
        match &a.meta.kind {
            MetaKind::List(Some(args)) => if args.len() == 1 {
                Some(&args[0])
            } else {
                None
            },
            _ => None,
        }
    } else {
        None
    }
}

/// Whether `a` is a `cfg_attr(..)` attribute with at least a predicate.
fn is_cfg_attr(a: &Attr) -> (r: bool)
    ensures
        r == cfg_attr_args(*a) is Some,
{
    if path_is_word(&a.meta.path, "cfg_attr") {
        match &a.meta.kind {
            MetaKind::List(Some(args)) => args.len() >= 1,
            _ => false,
        }
    } else {
        false
    }
}

/// Appends what stands for `a` once predicates are applied.
fn push_attr_out(cfg: &CfgSet, a: Attr, out: &mut Vec<Attr>)
    ensures
        final(out)@ == old(out)@ + attr_out(*cfg, a),
{
    let ghost a0 = a;
    match cfg_predicate(&a) {
        Some(p) => {
            if cfg_condition(cfg, p) != Truth::True {
                out.push(a);
                assert(out@ =~= old(out)@ + attr_out(*cfg, a0));
            } else {
                assert(out@ =~= old(out)@ + attr_out(*cfg, a0));
            }
            return ;
        },
        None => {},
    }
    if !is_cfg_attr(&a) {
        out.push(a);
        assert(out@ =~= old(out)@ + attr_out(*cfg, a0));
        return ;
    }
    let Attr { outer, meta } = a;
    let Meta { path, kind, text } = meta;
    match kind {
        MetaKind::List(Some(args)) => {
            let ghost all = args@;
            let t = cfg_condition(cfg, &args[0]);
            match t {
                Truth::True => {
                    let mut rest = args;
                    let _ = rest.remove(0);
                    let ghost tail = rest@;
                    assert(tail =~= all.drop_first());
                    let total = rest.len();
                    let ghost added = tail.map_values(|m: Meta| Attr { outer: outer, meta: m });
                    let ghost base = out@;
                    let mut i: usize = 0;
                    while rest.len() > 0
                        invariant
                            i + rest@.len() == tail.len(),
                            tail.len() == total,
                            added == tail.map_values(|m: Meta| Attr { outer: outer, meta: m }),
                            rest@ == tail.subrange(i as int, tail.len() as int),
                            out@ == base + added.subrange(0, i as int),
                        decreases rest.len(),
                    {
                        let ghost before = rest@;
                        let m = rest.remove(0);
                        assert(before[0] == tail[i as int]);
                        out.push(Attr { outer, meta: m });
                        assert(added.subrange(0, i + 1) =~= added.subrange(0, i as int).push(added[i as int]));
                        assert(rest@ =~= tail.subrange(i + 1, tail.len() as int));
                        i = i + 1;
                    }
                    assert(added.subrange(0, tail.len() as int) =~= added);
                },
                Truth::False => {
                    assert(out@ =~= old(out)@ + attr_out(*cfg, a0));
                },
                Truth::Unknown => {
                    out.push(Attr { outer, meta: Meta { path, kind: MetaKind::List(Some(args)), text } });
                    assert(out@ =~= old(out)@ + attr_out(*cfg, a0));
                },
            }
        },
        _ => {},
    }
}

/// Whether some `cfg` predicate of `attrs` is known false, and the attributes once
/// predicates are applied.
pub fn check_cfg(cfg: &CfgSet, attrs: Vec<Attr>) -> (r: (Truth, Vec<Attr>))
    ensures
        r.0 == cfg_truth(*cfg, attrs@),
        r.1@ == pruned_attrs(*cfg, attrs@),
{
    let ghost all = attrs@;
    let mut rest = attrs;
    let mut out: Vec<Attr> = Vec::new();
    let mut cond = Truth::True;
    let ghost mut k: int = 0;
    while rest.len() > 0
        invariant
            0 <= k <= all.len(),
            rest@ == all.subrange(k, all.len() as int),
            out@ == pruned_attrs(*cfg, all.subrange(0, k)),
            cond == cfg_truth(*cfg, all.subrange(0, k)),
        decreases rest.len(),
    {
        let ghost before = rest@;
        let a = rest.remove(0);
        assert(a == all[k]) by {
            assert(before[0] == a);
        }
        assert(all.subrange(0, k + 1).drop_last() =~= all.subrange(0, k));
        let t = match cfg_predicate(&a) {
            Some(p) => cfg_condition(cfg, p),
            None => Truth::True,
        };
        cond = if cond == Truth::False || t == Truth::False {
            Truth::False
        } else if cond == Truth::True && t == Truth::True {
            Truth::True
        } else {
            Truth::Unknown
        };
        push_attr_out(cfg, a, &mut out);
        proof {
            k = k + 1;
        }
        assert(rest@ =~= all.subrange(k, all.len() as int));
    }
    assert(all.subrange(0, all.len() as int) =~= all);
    (cond, out)
}

/// Applies the predicates of a declaration: removes it when one is known false,
/// else prunes its attributes.
pub fn prune_item(cfg: &CfgSet, item: Item) -> (r: Item)
    ensures
        is_pruned(*cfg, item, r),
{
    let Item { attrs, kind } = item;
    let (cond, attrs) = check_cfg(cfg, attrs);
    if cond == Truth::False {
        Item { attrs: Vec::new(), kind: ItemKind::Removed }
    } else {
        Item { attrs, kind }
    }
}

/// With `x` enabled: a declaration under `cfg(x)` stays and its predicate goes; one
/// under `cfg(not(x))` is removed; one under `cfg(y)`, for an atom `y` that is
/// neither enabled nor disabled, stays with its predicate attached.
pub proof fn lemma_cfg_enable_set(
    cfg: CfgSet,
    x: Meta,
    y: Meta,
    n: Meta,
    nargs: Vec<Meta>,
    on_x: Item,
    on_not_x: Item,
    on_y: Item,
    r_x: Item,
    r_not_x: Item,
    r_y: Item,
)
    requires
        names(cfg.enabled@).contains(x.text@),
        !names(cfg.enabled@).contains(y.text@),
        !names(cfg.disabled@).contains(y.text@),
        !is_word(x.path@, "all"@) && !is_word(x.path@, "any"@) && !is_word(x.path@, "not"@),
        !is_word(y.path@, "all"@) && !is_word(y.path@, "any"@) && !is_word(y.path@, "not"@),
        on_x.attrs@.len() == 1 && cfg_pred(on_x.attrs@[0]) == Some(x),
        on_y.attrs@.len() == 1 && cfg_pred(on_y.attrs@[0]) == Some(y),
        on_not_x.attrs@.len() == 1,
        cfg_pred(on_not_x.attrs@[0]) == Some(n),
        is_word(n.path@, "not"@),
        n.kind == MetaKind::List(Some(nargs)),
        nargs@ == seq![x],
        is_pruned(cfg, on_x, r_x),
        is_pruned(cfg, on_not_x, r_not_x),
        is_pruned(cfg, on_y, r_y),
    ensures
        r_x.kind == on_x.kind && r_x.attrs@.len() == 0,
        r_not_x.kind == ItemKind::Removed,
        r_y.kind == on_y.kind && r_y.attrs@ == on_y.attrs@,
{
    reveal_strlit("all");
    reveal_strlit("any");
    reveal_strlit("not");
    assert(eval(cfg, x) == Truth::True);
    assert(eval(cfg, y) == Truth::Unknown);
    assert(nargs@[0] == x);
    assert(!is_word(n.path@, "all"@)) by {
        assert("not"@[0] != "all"@[0]);
    }
    assert(!is_word(n.path@, "any"@)) by {
        assert("not"@[0] != "any"@[0]);
    }
    assert(eval(cfg, n) == Truth::False);
    assert(on_x.attrs@.drop_last() =~= Seq::<Attr>::empty());
    assert(on_not_x.attrs@.drop_last() =~= Seq::<Attr>::empty());
    assert(on_y.attrs@.drop_last() =~= Seq::<Attr>::empty());
    assert(pruned_attrs(cfg, Seq::<Attr>::empty()) =~= Seq::<Attr>::empty());
    assert(cfg_truth(cfg, Seq::<Attr>::empty()) == Truth::True);
    assert(pruned_attrs(cfg, on_x.attrs@) =~= Seq::<Attr>::empty());
    assert(pruned_attrs(cfg, on_y.attrs@) =~= on_y.attrs@);
}

} // verus!
