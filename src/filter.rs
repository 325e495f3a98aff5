//! Which declarations and attributes are left out when a snippet's text is written.

use crate::syntax::{attr_text, attrs_text, path_view, same_path, Attr, Item, ItemKind};
use vstd::prelude::*;

verus! {

/// Patterns of attribute paths: those of `filter_attr` are stripped from the
/// declarations kept, and a declaration that carries one of `filter_item` is left out.
#[derive(Clone, Debug)]
pub struct Filter {
    pub filter_attr: Vec<Vec<String>>,
    pub filter_item: Vec<Vec<String>>,
}

impl Filter {
    /// A filter from its two lists of patterns.
    pub fn new(filter_attr: Vec<Vec<String>>, filter_item: Vec<Vec<String>>) -> (r: Self)
        ensures
            r.filter_attr == filter_attr,
            r.filter_item == filter_item,
    {
        Filter { filter_attr, filter_item }
    }
}

/// Whether the path `p` is `codesnip::<last>`.
pub open spec fn is_marker(p: Seq<String>, last: Seq<char>) -> bool {
    p.len() == 2 && p[0]@ == "codesnip"@ && p[1]@ == last
}

/// Whether the path `p` is one of `pats`.
pub open spec fn in_paths(pats: Seq<Vec<String>>, p: Seq<String>) -> bool {
    exists|i: int| 0 <= i < pats.len() && path_view(#[trigger] pats[i]@) == path_view(p)
}

/// Whether an attribute asks that its declaration be left out.
pub open spec fn skip_attr(f: Filter, a: Attr) -> bool {
    is_marker(a.meta.path@, "skip"@) || in_paths(f.filter_item@, a.meta.path@)
}

/// Whether a declaration with these attributes is left out.
pub open spec fn skips(f: Filter, attrs: Seq<Attr>) -> bool {
    exists|i: int| 0 <= i < attrs.len() && skip_attr(f, #[trigger] attrs[i])
}

/// Whether an attribute is kept when its declaration is written.
pub open spec fn kept_attr(f: Filter) -> spec_fn(Attr) -> bool {
    |a: Attr| !(is_marker(a.meta.path@, "entry"@) || in_paths(f.filter_attr@, a.meta.path@))
}

/// The text of a declaration once filtered: nothing when it is left out, else its
/// kept attributes and the rest, with the declarations inside a module filtered in turn.
pub open spec fn filtered_text(f: Filter, item: Item) -> Seq<char>
    decreases item, 0nat,
{
    if skips(f, item.attrs@) {
        Seq::empty()
    } else {
        let attrs = item.attrs@.filter(kept_attr(f));
        attrs_text(attrs, true) + match item.kind {
            ItemKind::Mod { head, content, .. } => match content {
                Some(c) => head@ + "{ "@ + attrs_text(attrs, false) + filtered_list_text(f, c@, c@.len())
                    + "}"@,
                None => head@ + ";"@,
            },
            ItemKind::Other { body, .. } => body@,
            ItemKind::Removed => Seq::empty(),
        }
    }
}

/// The filtered text of the first `n` declarations of `items`, one after another.
pub open spec fn filtered_list_text(f: Filter, items: Seq<Item>, n: nat) -> Seq<char>
    decreases items, n,
{
    if n == 0 || n > items.len() {
        Seq::empty()
    } else {
        filtered_list_text(f, items, (n - 1) as nat) + (if skips(f, items[n - 1].attrs@) {
            Seq::empty()
        } else {
            filtered_text(f, items[n - 1]) + seq![' ']
        })
    }
}

/// Whether the path `p` is `codesnip::<last>`.
pub fn path_is_marker(p: &Vec<String>, last: &str) -> (r: bool)
    ensures
        r == is_marker(p@, last@),
{
    p.len() == 2 && p[0] == "codesnip".to_owned() && p[1] == last.to_owned()
}

/// Whether the path `p` is one of `pats`.
fn path_in(pats: &Vec<Vec<String>>, p: &Vec<String>) -> (r: bool)
    ensures
        r == in_paths(pats@, p@),
{
    let mut i: usize = 0;
    while i < pats.len()
        invariant
            i <= pats.len(),
            forall|j: int| 0 <= j < i ==> path_view(#[trigger] pats@[j]@) != path_view(p@),
        decreases pats.len() - i,
    {
        if same_path(&pats[i], p) {
            return true;
        }
        i = i + 1;
    }
    false
}

impl Filter {
    /// Whether a declaration with these attributes is left out: it is marked
    /// `codesnip::skip` or carries one of the item patterns.
    pub fn is_skip_item(&self, attrs: &Vec<Attr>) -> (r: bool)
        ensures
            r == skips(*self, attrs@),
    {
        let mut i: usize = 0;
        while i < attrs.len()
            invariant
                i <= attrs.len(),
                forall|j: int| 0 <= j < i ==> !skip_attr(*self, #[trigger] attrs@[j]),
            decreases attrs.len() - i,
        {
            if path_is_marker(&attrs[i].meta.path, "skip") || path_in(&self.filter_item, &attrs[i].meta.path) {
                assert(skip_attr(*self, attrs@[i as int]));
                return true;
            }
            i = i + 1;
        }
        false
    }

    /// Whether an attribute is kept when its declaration is written.
    pub fn keeps_attr(&self, a: &Attr) -> (r: bool)
        ensures
            r == kept_attr(*self)(*a),
    {
        !(path_is_marker(&a.meta.path, "entry") || path_in(&self.filter_attr, &a.meta.path))
    }

    /// Appends the text of the kept attributes of `attrs` that are outer (`outer`) or inner.
    fn push_kept_attrs(&self, out: &mut String, attrs: &Vec<Attr>, outer: bool)
        ensures
            final(out)@ == old(out)@ + attrs_text(attrs@.filter(kept_attr(*self)), outer),
    {
        let mut i: usize = 0;
        while i < attrs.len()
            invariant
                i <= attrs.len(),
                out@ == old(out)@ + attrs_text(attrs@.subrange(0, i as int).filter(kept_attr(*self)), outer),
            decreases attrs.len() - i,
        {
            proof {
                reveal_strlit(" ");
                reveal_strlit("#[");
                reveal_strlit("#![");
                reveal_strlit("]");
                reveal(Seq::filter);
            }
            let ghost pre = attrs@.subrange(0, i as int);
            let ghost kept = pre.filter(kept_attr(*self));
            assert(attrs@.subrange(0, i + 1).drop_last() =~= pre);
            if self.keeps_attr(&attrs[i]) {
                assert(attrs@.subrange(0, i + 1).filter(kept_attr(*self)) == kept.push(attrs@[i as int]));
                assert(kept.push(attrs@[i as int]).drop_last() =~= kept);
                if attrs[i].outer == outer {
                    if outer {
                        out.append("#[");
                    } else {
                        out.append("#![");
                    }
                    out.append(attrs[i].meta.text.as_str());
                    out.append("]");
                    out.append(" ");
                }
            }
            i = i + 1;
            assert(out@ =~= old(out)@ + attrs_text(attrs@.subrange(0, i as int).filter(kept_attr(*self)), outer));
        }
        assert(attrs@.subrange(0, attrs@.len() as int) =~= attrs@);
    }

    /// Appends the filtered text of a declaration.
    pub fn push_filtered(&self, out: &mut String, item: &Item)
        ensures
            final(out)@ == old(out)@ + filtered_text(*self, *item),
        decreases item,
    {
        proof {
            reveal_strlit("{ ");
            reveal_strlit("}");
            reveal_strlit(";");
        }
        let ghost start = out@;
        if self.is_skip_item(&item.attrs) {
            assert(out@ =~= start + filtered_text(*self, *item));
            return ;
        }
        self.push_kept_attrs(out, &item.attrs, true);
        match &item.kind {
            ItemKind::Mod { head, content, .. } => {
                out.append(head.as_str());
                match content {
                    Some(c) => {
                        out.append("{ ");
                        self.push_kept_attrs(out, &item.attrs, false);
                        self.push_filtered_list(out, c);
                        out.append("}");
                    },
                    None => {
                        out.append(";");
                    },
                }
            },
            ItemKind::Other { body, .. } => {
                out.append(body.as_str());
            },
            ItemKind::Removed => {},
        }
        assert(out@ =~= start + filtered_text(*self, *item));
    }

    /// Appends the filtered text of each declaration of `items`, in order.
    pub fn push_filtered_list(&self, out: &mut String, items: &Vec<Item>)
        ensures
            final(out)@ == old(out)@ + filtered_list_text(*self, items@, items@.len()),
        decreases items,
    {
        let mut i: usize = 0;
        while i < items.len()
            invariant
                i <= items.len(),
                out@ == old(out)@ + filtered_list_text(*self, items@, i as nat),
            decreases items.len() - i,
        {
            proof {
                reveal_strlit(" ");
            }
            if !self.is_skip_item(&items[i].attrs) {
                self.push_filtered(out, &items[i]);
                out.append(" ");
            }
            i = i + 1;
            assert(out@ =~= old(out)@ + filtered_list_text(*self, items@, i as nat));
        }
    }
}

/// Taking a declaration that asks to be left out away from a list leaves the
/// filtered text of every prefix of the list as it was: such a declaration never
/// reaches a snippet's text, at any depth of modules.
pub proof fn lemma_skipped_never_written(f: Filter, items: Seq<Item>, i: int, n: nat)
    requires
        0 <= i < items.len(),
        skips(f, items[i].attrs@),
        n <= items.len(),
    ensures
        n <= i ==> filtered_list_text(f, items, n) == filtered_list_text(f, items.remove(i), n),
        n > i ==> filtered_list_text(f, items, n) == filtered_list_text(f, items.remove(i), (n - 1) as nat),
    decreases n,
{
    let r = items.remove(i);
    if n == 0 {
    } else if n <= i {
        lemma_skipped_never_written(f, items, i, (n - 1) as nat);
        assert(r[n - 1] == items[n - 1]);
    } else if n == i + 1 {
        lemma_skipped_never_written(f, items, i, (n - 1) as nat);
    } else {
        lemma_skipped_never_written(f, items, i, (n - 1) as nat);
        assert(r[n - 2] == items[n - 1]);
    }
}

} // verus!
