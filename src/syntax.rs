//! The declarations that the library reads, as a tree of its own: attributes with
//! their argument trees, modules with their children, and every other declaration
//! as its text.

use vstd::prelude::*;

verus! {

/// A literal among an attribute's arguments.
#[derive(Debug)]
pub enum Lit {
    /// A string literal, by its value.
    Str(String),
    /// Any other literal, by its text.
    Other(String),
}

/// The shape of an attribute argument.
#[derive(Debug)]
pub enum MetaKind {
    /// A bare path: `inline`, `test`.
    Word,
    /// A path with a parenthesised list: `all(a, b)`. `None` when the list is not a
    /// comma-separated list of arguments.
    List(Option<Vec<Meta>>),
    /// `path = literal`.
    NameValue(Lit),
    /// A literal standing alone in a list: `"name"`.
    Lit(Lit),
}

/// An attribute argument: its path (segment by segment; empty for a literal), its
/// shape, and its text.
#[derive(Debug)]
pub struct Meta {
    pub path: Vec<String>,
    pub kind: MetaKind,
    pub text: String,
}

/// An attribute: whether it is outer (`#[..]`) or inner (`#![..]`), and what it holds.
#[derive(Debug)]
pub struct Attr {
    pub outer: bool,
    pub meta: Meta,
}

/// The text of an attribute.
pub open spec fn attr_text(a: Attr) -> Seq<char> {
    (if a.outer {
        "#["@
    } else {
        "#!["@
    }) + a.meta.text@ + "]"@
}

/// The part of a declaration after its attributes.
#[derive(Debug)]
pub enum ItemKind {
    /// A module: `head` is its text up to the body (`pub mod name`), `content` its
    /// declarations, `None` while they stand in a file of their own.
    Mod { head: String, ident: String, content: Option<Vec<Item>> },
    /// Any other declaration: its own name if it has one, and its text.
    Other { name: Option<String>, body: String },
    /// A declaration removed by its conditional-compile predicate.
    Removed,
}

/// A declaration with its attributes.
#[derive(Debug)]
pub struct Item {
    pub attrs: Vec<Attr>,
    pub kind: ItemKind,
}

/// The segments of a path, as text.
pub open spec fn path_view(p: Seq<String>) -> Seq<Seq<char>> {
    p.map_values(|s: String| s@)
}

/// Whether the path `p` is the single segment `word`.
pub open spec fn is_word(p: Seq<String>, word: Seq<char>) -> bool {
    p.len() == 1 && p[0]@ == word
}

/// Whether two paths are the same, segment by segment.
pub fn same_path(a: &Vec<String>, b: &Vec<String>) -> (r: bool)
    ensures
        r == (path_view(a@) == path_view(b@)),
{
    if a.len() != b.len() {
        assert(path_view(a@).len() != path_view(b@).len());
        return false;
    }
    let mut i: usize = 0;
    while i < a.len()
        invariant
            a@.len() == b@.len(),
            i <= a.len(),
            forall|j: int| 0 <= j < i ==> a@[j]@ == b@[j]@,
        decreases a.len() - i,
    {
        if a[i] != b[i] {
            assert(path_view(a@)[i as int] != path_view(b@)[i as int]);
            return false;
        }
        i = i + 1;
    }
    assert(path_view(a@) =~= path_view(b@));
    true
}

/// Whether the path `p` is the single segment `word`.
pub fn path_is_word(p: &Vec<String>, word: &str) -> (r: bool)
    ensures
        r == is_word(p@, word@),
{
    p.len() == 1 && p[0] == word.to_owned()
}

/// The text of the attributes of `attrs` that are outer (`outer`) or inner.
pub open spec fn attrs_text(attrs: Seq<Attr>, outer: bool) -> Seq<char>
    decreases attrs.len(),
{
    if attrs.len() == 0 {
        Seq::empty()
    } else {
        attrs_text(attrs.drop_last(), outer) + (if attrs.last().outer == outer {
            attr_text(attrs.last()) + seq![' ']
        } else {
            Seq::empty()
        })
    }
}

/// The text of a declaration: its outer attributes, then the rest.
pub open spec fn render_item(item: Item) -> Seq<char>
    decreases item, 0nat,
{
    attrs_text(item.attrs@, true) + match item.kind {
        ItemKind::Mod { head, content, .. } => match content {
            Some(c) => head@ + "{ "@ + attrs_text(item.attrs@, false) + render_items(c@, c@.len()) + "}"@,
            None => head@ + ";"@,
        },
        ItemKind::Other { body, .. } => body@,
        ItemKind::Removed => Seq::empty(),
    }
}

/// The text of the first `n` declarations of `items`, one after another.
pub open spec fn render_items(items: Seq<Item>, n: nat) -> Seq<char>
    decreases items, n,
{
    if n == 0 || n > items.len() {
        Seq::empty()
    } else {
        render_items(items, (n - 1) as nat) + render_item(items[n - 1]) + seq![' ']
    }
}


/// Appends the text of the attributes of `attrs` that are outer (`outer`) or inner.
fn push_attrs(out: &mut String, attrs: &Vec<Attr>, outer: bool)
    ensures
        final(out)@ == old(out)@ + attrs_text(attrs@, outer),
{
    proof {
        reveal_strlit(" ");
    }
    let mut i: usize = 0;
    while i < attrs.len()
        invariant
            i <= attrs.len(),
            out@ == old(out)@ + attrs_text(attrs@.subrange(0, i as int), outer),
        decreases attrs.len() - i,
    {
        proof {
            reveal_strlit(" ");
            reveal_strlit("#[");
            reveal_strlit("#![");
            reveal_strlit("]");
        }
        let ghost pre = attrs@.subrange(0, i as int);
        assert(attrs@.subrange(0, i + 1).drop_last() =~= pre);
        if attrs[i].outer == outer {
            if outer {
                out.append("#[");
            } else {
                out.append("#![");
            }
            out.append(attrs[i].meta.text.as_str());
            out.append("]");
            out.append(" ");
        }
        i = i + 1;
        assert(out@ =~= old(out)@ + attrs_text(attrs@.subrange(0, i as int), outer));
    }
    assert(attrs@.subrange(0, attrs@.len() as int) =~= attrs@);
}

/// Appends the text of a declaration.
pub fn push_rendered(out: &mut String, item: &Item)
    ensures
        final(out)@ == old(out)@ + render_item(*item),
    decreases item,
{
    proof {
        reveal_strlit("{ ");
        reveal_strlit("}");
        reveal_strlit(";");
    }
    let ghost start = out@;
    push_attrs(out, &item.attrs, true);
    match &item.kind {
        ItemKind::Mod { head, content, .. } => {
            out.append(head.as_str());
            match content {
                Some(c) => {
                    out.append("{ ");
                    push_attrs(out, &item.attrs, false);
                    push_rendered_list(out, c);
                    out.append("}");
                },
                None => {
                    out.append(";");
                },
            }
        },
        ItemKind::Other { body, .. } => {
            out.append(body.as_str());
        },
        ItemKind::Removed => {},
    }
    assert(out@ =~= start + render_item(*item));
}

/// Appends the text of each declaration of `items`, in order.
pub fn push_rendered_list(out: &mut String, items: &Vec<Item>)
    ensures
        final(out)@ == old(out)@ + render_items(items@, items@.len()),
    decreases items,
{
    let mut i: usize = 0;
    while i < items.len()
        invariant
            i <= items.len(),
            out@ == old(out)@ + render_items(items@, i as nat),
        decreases items.len() - i,
    {
        proof {
            reveal_strlit(" ");
        }
        push_rendered(out, &items[i]);
        out.append(" ");
        i = i + 1;
        assert(out@ =~= old(out)@ + render_items(items@, i as nat));
    }
}

/// The text of a declaration.
pub fn render(item: &Item) -> (r: String)
    ensures
        r@ == render_item(*item),
{
    let mut out = String::new();
    push_rendered(&mut out, item);
    assert(out@ =~= render_item(*item));
    out
}

} // verus!
