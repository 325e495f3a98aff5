//! Collecting snippets: a walk of the declaration tree that appends, for each entry
//! annotation, the filtered text it names to the snippet of that name.

use crate::entry::{entry_of, opt_name, parse_entry, Entry, EntryModel};
use crate::filter::{filtered_list_text, filtered_text, skips, Filter};
use crate::map::{merged_entry, Fragment, LinkedSnippet, SnippetMap};
use crate::syntax::{Item, ItemKind};
use vstd::prelude::*;

verus! {

/// A declaration's own name, if it has one.
pub open spec fn own_name(item: Item) -> Option<Seq<char>> {
    match item.kind {
        ItemKind::Mod { ident, .. } => Some(ident@),
        ItemKind::Other { name, .. } => opt_name(name),
        ItemKind::Removed => None,
    }
}

/// The text that the entry `e` takes from `item`: for an inline module, the filtered
/// text of its declarations (nothing if the module itself is left out); else the
/// filtered text of the whole declaration.
pub open spec fn entry_text(f: Filter, e: EntryModel, item: Item) -> Seq<char> {
    match item.kind {
        ItemKind::Mod { content, .. } => if e.inline {
            if skips(f, item.attrs@) {
                Seq::empty()
            } else {
                match content {
                    Some(c) => filtered_list_text(f, c@, c@.len()),
                    None => Seq::empty(),
                }
            }
        } else {
            filtered_text(f, item)
        },
        _ => filtered_text(f, item),
    }
}

/// What the entry `e` contributes to its snippet from `item`.
pub open spec fn entry_fragment(f: Filter, e: EntryModel, item: Item) -> Fragment {
    Fragment { contents: entry_text(f, e, item), includes: e.deps.to_set() }
}

/// A declaration that asks to be left out gives no text to any entry it carries,
/// inline or not: its entries' snippets grow by nothing.
pub proof fn lemma_skipped_entry_adds_nothing(f: Filter, e: EntryModel, item: Item)
    requires
        skips(f, item.attrs@),
    ensures
        entry_text(f, e, item) == Seq::<char>::empty(),
{
}

/// `m` after the entry annotations among the first `n` attributes of `item`.
pub open spec fn collect_attrs(f: Filter, m: Map<Seq<char>, Fragment>, item: Item, n: nat) -> Map<
    Seq<char>,
    Fragment,
>
    decreases n,
{
    if n == 0 || n > item.attrs@.len() {
        m
    } else {
        let m1 = collect_attrs(f, m, item, (n - 1) as nat);
        match entry_of(item.attrs@[n - 1], own_name(item)) {
            Some(e) => merged_entry(m1, e.name, entry_fragment(f, e, item)),
            None => m1,
        }
    }
}

/// `m` after collecting from `item`: its own entry annotations first, then the
/// declarations inside it, in order.
pub open spec fn collected(f: Filter, m: Map<Seq<char>, Fragment>, item: Item) -> Map<Seq<char>, Fragment>
    decreases item, 0nat,
{
    let m1 = collect_attrs(f, m, item, item.attrs@.len());
    match item.kind {
        ItemKind::Mod { content, .. } => match content {
            Some(c) => collected_list(f, m1, c@, c@.len()),
            None => m1,
        },
        _ => m1,
    }
}

/// `m` after collecting from the first `n` declarations of `items`, in order.
pub open spec fn collected_list(f: Filter, m: Map<Seq<char>, Fragment>, items: Seq<Item>, n: nat) -> Map<
    Seq<char>,
    Fragment,
>
    decreases items, n,
{
    if n == 0 || n > items.len() {
        m
    } else {
        collected(f, collected_list(f, m, items, (n - 1) as nat), items[n - 1])
    }
}

/// A declaration's own name, if it has one.
fn own_name_of(item: &Item) -> (r: Option<&String>)
    ensures
        crate::entry::ref_name(r) == own_name(*item),
{
    match &item.kind {
        ItemKind::Mod { ident, .. } => Some(ident),
        ItemKind::Other { name, .. } => match name {
            Some(n) => Some(n),
            None => None,
        },
        ItemKind::Removed => None,
    }
}

impl LinkedSnippet {
    /// Appends the filtered text of `item`: nothing if it is left out.
    pub fn push_item_with_filter(&mut self, item: &Item, filter: &Filter)
        ensures
            final(self).contents@ == old(self).contents@ + filtered_text(*filter, *item),
            final(self).includes == old(self).includes,
    {
        filter.push_filtered(&mut self.contents, item);
    }
}

impl SnippetMap {
    /// Collects the snippets that `item` and the declarations inside it name.
    pub fn extend_with_filter(&mut self, item: &Item, filter: &Filter)
        requires
            old(self).wf(),
        ensures
            final(self).wf(),
            final(self)@ == collected(*filter, old(self)@, *item),
        decreases item,
    {
        let own = own_name_of(item);
        let mut i: usize = 0;
        while i < item.attrs.len()
            invariant
                self.wf(),
                i <= item.attrs@.len(),
                crate::entry::ref_name(own) == own_name(*item),
                self@ == collect_attrs(*filter, old(self)@, *item, i as nat),
            decreases item.attrs.len() - i,
        {
            match parse_entry(&item.attrs[i], own) {
                Some(e) => {
                    let ghost em = e@;
                    let mut link = LinkedSnippet::new();
                    let is_mod = match &item.kind {
                        ItemKind::Mod { .. } => true,
                        _ => false,
                    };
                    if e.inline && is_mod {
                        if !filter.is_skip_item(&item.attrs) {
                            match &item.kind {
                                ItemKind::Mod { content: Some(c), .. } => {
                                    filter.push_filtered_list(&mut link.contents, c);
                                },
                                _ => {},
                            }
                        }
                    } else {
                        link.push_item_with_filter(item, filter);
                    }
                    assert(link.contents@ =~= entry_text(*filter, em, *item));
                    let Entry { name, deps, inline: _ } = e;
                    link.push_includes(deps);
                    assert(link@.includes =~= em.deps.to_set());
                    self.merge_entry(name, link);
                },
                None => {},
            }
            i = i + 1;
        }
        match &item.kind {
            ItemKind::Mod { content: Some(c), .. } => {
                self.collect_entries(c, filter);
            },
            _ => {},
        }
    }

    /// Collects the snippets that the declarations of `items` name, in order.
    pub fn collect_entries(&mut self, items: &Vec<Item>, filter: &Filter)
        requires
            old(self).wf(),
        ensures
            final(self).wf(),
            final(self)@ == collected_list(*filter, old(self)@, items@, items@.len()),
        decreases items,
    {
        let mut i: usize = 0;
        while i < items.len()
            invariant
                self.wf(),
                i <= items@.len(),
                self@ == collected_list(*filter, old(self)@, items@, i as nat),
            decreases items.len() - i,
        {
            self.extend_with_filter(&items[i], filter);
            i = i + 1;
        }
    }
}


impl SnippetMap {
    /// The snippets that the declarations of one source name; with a `prefix`, each
    /// name is written `prefix_name`.
    pub fn from_items(items: &Vec<Item>, filter: &Filter, prefix: Option<&str>) -> (r: SnippetMap)
        ensures
            r.wf(),
            prefix is None ==> r@ == collected_list(*filter, Map::empty(), items@, items@.len()),
            prefix matches Some(p) ==> exists|m: SnippetMap|
                m.wf() && m@ == collected_list(*filter, Map::empty(), items@, items@.len()) && r.map@.len()
                    == m.map@.len() && forall|i: int|
                    0 <= i < r.map@.len() ==> (#[trigger] r.map@[i]).0@ == p@ + seq!['_'] + m.map@[i].0@
                        && r.map@[i].1 == m.map@[i].1,
    {
        let mut m = SnippetMap::new();
        m.collect_entries(items, filter);
        match prefix {
            Some(p) => {
                let ghost m0 = m;
                let r = m.with_prefix(p);
                assert(m0.wf() && m0@ == collected_list(*filter, Map::empty(), items@, items@.len()));
                r
            },
            None => m,
        }
    }
}

} // verus!
