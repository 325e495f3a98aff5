//! Checking snippets: each is bundled with everything it depends on and handed to a
//! compiler on its own. A run passes when every dependency name of every snippet
//! names a snippet of the map and every bundle compiles.

use crate::map::{bundle_text, names, LinkedSnippet, SnippetMap};
use vstd::prelude::*;

verus! {

/// The names among `deps` that `m` lacks, in order.
pub open spec fn missing_of(m: Map<Seq<char>, crate::map::Fragment>, deps: Seq<Seq<char>>) -> Seq<Seq<char>> {
    deps.filter(|d: Seq<char>| !m.contains_key(d))
}

/// What one snippet needs checked: its name, the dependency names the map lacks, and
/// its bundle with no guard comments.
#[derive(Clone, Debug)]
pub struct CheckUnit {
    pub name: String,
    pub missing: Vec<String>,
    pub contents: String,
}

/// How one snippet fared: the dependency names the map lacks, and whether its bundle compiled.
#[derive(Clone, Debug)]
pub struct UnitResult {
    pub missing: usize,
    pub compiled: bool,
}

/// One snippet passed: nothing was missing and its bundle compiled.
pub open spec fn unit_ok(u: UnitResult) -> bool {
    u.missing == 0 && u.compiled
}

/// Every snippet passed.
pub open spec fn all_ok(us: Seq<UnitResult>) -> bool {
    forall|i: int| 0 <= i < us.len() ==> unit_ok(#[trigger] us[i])
}

impl SnippetMap {
    /// The dependency names of `link` that the map lacks, in order.
    pub fn missing_includes(&self, link: &LinkedSnippet) -> (r: Vec<String>)
        requires
            self.wf(),
        ensures
            names(r@) == missing_of(self@, names(link.includes@)),
    {
        let mut r: Vec<String> = Vec::new();
        let ghost deps = names(link.includes@);
        let mut i: usize = 0;
        while i < link.includes.len()
            invariant
                self.wf(),
                i <= link.includes@.len(),
                deps == names(link.includes@),
                names(r@) == missing_of(self@, deps.subrange(0, i as int)),
            decreases link.includes.len() - i,
        {
            let d = &link.includes[i];
            proof {
                reveal(Seq::filter);
            }
            let ghost pre = deps.subrange(0, i as int);
            assert(deps.subrange(0, i + 1) =~= pre.push(d@));
            assert(pre.push(d@).drop_last() =~= pre);
            if self.get(d.as_str()).is_none() {
                let ghost b = names(r@);
                r.push(d.clone());
                assert(names(r@) =~= b.push(d@));
            }
            i = i + 1;
        }
        assert(deps.subrange(0, deps.len() as int) =~= deps);
        r
    }

    /// What the snippet at position `i` needs checked.
    pub fn check_unit(&self, i: usize) -> (r: CheckUnit)
        requires
            self.wf(),
            i < self.map@.len(),
        ensures
            r.name@ == self.map@[i as int].0@,
            names(r.missing@) == missing_of(self@, names(self.map@[i as int].1.includes@)),
            r.contents@ == bundle_text(self.map@, r.name@, self.map@[i as int].1@, Set::empty(), false),
    {
        let name = self.map[i].0.clone();
        let link = &self.map[i].1;
        let missing = self.missing_includes(link);
        let none: Vec<String> = Vec::new();
        assert(names(none@).to_set() =~= Set::<Seq<char>>::empty());
        let contents = self.bundle(name.as_str(), link, none, false);
        CheckUnit { name, missing, contents }
    }
}

/// Whether a run passed: every snippet had all its dependencies and compiled.
pub fn run_passed(results: &Vec<UnitResult>) -> (r: bool)
    ensures
        r == all_ok(results@),
{
    let mut i: usize = 0;
    while i < results.len()
        invariant
            i <= results@.len(),
            forall|j: int| 0 <= j < i ==> unit_ok(#[trigger] results@[j]),
        decreases results.len() - i,
    {
        if !(results[i].missing == 0 && results[i].compiled) {
            assert(!unit_ok(results@[i as int]));
            return false;
        }
        i = i + 1;
    }
    true
}

/// Whether a run passed does not depend on the order in which its snippets finished:
/// any two orderings of the same results agree.
pub proof fn lemma_run_order_free(a: Seq<UnitResult>, b: Seq<UnitResult>)
    requires
        a.to_multiset() == b.to_multiset(),
    ensures
        all_ok(a) == all_ok(b),
{
    a.to_multiset_ensures();
    b.to_multiset_ensures();
    if all_ok(a) && !all_ok(b) {
        let j = choose|j: int| 0 <= j < b.len() && !unit_ok(#[trigger] b[j]);
        assert(b.to_multiset().count(b[j]) > 0);
        assert(a.contains(b[j]));
    }
    if all_ok(b) && !all_ok(a) {
        let j = choose|j: int| 0 <= j < a.len() && !unit_ok(#[trigger] a[j]);
        assert(a.to_multiset().count(a[j]) > 0);
        assert(b.contains(a[j]));
    }
}

/// A snippet that depends on a name the map lacks still bundles, its own text and
/// nothing for the missing name, but its check reports that name, so the run fails.
pub proof fn lemma_unknown_dependency(
    s: Seq<(String, LinkedSnippet)>,
    name: Seq<char>,
    x: Seq<char>,
    deps: Seq<Seq<char>>,
    results: Seq<UnitResult>,
    k: int,
)
    requires
        crate::map::unique_names(s),
        crate::map::map_of(s).contains_key(name),
        !crate::map::map_of(s).contains_key(x),
        crate::map::map_of(s)[name].includes == set![x],
        deps.to_set() == set![x],
        0 <= k < results.len(),
        results[k].missing == missing_of(crate::map::map_of(s), deps).len(),
    ensures
        bundle_text(s, name, crate::map::map_of(s)[name], Set::empty(), false) == crate::map::map_of(s)[name].contents,
        missing_of(crate::map::map_of(s), deps).contains(x),
        !all_ok(results),
{
    let m = crate::map::map_of(s);
    let order = crate::map::bundle_order(s, name, m[name], Set::empty());
    crate::map::lemma_filtered_names(s, crate::map::is_unit(m, name, m[name], Set::empty()));
    if order.len() > 0 {
        assert(order.contains(order[0]));
        let p = choose|p: Seq<Seq<char>>|
            #[trigger] crate::map::is_dep_path(m, Set::<Seq<char>>::empty().insert(name), m[name].includes, p)
                && p.last() == order[0];
        assert(m[name].includes.contains(p[0]));
        assert(p[0] == x);
        if p.len() > 1 {
            assert(crate::map::dep_step(m, Set::<Seq<char>>::empty().insert(name), p[1 - 1], p[1]));
        }
        assert(order[0] == x);
    }
    assert(crate::map::bundle_head(name, m[name], false) =~= m[name].contents);
    assert(deps.contains(x)) by {
        assert(deps.to_set().contains(x));
    }
    let f = |d: Seq<char>| !m.contains_key(d);
    deps.lemma_filter_contains_rev(f, x);
    assert(missing_of(m, deps).contains(x));
    assert(missing_of(m, deps).len() > 0);
    assert(!unit_ok(results[k]));
}

} // verus!
