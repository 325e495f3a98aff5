//! The snippet map: named fragments of text, each with the names it depends on.

use vstd::prelude::*;

verus! {

broadcast use vstd::seq_lib::lemma_seq_contains_after_push;

/// The names held by a list of strings.
pub open spec fn names(v: Seq<String>) -> Seq<Seq<char>> {
    v.map_values(|s: String| s@)
}

/// What a linked snippet stands for: its text and the set of names it includes.
pub struct Fragment {
    pub contents: Seq<char>,
    pub includes: Set<Seq<char>>,
}

/// The fragment with no text and no includes.
pub open spec fn empty_fragment() -> Fragment {
    Fragment { contents: Seq::empty(), includes: Set::empty() }
}

/// `a` followed by `b`: texts concatenated, includes united.
pub open spec fn joined(a: Fragment, b: Fragment) -> Fragment {
    Fragment { contents: a.contents + b.contents, includes: a.includes + b.includes }
}

/// One named fragment of the map: its text and the names it depends on.
#[derive(Clone, Debug)]
pub struct LinkedSnippet {
    pub contents: String,
    pub includes: Vec<String>,
}

impl View for LinkedSnippet {
    type V = Fragment;

    open spec fn view(&self) -> Fragment {
        Fragment { contents: self.contents@, includes: names(self.includes@).to_set() }
    }
}

/// Whether `n` is among `v`.
pub fn contains_name(v: &Vec<String>, n: &String) -> (r: bool)
    ensures
        r == names(v@).contains(n@),
{
    let mut i: usize = 0;
    while i < v.len()
        invariant
            i <= v.len(),
            forall|j: int| 0 <= j < i ==> v@[j]@ != n@,
        decreases v.len() - i,
    {
        if v[i] == *n {
            assert(names(v@)[i as int] == n@);
            return true;
        }
        i = i + 1;
    }
    proof {
        if names(v@).contains(n@) {
            let j = choose|j: int| 0 <= j < names(v@).len() && names(v@)[j] == n@;
            assert(v@[j]@ == n@);
        }
    }
    false
}

impl LinkedSnippet {
    /// Each dependency name is held once.
    pub open spec fn wf(&self) -> bool {
        names(self.includes@).no_duplicates()
    }

    /// A snippet with no text and no includes.
    pub fn new() -> (r: Self)
        ensures
            r.wf(),
            r@ == empty_fragment(),
    {
        let r = LinkedSnippet { contents: String::new(), includes: Vec::new() };
        assert(names(r.includes@) =~= Seq::<Seq<char>>::empty());
        assert(r@.includes =~= Set::<Seq<char>>::empty());
        r
    }

    /// Appends `contents` to the text.
    pub fn push_contents(&mut self, contents: &str)
        ensures
            final(self)@ == (Fragment { contents: old(self)@.contents + contents@, ..old(self)@ }),
            final(self).includes == old(self).includes,
    {
        self.contents.append(contents);
    }

    /// Adds `dep` to the set of names this snippet depends on.
    pub fn push_include(&mut self, dep: String)
        requires
            old(self).wf(),
        ensures
            final(self).wf(),
            final(self)@ == (Fragment { includes: old(self)@.includes.insert(dep@), ..old(self)@ }),
    {
        if !contains_name(&self.includes, &dep) {
            let ghost n = dep@;
            self.includes.push(dep);
            assert(names(self.includes@) =~= names(old(self).includes@) + seq![n]);
            proof {
                Seq::lemma_to_set_insert_commutes(names(old(self).includes@), n);
            }
        } else {
            assert(old(self)@.includes.insert(dep@) =~= old(self)@.includes);
        }
    }
}


/// The map that a list of named snippets stands for.
pub open spec fn map_of(s: Seq<(String, LinkedSnippet)>) -> Map<Seq<char>, Fragment>
    decreases s.len(),
{
    if s.len() == 0 {
        Map::empty()
    } else {
        map_of(s.drop_last()).insert(s.last().0@, s.last().1@)
    }
}

/// No two entries of `s` carry the same name.
pub open spec fn unique_names(s: Seq<(String, LinkedSnippet)>) -> bool {
    forall|i: int, j: int| 0 <= i < s.len() && 0 <= j < s.len() && i != j ==> s[i].0@ != s[j].0@
}

/// The names of the entries of `s`, in order.
pub open spec fn entry_names(s: Seq<(String, LinkedSnippet)>) -> Seq<Seq<char>> {
    s.map_values(|e: (String, LinkedSnippet)| e.0@)
}

/// The map holds exactly the names of the entries.
pub proof fn lemma_map_of_dom(s: Seq<(String, LinkedSnippet)>)
    ensures
        map_of(s).dom() == entry_names(s).to_set(),
    decreases s.len(),
{
    if s.len() > 0 {
        lemma_map_of_dom(s.drop_last());
        assert(entry_names(s) =~= entry_names(s.drop_last()) + seq![s.last().0@]);
        Seq::lemma_to_set_insert_commutes(entry_names(s.drop_last()), s.last().0@);
    } else {
        assert(entry_names(s).to_set() =~= Set::empty());
    }
}

/// With names unique, each entry is what the map holds under its name.
pub proof fn lemma_map_of_entry(s: Seq<(String, LinkedSnippet)>, i: int)
    requires
        unique_names(s),
        0 <= i < s.len(),
    ensures
        map_of(s).contains_key(s[i].0@),
        map_of(s)[s[i].0@] == s[i].1@,
    decreases s.len(),
{
    if i < s.len() - 1 {
        let t = s.drop_last();
        assert(t[i] == s[i]);
        assert(unique_names(t));
        lemma_map_of_entry(t, i);
    }
}

/// A name held by the map is the name of some entry.
pub proof fn lemma_map_of_has(s: Seq<(String, LinkedSnippet)>, k: Seq<char>) -> (i: int)
    requires
        map_of(s).contains_key(k),
    ensures
        0 <= i < s.len(),
        s[i].0@ == k,
{
    lemma_map_of_dom(s);
    assert(entry_names(s).contains(k));
    let i = choose|i: int| 0 <= i < entry_names(s).len() && entry_names(s)[i] == k;
    i
}

/// Replacing the snippet of entry `i` replaces what the map holds under its name.
pub proof fn lemma_map_of_update(s: Seq<(String, LinkedSnippet)>, i: int, v: LinkedSnippet)
    requires
        unique_names(s),
        0 <= i < s.len(),
    ensures
        map_of(s.update(i, (s[i].0, v))) == map_of(s).insert(s[i].0@, v@),
    decreases s.len(),
{
    let u = s.update(i, (s[i].0, v));
    if i == s.len() - 1 {
        assert(u.drop_last() =~= s.drop_last());
        assert(map_of(u) =~= map_of(s).insert(s[i].0@, v@));
    } else {
        let t = s.drop_last();
        assert(unique_names(t));
        lemma_map_of_update(t, i, v);
        assert(u.drop_last() =~= t.update(i, (s[i].0, v)));
        assert(s[i].0@ != s.last().0@);
        assert(map_of(u) =~= map_of(s).insert(s[i].0@, v@));
    }
}

/// `a` comes before `b` in the order of strings: character by character, a proper
/// prefix first.
pub open spec fn lex_lt(a: Seq<char>, b: Seq<char>) -> bool
    decreases a.len(),
{
    if b.len() == 0 {
        false
    } else if a.len() == 0 {
        true
    } else if a[0] != b[0] {
        (a[0] as int) < (b[0] as int)
    } else {
        lex_lt(a.drop_first(), b.drop_first())
    }
}

/// The names of the entries of `s` ascend strictly.
pub open spec fn sorted_names(s: Seq<(String, LinkedSnippet)>) -> bool {
    forall|i: int, j: int| 0 <= i < j < s.len() ==> lex_lt(#[trigger] s[i].0@, #[trigger] s[j].0@)
}

/// No string comes before itself.
pub proof fn lemma_lex_irreflexive(a: Seq<char>)
    ensures
        !lex_lt(a, a),
    decreases a.len(),
{
    if a.len() > 0 {
        lemma_lex_irreflexive(a.drop_first());
    }
}

/// The order of strings is transitive.
pub proof fn lemma_lex_transitive(a: Seq<char>, b: Seq<char>, c: Seq<char>)
    requires
        lex_lt(a, b),
        lex_lt(b, c),
    ensures
        lex_lt(a, c),
    decreases a.len(),
{
    if a.len() > 0 && b.len() > 0 && c.len() > 0 && a[0] == b[0] && b[0] == c[0] {
        lemma_lex_transitive(a.drop_first(), b.drop_first(), c.drop_first());
    }
}

/// Of two different strings, one comes first.
pub proof fn lemma_lex_total(a: Seq<char>, b: Seq<char>)
    requires
        a != b,
    ensures
        lex_lt(a, b) || lex_lt(b, a),
    decreases a.len(),
{
    if a.len() > 0 && b.len() > 0 {
        if a[0] == b[0] {
            assert(a.drop_first() != b.drop_first()) by {
                if a.drop_first() == b.drop_first() {
                    assert(a =~= seq![a[0]] + a.drop_first());
                    assert(b =~= seq![b[0]] + b.drop_first());
                }
            }
            lemma_lex_total(a.drop_first(), b.drop_first());
        }
    } else if a.len() == 0 && b.len() == 0 {
        assert(a =~= b);
    }
}

/// A common prefix does not change the order.
pub proof fn lemma_lex_prefix(p: Seq<char>, a: Seq<char>, b: Seq<char>)
    ensures
        lex_lt(p + a, p + b) == lex_lt(a, b),
    decreases p.len(),
{
    if p.len() > 0 {
        assert((p + a).drop_first() =~= p.drop_first() + a);
        assert((p + b).drop_first() =~= p.drop_first() + b);
        lemma_lex_prefix(p.drop_first(), a, b);
    } else {
        assert(p + a =~= a);
        assert(p + b =~= b);
    }
}

/// Whether `a` comes before `b` in the order of strings.
pub fn name_lt(a: &String, b: &String) -> (r: bool)
    ensures
        r == lex_lt(a@, b@),
{
    let sa = a.as_str();
    let sb = b.as_str();
    let la = sa.unicode_len();
    let lb = sb.unicode_len();
    let mut i: usize = 0;
    assert(a@.skip(0) =~= a@);
    assert(b@.skip(0) =~= b@);
    while i < la && i < lb
        invariant
            la == a@.len(),
            lb == b@.len(),
            sa@ == a@,
            sb@ == b@,
            i <= la,
            i <= lb,
            lex_lt(a@, b@) == lex_lt(a@.skip(i as int), b@.skip(i as int)),
        decreases la - i,
    {
        let ca = sa.get_char(i);
        let cb = sb.get_char(i);
        assert(a@.skip(i as int)[0] == ca);
        assert(b@.skip(i as int)[0] == cb);
        if ca != cb {
            let x = ca as u32;
            let y = cb as u32;
            assert(x as int == ca as int);
            assert(y as int == cb as int);
            return x < y;
        }
        assert(a@.skip(i as int).drop_first() =~= a@.skip(i + 1));
        assert(b@.skip(i as int).drop_first() =~= b@.skip(i + 1));
        i = i + 1;
    }
    i < lb
}

/// Inserting an entry whose name the list lacks adds that name to the map.
proof fn lemma_map_of_insert(s: Seq<(String, LinkedSnippet)>, i: int, e: (String, LinkedSnippet))
    requires
        unique_names(s),
        0 <= i <= s.len(),
        forall|j: int| 0 <= j < s.len() ==> s[j].0@ != e.0@,
    ensures
        unique_names(s.insert(i, e)),
        map_of(s.insert(i, e)) == map_of(s).insert(e.0@, e.1@),
{
    let t = s.insert(i, e);
    assert forall|a: int| 0 <= a < t.len() implies (a < i ==> t[a] == s[a]) && (a == i ==> t[a] == e) && (a > i
        ==> t[a] == s[a - 1]) by {}
    assert(unique_names(t));
    let want = map_of(s).insert(e.0@, e.1@);
    assert forall|k: Seq<char>| map_of(t).contains_key(k) <==> want.contains_key(k) by {
        if map_of(t).contains_key(k) {
            let z = lemma_map_of_has(t, k);
            if z != i {
                let y = if z < i { z } else { z - 1 };
                lemma_map_of_entry(s, y);
            }
        }
        if map_of(s).contains_key(k) {
            let z = lemma_map_of_has(s, k);
            let y = if z < i { z } else { z + 1 };
            lemma_map_of_entry(t, y);
        }
        if k == e.0@ {
            lemma_map_of_entry(t, i);
        }
    }
    assert forall|k: Seq<char>| #[trigger] map_of(t).contains_key(k) implies map_of(t)[k] == want[k] by {
        let z = lemma_map_of_has(t, k);
        lemma_map_of_entry(t, z);
        if z != i {
            let y = if z < i { z } else { z - 1 };
            lemma_map_of_entry(s, y);
        }
    }
    assert(map_of(t) =~= want);
}

/// Snippets by name.
#[derive(Clone, Debug)]
pub struct SnippetMap {
    pub map: Vec<(String, LinkedSnippet)>,
}

impl View for SnippetMap {
    type V = Map<Seq<char>, Fragment>;

    open spec fn view(&self) -> Map<Seq<char>, Fragment> {
        map_of(self.map@)
    }
}

impl SnippetMap {
    /// Names are unique and every snippet holds each dependency name once.
    pub open spec fn wf(&self) -> bool {
        &&& unique_names(self.map@)
        &&& sorted_names(self.map@)
        &&& forall|i: int| 0 <= i < self.map@.len() ==> (#[trigger] self.map@[i]).1.wf()
    }

    /// The empty map.
    pub fn new() -> (r: Self)
        ensures
            r.wf(),
            r@ == Map::<Seq<char>, Fragment>::empty(),
    {
        SnippetMap { map: Vec::new() }
    }

    /// The position of the entry named `name`, if there is one.
    pub fn position(&self, name: &String) -> (r: Option<usize>)
        requires
            self.wf(),
        ensures
            r is None <==> !self@.contains_key(name@),
            r matches Some(i) ==> i < self.map@.len() && self.map@[i as int].0@ == name@,
    {
        let mut i: usize = 0;
        while i < self.map.len()
            invariant
                self.wf(),
                i <= self.map@.len(),
                forall|j: int| 0 <= j < i ==> self.map@[j].0@ != name@,
            decreases self.map.len() - i,
        {
            if self.map[i].0 == *name {
                proof {
                    lemma_map_of_entry(self.map@, i as int);
                }
                return Some(i);
            }
            i = i + 1;
        }
        proof {
            if self@.contains_key(name@) {
                lemma_map_of_has(self.map@, name@);
            }
        }
        None
    }

    /// The snippet named `name`, if there is one.
    pub fn get(&self, name: &str) -> (r: Option<&LinkedSnippet>)
        requires
            self.wf(),
        ensures
            r is None <==> !self@.contains_key(name@),
            r matches Some(l) ==> l@ == self@[name@] && l.wf(),
    {
        let n = name.to_owned();
        match self.position(&n) {
            Some(i) => {
                proof {
                    lemma_map_of_entry(self.map@, i as int);
                }
                Some(&self.map[i].1)
            },
            None => None,
        }
    }
}


/// `b` is a dependency of the snippet `a`, and lies outside `stop`.
pub open spec fn dep_step(m: Map<Seq<char>, Fragment>, stop: Set<Seq<char>>, a: Seq<char>, b: Seq<char>) -> bool {
    &&& m.contains_key(a)
    &&& m[a].includes.contains(b)
    &&& !stop.contains(b)
}

/// `p` is a chain of dependencies: it starts at one of `seeds`, each later name is
/// included by the one before it, and no name of it lies in `stop`.
pub open spec fn is_dep_path(
    m: Map<Seq<char>, Fragment>,
    stop: Set<Seq<char>>,
    seeds: Set<Seq<char>>,
    p: Seq<Seq<char>>,
) -> bool {
    &&& p.len() >= 1
    &&& seeds.contains(p[0])
    &&& !stop.contains(p[0])
    &&& forall|i: int| 1 <= i < p.len() ==> #[trigger] dep_step(m, stop, p[i - 1], p[i])
}

/// Some chain of dependencies from `seeds` that avoids `stop` ends at `d`.
pub open spec fn reaches(
    m: Map<Seq<char>, Fragment>,
    stop: Set<Seq<char>>,
    seeds: Set<Seq<char>>,
    d: Seq<char>,
) -> bool {
    exists|p: Seq<Seq<char>>| #[trigger] is_dep_path(m, stop, seeds, p) && p.last() == d
}

/// Every name that the snippet `k` includes is among `v`.
pub open spec fn expanded(m: Map<Seq<char>, Fragment>, v: Seq<Seq<char>>, k: Seq<char>) -> bool {
    m.contains_key(k) ==> forall|j: Seq<char>| #[trigger] m[k].includes.contains(j) ==> v.contains(j)
}

/// Every name that any entry of `s` includes, entry by entry.
pub open spec fn all_deps(s: Seq<(String, LinkedSnippet)>) -> Seq<Seq<char>>
    decreases s.len(),
{
    if s.len() == 0 {
        Seq::empty()
    } else {
        all_deps(s.drop_last()) + names(s.last().1.includes@)
    }
}

proof fn lemma_all_deps_has(s: Seq<(String, LinkedSnippet)>, i: int, k: Seq<char>)
    requires
        0 <= i < s.len(),
        names(s[i].1.includes@).contains(k),
    ensures
        all_deps(s).contains(k),
    decreases s.len(),
{
    let t = s.drop_last();
    if i < s.len() - 1 {
        assert(t[i] == s[i]);
        lemma_all_deps_has(t, i, k);
        let j = choose|j: int| 0 <= j < all_deps(t).len() && all_deps(t)[j] == k;
        assert(all_deps(s)[j] == k);
    } else {
        let j = choose|j: int| 0 <= j < names(s[i].1.includes@).len() && names(s[i].1.includes@)[j] == k;
        assert(all_deps(s)[all_deps(t).len() + j] == k);
    }
}

/// A list without repeats, all of whose names lie in `u`, is no longer than `u`.
proof fn lemma_unique_within(v: Seq<Seq<char>>, u: Seq<Seq<char>>)
    requires
        v.no_duplicates(),
        forall|k: Seq<char>| v.contains(k) ==> u.contains(k),
    ensures
        v.len() <= u.len(),
{
    v.unique_seq_to_set();
    u.lemma_cardinality_of_set();
    assert(v.to_set().subset_of(u.to_set()));
    vstd::set_lib::lemma_len_subset(v.to_set(), u.to_set());
}

/// A set of names that holds every seed and is closed under the dependencies of
/// each of its names outside `stop` holds every name reached.
proof fn lemma_closed_holds_reached(
    m: Map<Seq<char>, Fragment>,
    stop: Set<Seq<char>>,
    seeds: Set<Seq<char>>,
    v: Seq<Seq<char>>,
    p: Seq<Seq<char>>,
)
    requires
        is_dep_path(m, stop, seeds, p),
        forall|k: Seq<char>| seeds.contains(k) ==> v.contains(k),
        forall|k: Seq<char>|
            #[trigger] v.contains(k) && !stop.contains(k) ==> expanded(m, v, k),
    ensures
        v.contains(p.last()),
    decreases p.len(),
{
    if p.len() > 1 {
        let q = p.drop_last();
        assert forall|i: int| 1 <= i < q.len() implies #[trigger] dep_step(m, stop, q[i - 1], q[i]) by {
            assert(q[i] == p[i]);
            assert(q[i - 1] == p[i - 1]);
            assert(dep_step(m, stop, p[i - 1], p[i]));
        }
        assert(q[0] == p[0]);
        assert(seeds.contains(q[0]));
        assert(q.len() >= 1);
        assert(is_dep_path(m, stop, seeds, q));
        lemma_closed_holds_reached(m, stop, seeds, v, q);
        let n = p.len() - 1;
        assert(p[n] == p.last());
        assert(q.last() == p[n - 1]);
        let i = n - 1;
        if i >= 1 {
            assert(dep_step(m, stop, p[i - 1], p[i]));
        }
        assert(!stop.contains(p[i]));
        assert(dep_step(m, stop, p[n - 1], p[n]));
        assert(expanded(m, v, p[n - 1]));
    }
}

/// What the search for dependencies keeps true: `v` lists what was seen, once each,
/// all of it drawn from `univ`; it holds `stop` and every seed, and everything else
/// in it was reached; `st` holds names still to expand, all seen and reached; and
/// every name seen that lies outside `stop` has been expanded unless it waits in `st`.
pub open spec fn search_state(
    m: Map<Seq<char>, Fragment>,
    stop: Set<Seq<char>>,
    seeds: Set<Seq<char>>,
    univ: Seq<Seq<char>>,
    v: Seq<Seq<char>>,
    st: Seq<Seq<char>>,
) -> bool {
    &&& v.no_duplicates()
    &&& forall|k: Seq<char>| #[trigger] v.contains(k) ==> univ.contains(k)
    &&& forall|k: Seq<char>| #[trigger] stop.contains(k) ==> v.contains(k)
    &&& forall|k: Seq<char>| #[trigger] seeds.contains(k) ==> v.contains(k)
    &&& forall|k: Seq<char>| #[trigger] v.contains(k) ==> stop.contains(k) || reaches(m, stop, seeds, k)
    &&& forall|k: Seq<char>| #[trigger] st.contains(k) ==> v.contains(k) && reaches(m, stop, seeds, k)
    &&& forall|k: Seq<char>|
        #[trigger] v.contains(k) && !stop.contains(k) && !st.contains(k) ==> expanded(m, v, k)
}

/// A chain of dependencies extended by one more step is still one.
proof fn lemma_extend_path(
    m: Map<Seq<char>, Fragment>,
    stop: Set<Seq<char>>,
    seeds: Set<Seq<char>>,
    p: Seq<Seq<char>>,
    k: Seq<char>,
)
    requires
        is_dep_path(m, stop, seeds, p),
        dep_step(m, stop, p.last(), k),
    ensures
        is_dep_path(m, stop, seeds, p.push(k)),
        reaches(m, stop, seeds, k),
{
    let np = p.push(k);
    assert forall|t: int| 1 <= t < np.len() implies #[trigger] dep_step(m, stop, np[t - 1], np[t]) by {
        if t < np.len() - 1 {
            assert(np[t] == p[t]);
            assert(np[t - 1] == p[t - 1]);
            assert(dep_step(m, stop, p[t - 1], p[t]));
        }
    }
    assert(np[0] == p[0]);
    assert(np.last() == k);
    assert(is_dep_path(m, stop, seeds, np));
}

/// Popping a name that the map lacks keeps the search state.
proof fn lemma_search_skip(
    m: Map<Seq<char>, Fragment>,
    stop: Set<Seq<char>>,
    seeds: Set<Seq<char>>,
    univ: Seq<Seq<char>>,
    v: Seq<Seq<char>>,
    st: Seq<Seq<char>>,
    cur: Seq<char>,
)
    requires
        search_state(m, stop, seeds, univ, v, st.push(cur)),
        !m.contains_key(cur),
    ensures
        search_state(m, stop, seeds, univ, v, st),
{
    assert forall|k: Seq<char>| #[trigger] st.contains(k) implies st.push(cur).contains(k) by {}
}

/// Popping `cur` and pushing each of its dependencies not yet seen keeps the search state.
#[verifier::rlimit(50)]
proof fn lemma_search_step(
    m: Map<Seq<char>, Fragment>,
    stop: Set<Seq<char>>,
    seeds: Set<Seq<char>>,
    univ: Seq<Seq<char>>,
    v: Seq<Seq<char>>,
    st: Seq<Seq<char>>,
    cur: Seq<char>,
    deps: Seq<Seq<char>>,
    nv: Seq<Seq<char>>,
    nst: Seq<Seq<char>>,
)
    requires
        search_state(m, stop, seeds, univ, v, st.push(cur)),
        m.contains_key(cur),
        m[cur].includes == deps.to_set(),
        forall|k: Seq<char>| #[trigger] deps.contains(k) ==> univ.contains(k),
        nv.no_duplicates(),
        v.len() <= nv.len(),
        nv.subrange(0, v.len() as int) == v,
        nst == st + nv.subrange(v.len() as int, nv.len() as int),
        forall|k: Seq<char>|
            #[trigger] nv.subrange(v.len() as int, nv.len() as int).contains(k) ==> deps.contains(k),
        forall|k: Seq<char>| #[trigger] deps.contains(k) ==> nv.contains(k),
    ensures
        search_state(m, stop, seeds, univ, nv, nst),
{
    let added = nv.subrange(v.len() as int, nv.len() as int);
    assert(st.push(cur).contains(cur)) by {
        assert(st.push(cur)[st.len() as int] == cur);
    }
    let cur_path = choose|p: Seq<Seq<char>>| #[trigger] is_dep_path(m, stop, seeds, p) && p.last() == cur;
    assert forall|k: Seq<char>| #[trigger] v.contains(k) implies nv.contains(k) by {
        let z = choose|z: int| 0 <= z < v.len() && v[z] == k;
        assert(nv[z] == k);
    }
    assert forall|k: Seq<char>| #[trigger] nv.contains(k) implies v.contains(k) || added.contains(k) by {
        let z = choose|z: int| 0 <= z < nv.len() && nv[z] == k;
        if z < v.len() {
            assert(v[z] == k);
        } else {
            assert(added[z - v.len()] == k);
        }
    }
    assert forall|k: Seq<char>| #[trigger] added.contains(k) implies !v.contains(k) && reaches(m, stop, seeds, k)
        && univ.contains(k) by {
        let z = choose|z: int| 0 <= z < added.len() && added[z] == k;
        assert(nv[v.len() + z] == k);
        if v.contains(k) {
            let y = choose|y: int| 0 <= y < v.len() && v[y] == k;
            assert(nv[y] == k);
        }
        assert(deps.contains(k));
        assert(deps.to_set().contains(k));
        assert(!stop.contains(k));
        assert(dep_step(m, stop, cur_path.last(), k));
        lemma_extend_path(m, stop, seeds, cur_path, k);
    }
    assert forall|k: Seq<char>| #[trigger] nst.contains(k) implies st.contains(k) || added.contains(k) by {
        let z = choose|z: int| 0 <= z < nst.len() && nst[z] == k;
        if z < st.len() {
            assert(st[z] == k);
        } else {
            assert(added[z - st.len()] == k);
        }
    }
    assert forall|k: Seq<char>| #[trigger] st.contains(k) implies nst.contains(k) by {
        let z = choose|z: int| 0 <= z < st.len() && st[z] == k;
        assert(nst[z] == k);
    }
    assert forall|k: Seq<char>| #[trigger] st.contains(k) implies st.push(cur).contains(k) by {}
    assert forall|k: Seq<char>|
        #[trigger] nv.contains(k) && !stop.contains(k) && !nst.contains(k)
        implies expanded(m, nv, k) by {
        if k == cur {
            assert forall|j: Seq<char>| #[trigger] m[k].includes.contains(j) implies nv.contains(j) by {
                assert(deps.to_set().contains(j));
                assert(deps.contains(j));
            }
        } else if v.contains(k) {
            assert(!st.contains(k));
            assert(!st.push(cur).contains(k));
            assert(expanded(m, v, k));
            if m.contains_key(k) {
                assert forall|j: Seq<char>| #[trigger] m[k].includes.contains(j) implies nv.contains(j) by {
                    assert(v.contains(j));
                }
            }
        } else {
            assert(added.contains(k));
            assert(nst.contains(k)) by {
                let z = choose|z: int| 0 <= z < added.len() && added[z] == k;
                assert(nst[st.len() + z] == k);
            }
        }
    }
}

/// Pushes onto both `visited` and `stack` each name of `deps` that `visited` lacks.
fn push_unvisited(deps: &Vec<String>, visited: &mut Vec<String>, stack: &mut Vec<String>)
    requires
        names(old(visited)@).no_duplicates(),
    ensures
        names(final(visited)@).no_duplicates(),
        old(visited)@.len() <= final(visited)@.len(),
        names(final(visited)@).subrange(0, old(visited)@.len() as int) == names(old(visited)@),
        names(final(stack)@) == names(old(stack)@) + names(final(visited)@).subrange(
            old(visited)@.len() as int,
            final(visited)@.len() as int,
        ),
        forall|k: Seq<char>|
            #[trigger] names(final(visited)@).subrange(
                old(visited)@.len() as int,
                final(visited)@.len() as int,
            ).contains(k) ==> names(deps@).contains(k),
        forall|k: Seq<char>| #[trigger] names(deps@).contains(k) ==> names(final(visited)@).contains(k),
{
    let ghost ov = names(visited@);
    let ghost os = names(stack@);
    let mut j: usize = 0;
    while j < deps.len()
        invariant
            j <= deps.len(),
            names(visited@).no_duplicates(),
            ov.len() <= visited@.len(),
            names(visited@).subrange(0, ov.len() as int) == ov,
            names(stack@) == os + names(visited@).subrange(ov.len() as int, visited@.len() as int),
            forall|k: Seq<char>|
                #[trigger] names(visited@).subrange(ov.len() as int, visited@.len() as int).contains(k)
                    ==> names(deps@).contains(k),
            forall|jj: int| 0 <= jj < j ==> names(visited@).contains(#[trigger] names(deps@)[jj]),
        decreases deps.len() - j,
    {
        let d = &deps[j];
        assert(names(deps@)[j as int] == d@);
        if !contains_name(visited, d) {
            let ghost bv = names(visited@);
            let ghost ba = names(visited@).subrange(ov.len() as int, visited@.len() as int);
            let ghost bs = names(stack@);
            visited.push(d.clone());
            stack.push(d.clone());
            assert(names(stack@) =~= bs.push(d@));
            assert(names(visited@) =~= bv.push(d@));
            assert(names(visited@).subrange(0, ov.len() as int) =~= ov);
            assert(names(visited@).subrange(ov.len() as int, visited@.len() as int) =~= ba.push(d@));
            assert(names(stack@) =~= os + ba.push(d@));
            assert(names(deps@).contains(d@));
            assert forall|jj: int| 0 <= jj <= j implies names(visited@).contains(#[trigger] names(deps@)[jj]) by {
                if jj < j {
                    assert(bv.contains(names(deps@)[jj]));
                }
            }
        }
        j = j + 1;
    }
    assert forall|k: Seq<char>| #[trigger] names(deps@).contains(k) implies names(visited@).contains(k) by {
        let z = choose|z: int| 0 <= z < names(deps@).len() && names(deps@)[z] == k;
    }
}

impl SnippetMap {
    /// The names of `used`, then every name reached from `seeds` through chains of
    /// dependencies that pass through no name of `used`, each listed once.
    pub fn resolve_includes(&self, used: &Vec<String>, seeds: &Vec<String>) -> (r: Vec<String>)
        requires
            self.wf(),
            names(used@).no_duplicates(),
        ensures
            names(r@).no_duplicates(),
            forall|k: Seq<char>|
                #![trigger names(r@).contains(k)]
                names(r@).contains(k) <==> (names(used@).contains(k) || reaches(
                    self@,
                    names(used@).to_set(),
                    names(seeds@).to_set(),
                    k,
                )),
    {
        let ghost m = self@;
        let ghost stop = names(used@).to_set();
        let ghost seedset = names(seeds@).to_set();
        let ghost univ = names(used@) + names(seeds@) + all_deps(self.map@);
        let mut visited: Vec<String> = Vec::new();
        let mut i: usize = 0;
        while i < used.len()
            invariant
                i <= used.len(),
                names(visited@) =~= names(used@).subrange(0, i as int),
            decreases used.len() - i,
        {
            let ghost before = names(visited@);
            visited.push(used[i].clone());
            assert(names(visited@) =~= before.push(used@[i as int]@));
            i = i + 1;
        }
        assert(names(visited@) =~= names(used@));
        let mut stack: Vec<String> = Vec::new();
        i = 0;
        while i < seeds.len()
            invariant
                i <= seeds.len(),
                names(used@).no_duplicates(),
                stop == names(used@).to_set(),
                seedset == names(seeds@).to_set(),
                univ == names(used@) + names(seeds@) + all_deps(self.map@),
                names(visited@).no_duplicates(),
                forall|k: Seq<char>| #[trigger] names(used@).contains(k) ==> names(visited@).contains(k),
                forall|k: Seq<char>|
                    #[trigger] names(visited@).contains(k) ==> names(used@).contains(k) || (
                    seedset.contains(k) && names(stack@).contains(k)),
                forall|j: int| 0 <= j < i ==> names(visited@).contains(#[trigger] names(seeds@)[j]),
                forall|k: Seq<char>|
                    #[trigger] names(stack@).contains(k) ==> seedset.contains(k) && !names(used@).contains(k),
            decreases seeds.len() - i,
        {
            let s = seeds[i].clone();
            assert(names(seeds@)[i as int] == s@);
            if !contains_name(&visited, &s) {
                let ghost before = names(visited@);
                visited.push(s.clone());
                assert(names(visited@) =~= before.push(s@));
                let ghost before_stack = names(stack@);
                stack.push(s);
                assert(names(stack@) =~= before_stack.push(s@));
            }
            i = i + 1;
        }
        proof {
            assert forall|k: Seq<char>| #[trigger] names(stack@).contains(k) implies reaches(m, stop, seedset, k) by {
                let p = seq![k];
                assert(is_dep_path(m, stop, seedset, p));
            }
            assert forall|k: Seq<char>| #[trigger] seedset.contains(k) implies names(visited@).contains(k) by {
                let j = choose|j: int| 0 <= j < names(seeds@).len() && names(seeds@)[j] == k;
            }
        }
        let ghost bound: int = univ.len() as int;
        proof {
            assert forall|k: Seq<char>| #[trigger] names(visited@).contains(k) implies univ.contains(k) by {
                if names(used@).contains(k) {
                    let z = choose|z: int| 0 <= z < names(used@).len() && names(used@)[z] == k;
                    assert(univ[z] == k);
                } else {
                    let z = choose|z: int| 0 <= z < names(seeds@).len() && names(seeds@)[z] == k;
                    assert(univ[names(used@).len() + z] == k);
                }
            }
            lemma_unique_within(names(visited@), univ);
        }
        while stack.len() > 0
            invariant
                self.wf(),
                m == self@,
                stop == names(used@).to_set(),
                seedset == names(seeds@).to_set(),
                univ == names(used@) + names(seeds@) + all_deps(self.map@),
                bound == univ.len(),
                visited@.len() <= bound,
                search_state(m, stop, seedset, univ, names(visited@), names(stack@)),
            decreases 2 * (bound - visited@.len()) + stack@.len(),
        {
            let ghost ov = names(visited@);
            let ghost before_stack = names(stack@);
            let cur = stack.pop().unwrap();
            assert(before_stack =~= names(stack@).push(cur@));
            let ghost os = names(stack@);
            match self.position(&cur) {
                Some(pos) => {
                    proof {
                        lemma_map_of_entry(self.map@, pos as int);
                        let deps = names(self.map@[pos as int].1.includes@);
                        assert forall|k: Seq<char>| #[trigger] deps.contains(k) implies univ.contains(k) by {
                            lemma_all_deps_has(self.map@, pos as int, k);
                            let w = choose|w: int|
                                0 <= w < all_deps(self.map@).len() && all_deps(self.map@)[w] == k;
                            assert(univ[names(used@).len() + names(seeds@).len() + w] == k);
                        }
                    }
                    push_unvisited(&self.map[pos].1.includes, &mut visited, &mut stack);
                    assert(names(stack@).len() == os.len() + (visited@.len() - ov.len()));
                    proof {
                        lemma_search_step(
                            m,
                            stop,
                            seedset,
                            univ,
                            ov,
                            os,
                            cur@,
                            names(self.map@[pos as int].1.includes@),
                            names(visited@),
                            names(stack@),
                        );
                    }
                },
                None => {
                    assert(stack@.len() == os.len());
                    proof {
                        lemma_search_skip(m, stop, seedset, univ, ov, os, cur@);
                    }
                },
            }
            proof {
                lemma_unique_within(names(visited@), univ);
            }
            assert(2 * (bound - visited@.len()) + stack@.len() < 2 * (bound - ov.len()) + before_stack.len());
        }
        proof {
            assert forall|k: Seq<char>|
                #![trigger names(visited@).contains(k)]
                names(visited@).contains(k) <==> (names(used@).contains(k) || reaches(
                    m,
                    stop,
                    seedset,
                    k,
                )) by {
                if reaches(m, stop, seedset, k) {
                    let p = choose|p: Seq<Seq<char>>|
                        #[trigger] is_dep_path(m, stop, seedset, p) && p.last() == k;
                    lemma_closed_holds_reached(m, stop, seedset, names(visited@), p);
                }
                if names(used@).contains(k) {
                    assert(stop.contains(k));
                }
                if stop.contains(k) {
                    assert(names(used@).contains(k));
                }
            }
        }
        visited
    }
}


/// The marker that opens a guard comment.
pub open spec fn guard_marker() -> Seq<char> {
    "// codesnip-guard: "@
}

/// The guard comment naming `n`, written after `acc`: on a line of its own.
pub open spec fn guard_line(acc: Seq<char>, n: Seq<char>) -> Seq<char> {
    (if acc.len() > 0 && acc.last() != '\n' {
        seq!['\n']
    } else {
        Seq::empty()
    }) + guard_marker() + n + seq!['\n']
}

/// `acc` followed by the unit named `n` if the map holds it: its guard comment if
/// asked for, then its text. A name the map lacks adds nothing.
pub open spec fn with_unit(m: Map<Seq<char>, Fragment>, guard: bool, acc: Seq<char>, n: Seq<char>) -> Seq<char> {
    if m.contains_key(n) {
        (if guard {
            acc + guard_line(acc, n)
        } else {
            acc
        }) + m[n].contents
    } else {
        acc
    }
}

/// `acc` followed by the units named in `order`, in that order.
pub open spec fn emit(m: Map<Seq<char>, Fragment>, guard: bool, acc: Seq<char>, order: Seq<Seq<char>>) -> Seq<char>
    decreases order.len(),
{
    if order.len() == 0 {
        acc
    } else {
        with_unit(m, guard, emit(m, guard, acc, order.drop_last()), order.last())
    }
}

/// The names whose text a bundle of `name` carries after its own: those reached
/// from its dependencies through names outside `excl` and other than `name`, less
/// `excl` and `name` themselves.
pub open spec fn bundle_units(
    m: Map<Seq<char>, Fragment>,
    name: Seq<char>,
    link: Fragment,
    excl: Set<Seq<char>>,
) -> Set<Seq<char>> {
    Set::new(|d: Seq<char>| reaches(m, excl.insert(name), link.includes, d) && !excl.contains(d) && d != name)
}

/// How a bundle of `name` begins: its guard comment if asked for, then its own text.
pub open spec fn bundle_head(name: Seq<char>, link: Fragment, guard: bool) -> Seq<char> {
    (if guard {
        guard_line(Seq::empty(), name)
    } else {
        Seq::empty()
    }) + link.contents
}

/// Whether `d` is one of the units of a bundle of `name`.
pub open spec fn is_unit(
    m: Map<Seq<char>, Fragment>,
    name: Seq<char>,
    link: Fragment,
    excl: Set<Seq<char>>,
) -> spec_fn(Seq<char>) -> bool {
    |d: Seq<char>| bundle_units(m, name, link, excl).contains(d)
}

/// The units of a bundle of `name` that the entries `s` hold, in the entries' order
/// (ascending by name in a well-formed map).
pub open spec fn bundle_order(
    s: Seq<(String, LinkedSnippet)>,
    name: Seq<char>,
    link: Fragment,
    excl: Set<Seq<char>>,
) -> Seq<Seq<char>> {
    entry_names(s).filter(is_unit(map_of(s), name, link, excl))
}

/// The bundle of `name`, whose snippet is `link`, over the entries `s`: empty when
/// `name` is excluded, else its own text followed by the text of each of its units
/// that the entries hold, once each, in ascending order of name.
pub open spec fn bundle_text(
    s: Seq<(String, LinkedSnippet)>,
    name: Seq<char>,
    link: Fragment,
    excl: Set<Seq<char>>,
    guard: bool,
) -> Seq<char> {
    if excl.contains(name) {
        Seq::empty()
    } else {
        emit(map_of(s), guard, bundle_head(name, link, guard), bundle_order(s, name, link, excl))
    }
}

/// The names of a list with unique names, filtered, hold no repeat and hold exactly
/// the names that pass the filter.
pub proof fn lemma_filtered_names(s: Seq<(String, LinkedSnippet)>, f: spec_fn(Seq<char>) -> bool)
    requires
        unique_names(s),
    ensures
        entry_names(s).filter(f).no_duplicates(),
        forall|k: Seq<char>|
            #[trigger] entry_names(s).filter(f).contains(k) <==> map_of(s).contains_key(k) && f(k),
    decreases s.len(),
{
    reveal(Seq::filter);
    lemma_map_of_dom(s);
    if s.len() > 0 {
        let t = s.drop_last();
        assert(unique_names(t));
        lemma_filtered_names(t, f);
        lemma_map_of_dom(t);
        assert(entry_names(s).drop_last() =~= entry_names(t));
        let k = s.last().0@;
        assert(!map_of(t).contains_key(k)) by {
            if map_of(t).contains_key(k) {
                let z = lemma_map_of_has(t, k);
            }
        }
        assert forall|x: Seq<char>| map_of(s).contains_key(x) <==> map_of(t).contains_key(x) || x == k by {}
        if f(k) {
            assert(!entry_names(t).filter(f).contains(k));
            assert(entry_names(s).filter(f) == entry_names(t).filter(f).push(k));
        } else {
            assert(entry_names(s).filter(f) == entry_names(t).filter(f));
        }
    } else {
        assert(entry_names(s).filter(f) =~= Seq::<Seq<char>>::empty());
    }
}

/// Appends the guard comment naming `name`.
fn push_guard(contents: &mut String, name: &String)
    ensures
        final(contents)@ == old(contents)@ + guard_line(old(contents)@, name@),
{
    proof {
        reveal_strlit("\n");
    }
    let len = contents.as_str().unicode_len();
    if len > 0 && contents.as_str().get_char(len - 1) != '\n' {
        contents.append("\n");
    }
    contents.append("// codesnip-guard: ");
    contents.append(name.as_str());
    contents.append("\n");
    assert(final(contents)@ =~= old(contents)@ + guard_line(old(contents)@, name@));
}

impl SnippetMap {
    /// The text of `link`, named `name`, followed by the text of every snippet it
    /// depends on directly or through others, each once, in ascending order of name;
    /// empty when `name` is among `excludes`. Expansion stops at `name` and at every
    /// excluded name. Names the map lacks are passed over. With `guard`, each unit is
    /// preceded by a comment line that names it.
    pub fn bundle(&self, name: &str, link: &LinkedSnippet, excludes: Vec<String>, guard: bool) -> (r: String)
        requires
            self.wf(),
            link.wf(),
        ensures
            r@ == bundle_text(self.map@, name@, link@, names(excludes@).to_set(), guard),
    {
        let ghost m = self@;
        let ghost excl = names(excludes@).to_set();
        let n = name.to_owned();
        if contains_name(&excludes, &n) {
            return String::new();
        }
        let mut used: Vec<String> = Vec::new();
        let mut i: usize = 0;
        while i < excludes.len()
            invariant
                i <= excludes.len(),
                names(used@).no_duplicates(),
                forall|k: Seq<char>|
                    #[trigger] names(used@).contains(k) <==> names(excludes@).subrange(0, i as int).contains(k),
            decreases excludes.len() - i,
        {
            let e = &excludes[i];
            assert(names(excludes@)[i as int] == e@);
            assert(names(excludes@).subrange(0, i + 1) =~= names(excludes@).subrange(0, i as int).push(e@));
            if !contains_name(&used, e) {
                let ghost b = names(used@);
                used.push(e.clone());
                assert(names(used@) =~= b.push(e@));
            }
            i = i + 1;
        }
        assert(names(excludes@).subrange(0, excludes@.len() as int) =~= names(excludes@));
        let ghost b = names(used@);
        assert(!b.contains(n@));
        used.push(n.clone());
        assert(names(used@) =~= b.push(n@));
        assert(names(used@).to_set() =~= excl.insert(n@));
        let visited = self.resolve_includes(&used, &link.includes);
        let mut contents = String::new();
        if guard {
            push_guard(&mut contents, &n);
        }
        contents.append(link.contents.as_str());
        let ghost head = bundle_head(n@, link@, guard);
        assert(contents@ =~= head);
        let ghost unit = is_unit(m, n@, link@, excl);
        let mut j: usize = 0;
        while j < self.map.len()
            invariant
                self.wf(),
                m == self@,
                j <= self.map@.len(),
                unit == is_unit(m, n@, link@, excl),
                names(used@).to_set() == excl.insert(n@),
                forall|k: Seq<char>|
                    #![trigger names(visited@).contains(k)]
                    names(visited@).contains(k) <==> (names(used@).contains(k) || reaches(
                        m,
                        names(used@).to_set(),
                        link@.includes,
                        k,
                    )),
                contents@ == emit(m, guard, head, entry_names(self.map@).subrange(0, j as int).filter(unit)),
            decreases self.map.len() - j,
        {
            proof {
                reveal(Seq::filter);
                lemma_map_of_entry(self.map@, j as int);
            }
            let k = &self.map[j].0;
            let ghost pre = entry_names(self.map@).subrange(0, j as int);
            assert(entry_names(self.map@).subrange(0, j + 1) =~= pre.push(k@));
            assert(pre.push(k@).drop_last() =~= pre);
            let ghost before = contents@;
            let ghost is_u = unit(k@);
            assert(is_u == (names(visited@).contains(k@) && !names(used@).contains(k@))) by {
                if reaches(m, names(used@).to_set(), link@.includes, k@) {
                    let p = choose|p: Seq<Seq<char>>|
                        #[trigger] is_dep_path(m, names(used@).to_set(), link@.includes, p) && p.last() == k@;
                    let z = p.len() - 1;
                    if z >= 1 {
                        assert(dep_step(m, names(used@).to_set(), p[z - 1], p[z]));
                    }
                }
            }
            if contains_name(&visited, k) && !contains_name(&used, k) {
                if guard {
                    push_guard(&mut contents, k);
                }
                contents.append(self.map[j].1.contents.as_str());
                assert(contents@ =~= with_unit(m, guard, before, k@));
                assert(pre.push(k@).filter(unit) == pre.filter(unit).push(k@));
                assert(pre.filter(unit).push(k@).drop_last() =~= pre.filter(unit));
            }
            j = j + 1;
        }
        assert(entry_names(self.map@).subrange(0, self.map@.len() as int) =~= entry_names(self.map@));
        contents
    }
}


/// Every name reached lies in `within` when `within` holds the seeds and every
/// dependency outside `stop` of each of its names.
pub proof fn lemma_reached_within(
    m: Map<Seq<char>, Fragment>,
    stop: Set<Seq<char>>,
    seeds: Set<Seq<char>>,
    within: Set<Seq<char>>,
    p: Seq<Seq<char>>,
)
    requires
        is_dep_path(m, stop, seeds, p),
        seeds.subset_of(within),
        forall|x: Seq<char>, y: Seq<char>|
            within.contains(x) && #[trigger] dep_step(m, stop, x, y) ==> within.contains(y),
    ensures
        within.contains(p.last()),
    decreases p.len(),
{
    if p.len() > 1 {
        let q = p.drop_last();
        assert forall|i: int| 1 <= i < q.len() implies #[trigger] dep_step(m, stop, q[i - 1], q[i]) by {
            assert(q[i] == p[i]);
            assert(q[i - 1] == p[i - 1]);
            assert(dep_step(m, stop, p[i - 1], p[i]));
        }
        assert(q[0] == p[0]);
        assert(is_dep_path(m, stop, seeds, q));
        lemma_reached_within(m, stop, seeds, within, q);
        let n = p.len() - 1;
        assert(dep_step(m, stop, p[n - 1], p[n]));
    }
}

/// A list without repeats that holds just the names of a one-element set is that element.
proof fn lemma_single_order(order: Seq<Seq<char>>, x: Seq<char>)
    requires
        order.no_duplicates(),
        order.to_set() == set![x],
    ensures
        order == seq![x],
{
    order.unique_seq_to_set();
    assert(order.to_set().contains(order[0]));
    assert(order =~= seq![x]);
}

/// A snippet with no dependencies bundles to exactly its own text.
pub proof fn lemma_bundle_without_deps(s: Seq<(String, LinkedSnippet)>, name: Seq<char>, link: Fragment)
    requires
        unique_names(s),
        link.includes == Set::<Seq<char>>::empty(),
    ensures
        bundle_text(s, name, link, Set::empty(), false) == link.contents,
{
    let m = map_of(s);
    let order = bundle_order(s, name, link, Set::empty());
    lemma_filtered_names(s, is_unit(m, name, link, Set::empty()));
    if order.len() > 0 {
        assert(order.contains(order[0]));
        let p = choose|p: Seq<Seq<char>>|
            #[trigger] is_dep_path(m, Set::<Seq<char>>::empty().insert(name), link.includes, p) && p.last()
                == order[0];
        assert(link.includes.contains(p[0]));
    }
    assert(bundle_head(name, link, false) =~= link.contents);
}

/// Two snippets that include each other: a bundle of the first holds the first's
/// text and then the second's, each once, and the search ends.
pub proof fn lemma_bundle_cycle(s: Seq<(String, LinkedSnippet)>, a: Seq<char>, b: Seq<char>)
    requires
        unique_names(s),
        a != b,
        map_of(s).contains_key(a),
        map_of(s).contains_key(b),
        map_of(s)[a].includes == set![b],
        map_of(s)[b].includes == set![a],
    ensures
        bundle_text(s, a, map_of(s)[a], Set::empty(), false) == map_of(s)[a].contents + map_of(s)[b].contents,
{
    let m = map_of(s);
    let stop = Set::<Seq<char>>::empty().insert(a);
    let units = bundle_units(m, a, m[a], Set::empty());
    assert(is_dep_path(m, stop, m[a].includes, seq![b]));
    assert(units.contains(b));
    assert forall|d: Seq<char>| units.contains(d) implies d == b by {
        let p = choose|p: Seq<Seq<char>>| #[trigger] is_dep_path(m, stop, m[a].includes, p) && p.last() == d;
        assert forall|x: Seq<char>, y: Seq<char>| set![b].contains(x) && #[trigger] dep_step(m, stop, x, y)
            implies set![b].contains(y) by {}
        lemma_reached_within(m, stop, m[a].includes, set![b], p);
    }
    let order = bundle_order(s, a, m[a], Set::empty());
    lemma_filtered_names(s, is_unit(m, a, m[a], Set::empty()));
    assert(order.to_set() =~= set![b]);
    lemma_single_order(order, b);
    let h = bundle_head(a, m[a], false);
    assert(h =~= m[a].contents);
    assert(order.drop_last() =~= Seq::<Seq<char>>::empty());
    assert(emit(m, false, h, order.drop_last()) == h);
    assert(order.last() == b);
    assert(emit(m, false, h, order) == with_unit(m, false, h, b));
}

/// A diamond, `a` on `b` and `c`, both on the leaf `d`: a bundle of `a` holds the
/// text of `a` and then the texts of `b`, `c` and `d` in ascending order of name,
/// each once.
pub proof fn lemma_bundle_diamond(
    s: Seq<(String, LinkedSnippet)>,
    a: Seq<char>,
    b: Seq<char>,
    c: Seq<char>,
    d: Seq<char>,
)
    requires
        unique_names(s),
        a != b && a != c && a != d && b != c && b != d && c != d,
        map_of(s).contains_key(a) && map_of(s).contains_key(b) && map_of(s).contains_key(c)
            && map_of(s).contains_key(d),
        map_of(s)[a].includes == set![b, c],
        map_of(s)[b].includes == set![d],
        map_of(s)[c].includes == set![d],
        map_of(s)[d].includes == Set::<Seq<char>>::empty(),
    ensures
        ({
            let order = bundle_order(s, a, map_of(s)[a], Set::empty());
            &&& order.len() == 3
            &&& order.no_duplicates()
            &&& order.to_set() == set![b, c, d]
            &&& bundle_text(s, a, map_of(s)[a], Set::empty(), false) == map_of(s)[a].contents
                + map_of(s)[order[0]].contents + map_of(s)[order[1]].contents + map_of(s)[order[2]].contents
        }),
{
    let m = map_of(s);
    let stop = Set::<Seq<char>>::empty().insert(a);
    let units = bundle_units(m, a, m[a], Set::empty());
    let within = set![b, c, d];
    assert(is_dep_path(m, stop, m[a].includes, seq![b]));
    assert(is_dep_path(m, stop, m[a].includes, seq![c]));
    let pd = seq![b, d];
    assert(dep_step(m, stop, pd[0], pd[1]));
    assert(is_dep_path(m, stop, m[a].includes, pd));
    assert(units.contains(b) && units.contains(c));
    assert(units.contains(d)) by {
        assert(pd.last() == d);
    }
    assert forall|k: Seq<char>| units.contains(k) implies within.contains(k) by {
        let p = choose|p: Seq<Seq<char>>| #[trigger] is_dep_path(m, stop, m[a].includes, p) && p.last() == k;
        assert forall|x: Seq<char>, y: Seq<char>| within.contains(x) && #[trigger] dep_step(m, stop, x, y)
            implies within.contains(y) by {}
        lemma_reached_within(m, stop, m[a].includes, within, p);
    }
    let order = bundle_order(s, a, m[a], Set::empty());
    lemma_filtered_names(s, is_unit(m, a, m[a], Set::empty()));
    assert(order.to_set() =~= within);
    order.unique_seq_to_set();
    assert(within.len() == 3);
    assert(order.len() == 3);
    assert(order.to_set().contains(order[0]) && order.to_set().contains(order[1]) && order.to_set().contains(
        order[2],
    ));
    let h = bundle_head(a, m[a], false);
    assert(h =~= m[a].contents);
    let o0 = order.drop_last().drop_last().drop_last();
    let o1 = order.drop_last().drop_last();
    let o2 = order.drop_last();
    assert(o0 =~= Seq::<Seq<char>>::empty());
    assert(o1.drop_last() == o0);
    assert(o2.drop_last() == o1);
    assert(o1.last() == order[0]);
    assert(o2.last() == order[1]);
    assert(order.last() == order[2]);
    assert(emit(m, false, h, o0) == h);
    assert(emit(m, false, h, o1) == with_unit(m, false, h, order[0]));
    assert(emit(m, false, h, o1) == h + m[order[0]].contents);
    assert(emit(m, false, h, o2) == with_unit(m, false, emit(m, false, h, o1), order[1]));
    assert(emit(m, false, h, order) == with_unit(m, false, emit(m, false, h, o2), order[2]));
}

/// Bundling a name that is itself excluded gives empty text.
pub proof fn lemma_bundle_excluded(
    s: Seq<(String, LinkedSnippet)>,
    name: Seq<char>,
    link: Fragment,
    excl: Set<Seq<char>>,
    guard: bool,
)
    requires
        excl.contains(name),
    ensures
        bundle_text(s, name, link, excl, guard).len() == 0,
{
}

/// The bundled name is never expanded through the map: a snippet that lists its own
/// name as its only dependency bundles to its own text alone.
pub proof fn lemma_bundle_self_dependency(s: Seq<(String, LinkedSnippet)>, name: Seq<char>, link: Fragment)
    requires
        unique_names(s),
        link.includes == set![name],
    ensures
        bundle_text(s, name, link, Set::empty(), false) == link.contents,
{
    let m = map_of(s);
    let order = bundle_order(s, name, link, Set::empty());
    lemma_filtered_names(s, is_unit(m, name, link, Set::empty()));
    if order.len() > 0 {
        assert(order.contains(order[0]));
        let p = choose|p: Seq<Seq<char>>|
            #[trigger] is_dep_path(m, Set::<Seq<char>>::empty().insert(name), link.includes, p) && p.last()
                == order[0];
        assert(link.includes.contains(p[0]));
        assert(Set::<Seq<char>>::empty().insert(name).contains(p[0]));
    }
    assert(bundle_head(name, link, false) =~= link.contents);
}

/// A name that follows the hidden convention: it begins with an underscore.
pub open spec fn is_hidden(k: Seq<char>) -> bool {
    k.len() > 0 && k[0] == '_'
}

/// Whether `s` begins with an underscore.
pub fn hidden_name(s: &String) -> (r: bool)
    ensures
        r == is_hidden(s@),
{
    let len = s.as_str().unicode_len();
    len > 0 && s.as_str().get_char(0) == '_'
}

/// Whether a name is listed: with `hide`, hidden names are not.
pub open spec fn shown(hide: bool) -> spec_fn(Seq<char>) -> bool {
    |k: Seq<char>| !(hide && is_hidden(k))
}

/// `a` with the entries of `b` merged in: a name held by both maps to the first's
/// snippet followed by the second's.
pub open spec fn merged(a: Map<Seq<char>, Fragment>, b: Map<Seq<char>, Fragment>) -> Map<Seq<char>, Fragment> {
    Map::new(
        |k: Seq<char>| a.contains_key(k) || b.contains_key(k),
        |k: Seq<char>|
            if b.contains_key(k) {
                joined(
                    if a.contains_key(k) {
                        a[k]
                    } else {
                        empty_fragment()
                    },
                    b[k],
                )
            } else {
                a[k]
            },
    )
}

/// The view of `map` with `name` made to hold `link` appended to what it held.
pub open spec fn merged_entry(m: Map<Seq<char>, Fragment>, name: Seq<char>, link: Fragment) -> Map<Seq<char>, Fragment> {
    m.insert(
        name,
        joined(
            if m.contains_key(name) {
                m[name]
            } else {
                empty_fragment()
            },
            link,
        ),
    )
}

impl LinkedSnippet {
    /// Adds every name of `deps` to the set of names this snippet depends on.
    pub fn push_includes(&mut self, deps: Vec<String>)
        requires
            old(self).wf(),
        ensures
            final(self).wf(),
            final(self)@ == (Fragment { includes: old(self)@.includes + names(deps@).to_set(), ..old(self)@ }),
    {
        let ghost all = names(deps@);
        let ghost start = self@;
        let mut i: usize = 0;
        assert(all.subrange(0, 0).to_set() =~= Set::<Seq<char>>::empty());
        assert(start.includes + Set::<Seq<char>>::empty() =~= start.includes);
        assert(self@ =~= (Fragment { includes: start.includes + all.subrange(0, 0).to_set(), ..start }));
        while i < deps.len()
            invariant
                self.wf(),
                i <= deps.len(),
                all == names(deps@),
                self@ == (Fragment { includes: start.includes + all.subrange(0, i as int).to_set(), ..start }),
            decreases deps.len() - i,
        {
            let d = deps[i].clone();
            assert(all[i as int] == d@);
            assert(all.subrange(0, i + 1) =~= all.subrange(0, i as int) + seq![d@]);
            proof {
                Seq::lemma_to_set_insert_commutes(all.subrange(0, i as int), d@);
            }
            self.push_include(d);
            i = i + 1;
            assert(self@.includes =~= start.includes + all.subrange(0, i as int).to_set());
        }
        assert(all.subrange(0, all.len() as int) =~= all);
        assert(self@.includes =~= start.includes + all.to_set());
    }

    /// Appends `other`: its text after this one's, its dependency names added to these.
    pub fn append(&mut self, other: Self)
        requires
            old(self).wf(),
        ensures
            final(self).wf(),
            final(self)@ == joined(old(self)@, other@),
    {
        let LinkedSnippet { contents, includes } = other;
        self.push_contents(contents.as_str());
        self.push_includes(includes);
    }

    /// Replaces the text by `formatted` where formatting succeeded; reports whether it did.
    pub fn format(&mut self, formatted: Option<String>) -> (r: bool)
        ensures
            r == formatted is Some,
            final(self).includes == old(self).includes,
            final(self).contents@ == (match formatted {
                Some(f) => f@,
                None => old(self).contents@,
            }),
    {
        match formatted {
            Some(f) => {
                self.contents = f;
                true
            },
            None => false,
        }
    }
}

impl SnippetMap {
    /// Appends `link` to the snippet named `name`, creating that snippet first when
    /// the map lacks it.
    pub fn merge_entry(&mut self, name: String, link: LinkedSnippet)
        requires
            old(self).wf(),
            link.wf(),
        ensures
            final(self).wf(),
            final(self)@ == merged_entry(old(self)@, name@, link@),
    {
        match self.position(&name) {
            Some(i) => {
                proof {
                    lemma_map_of_entry(self.map@, i as int);
                }
                let ghost s0 = self.map@;
                let (k, mut l) = self.map.remove(i);
                assert(s0[i as int] == (k, l));
                l.append(link);
                self.map.insert(i, (k, l));
                assert(self.map@ =~= s0.update(i as int, (k, l)));
                assert(forall|j: int| 0 <= j < self.map@.len() && j != i ==> self.map@[j] == s0[j]);
                assert(self.map@[i as int] == (k, l));
                proof {
                    lemma_map_of_update(s0, i as int, l);
                }
                assert(self@ =~= merged_entry(old(self)@, name@, link@));
            },
            None => {
                let mut l = LinkedSnippet::new();
                l.append(link);
                let ghost s0 = self.map@;
                assert forall|j: int| 0 <= j < s0.len() implies s0[j].0@ != name@ by {
                    lemma_map_of_entry(s0, j);
                }
                let mut at: usize = 0;
                while at < self.map.len() && name_lt(&self.map[at].0, &name)
                    invariant
                        self.map@ == s0,
                        at <= s0.len(),
                        forall|j: int| 0 <= j < at ==> lex_lt(#[trigger] s0[j].0@, name@),
                    decreases s0.len() - at,
                {
                    at = at + 1;
                }
                proof {
                    if at < s0.len() {
                        lemma_lex_total(s0[at as int].0@, name@);
                    }
                    assert forall|j: int| at <= j < s0.len() implies lex_lt(name@, #[trigger] s0[j].0@) by {
                        if j > at {
                            lemma_lex_transitive(name@, s0[at as int].0@, s0[j].0@);
                        }
                    }
                    lemma_map_of_insert(s0, at as int, (name, l));
                }
                let ghost e = (name, l);
                self.map.insert(at, (name, l));
                assert(self.map@ == s0.insert(at as int, e));
                assert(forall|a: int| 0 <= a < self.map@.len() ==> (a < at ==> self.map@[a] == s0[a]) && (a == at
                    ==> self.map@[a] == e) && (a > at ==> self.map@[a] == s0[a - 1]));
                assert(sorted_names(self.map@));
                assert(l@ =~= joined(empty_fragment(), link@)) by {
                    assert(l@.contents =~= empty_fragment().contents + link@.contents);
                    assert(l@.includes =~= empty_fragment().includes + link@.includes);
                }
                assert(self@ =~= merged_entry(old(self)@, name@, link@));
            },
        }
    }

    /// Merges every entry of `other` into this map, appending where a name is held by both.
    pub fn extend(&mut self, other: SnippetMap)
        requires
            old(self).wf(),
            other.wf(),
        ensures
            final(self).wf(),
            final(self)@ == merged(old(self)@, other@),
    {
        let mut rest = other.map;
        let ghost all = rest@;
        let ghost start = self@;
        let ghost mut done: int = 0;
        while rest.len() > 0
            invariant
                self.wf(),
                unique_names(all),
                forall|i: int| 0 <= i < all.len() ==> (#[trigger] all[i]).1.wf(),
                0 <= done <= all.len(),
                rest@ == all.subrange(done, all.len() as int),
                self@ == merged(start, map_of(all.subrange(0, done))),
            decreases rest.len(),
        {
            let ghost before = rest@;
            let (k, l) = rest.remove(0);
            assert(all[done] == (k, l)) by {
                assert(before[0] == all[done]);
            }
            let ghost prev = all.subrange(0, done);
            let ghost next = all.subrange(0, done + 1);
            assert(next.drop_last() =~= prev);
            assert(next.last() == (k, l));
            assert(!map_of(prev).contains_key(k@)) by {
                if map_of(prev).contains_key(k@) {
                    let z = lemma_map_of_has(prev, k@);
                    assert(all[z] == prev[z]);
                }
            }
            self.merge_entry(k, l);
            proof {
                done = done + 1;
            }
            assert(rest@ =~= all.subrange(done, all.len() as int));
            assert(self@ =~= merged(start, map_of(all.subrange(0, done))));
        }
        assert(all.subrange(0, all.len() as int) =~= all);
    }

    /// The names of the map, in order; with `hide`, less those that begin with an underscore.
    pub fn keys(&self, hide: bool) -> (r: Vec<String>)
        requires
            self.wf(),
        ensures
            names(r@) == entry_names(self.map@).filter(shown(hide)),
            forall|a: int, b: int| 0 <= a < b < r@.len() ==> lex_lt(#[trigger] r@[a]@, #[trigger] r@[b]@),
    {
        let ghost keep = shown(hide);
        let mut r: Vec<String> = Vec::new();
        let mut i: usize = 0;
        while i < self.map.len()
            invariant
                i <= self.map@.len(),
                keep == shown(hide),
                self.wf(),
                names(r@) == entry_names(self.map@).subrange(0, i as int).filter(keep),
                forall|a: int, b: int| 0 <= a < b < r@.len() ==> lex_lt(#[trigger] r@[a]@, #[trigger] r@[b]@),
                forall|a: int| 0 <= a < r@.len() ==> exists|j: int| 0 <= j < i && #[trigger] r@[a]@ == self.map@[j].0@,
            decreases self.map.len() - i,
        {
            let k = &self.map[i].0;
            let ghost pre = entry_names(self.map@).subrange(0, i as int);
            assert(entry_names(self.map@).subrange(0, i + 1) =~= pre.push(k@));
            assert(pre.push(k@).drop_last() =~= pre);
            proof {
                reveal(Seq::filter);
            }
            if !(hide && hidden_name(k)) {
                let ghost b = names(r@);
                let ghost rb = r@;
                r.push(k.clone());
                assert(names(r@) =~= b.push(k@));
                assert forall|a: int| 0 <= a < rb.len() implies lex_lt(#[trigger] r@[a]@, k@) by {
                    let j = choose|j: int| 0 <= j < i && rb[a]@ == self.map@[j].0@;
                    assert(r@[a] == rb[a]);
                }
                assert(r@[rb.len() as int]@ == self.map@[i as int].0@);
            }
            i = i + 1;
        }
        assert(entry_names(self.map@).subrange(0, self.map@.len() as int) =~= entry_names(self.map@));
        r
    }

    /// Every entry renamed to `prefix`, an underscore, then its old name.
    pub fn with_prefix(self, prefix: &str) -> (r: SnippetMap)
        requires
            self.wf(),
        ensures
            r.wf(),
            r.map@.len() == self.map@.len(),
            forall|i: int|
                0 <= i < r.map@.len() ==> (#[trigger] r.map@[i]).0@ == prefix@ + seq!['_'] + self.map@[i].0@
                    && r.map@[i].1 == self.map@[i].1,
    {
        proof {
            reveal_strlit("_");
        }
        let ghost all = self.map@;
        let mut rest = self.map;
        let mut out: Vec<(String, LinkedSnippet)> = Vec::new();
        while rest.len() > 0
            invariant
                unique_names(all),
                forall|i: int| 0 <= i < all.len() ==> (#[trigger] all[i]).1.wf(),
                out@.len() <= all.len(),
                rest@ == all.subrange(out@.len() as int, all.len() as int),
                forall|i: int|
                    0 <= i < out@.len() ==> (#[trigger] out@[i]).0@ == prefix@ + seq!['_'] + all[i].0@
                        && out@[i].1 == all[i].1,
            decreases rest.len(),
        {
            let ghost n = out@.len() as int;
            let ghost before = rest@;
            let (k, l) = rest.remove(0);
            assert(all[n] == (k, l)) by {
                assert(before[0] == all[n]);
            }
            proof {
                reveal_strlit("_");
            }
            let mut name = prefix.to_owned();
            name.append("_");
            name.append(k.as_str());
            assert(name@ == prefix@ + seq!['_'] + all[n].0@);
            out.push((name, l));
            assert(rest@ =~= all.subrange(out@.len() as int, all.len() as int));
        }
        let r = SnippetMap { map: out };
        assert forall|i: int, j: int| 0 <= i < j < out@.len() implies lex_lt(#[trigger] out@[i].0@, #[trigger] out@[j].0@) by {
            let pi = prefix@ + seq!['_'];
            assert(out@[i].0@ =~= pi + all[i].0@);
            assert(out@[j].0@ =~= pi + all[j].0@);
            lemma_lex_prefix(pi, all[i].0@, all[j].0@);
        }
        assert forall|i: int, j: int| 0 <= i < out@.len() && 0 <= j < out@.len() && i != j implies out@[i].0@ != out@[j].0@ by {
            let pi = prefix@ + seq!['_'];
            assert(out@[i].0@ == pi + all[i].0@);
            assert(out@[j].0@ == pi + all[j].0@);
            if out@[i].0@ == out@[j].0@ {
                assert(all[i].0@ =~= out@[i].0@.subrange(pi.len() as int, out@[i].0@.len() as int));
                assert(all[j].0@ =~= out@[j].0@.subrange(pi.len() as int, out@[j].0@.len() as int));
            }
        }
        r
    }
}


/// The names of `ks`, each followed by a space but the last.
pub open spec fn spaced(ks: Seq<Seq<char>>) -> Seq<char>
    decreases ks.len(),
{
    if ks.len() == 0 {
        Seq::empty()
    } else if ks.len() == 1 {
        ks[0]
    } else {
        spaced(ks.drop_last()) + seq![' '] + ks.last()
    }
}

impl SnippetMap {
    /// The bundle of the snippet named `name`, with guard comments, leaving out
    /// `excludes`; `None` when the map has no such snippet.
    pub fn bundle_named(&self, name: &str, excludes: Vec<String>) -> (r: Option<String>)
        requires
            self.wf(),
        ensures
            r is None <==> !self@.contains_key(name@),
            r matches Some(out) ==> out@ == bundle_text(self.map@, name@, self@[name@], names(excludes@).to_set(), true),
    {
        match self.get(name) {
            Some(link) => Some(self.bundle(name, link, excludes, true)),
            None => None,
        }
    }

    /// The names of the map, separated by spaces; with `hide`, less hidden ones.
    pub fn list_text(&self, hide: bool) -> (r: String)
        requires
            self.wf(),
        ensures
            r@ == spaced(entry_names(self.map@).filter(shown(hide))),
    {
        proof {
            reveal_strlit(" ");
        }
        let ks = self.keys(hide);
        let mut r = String::new();
        let mut i: usize = 0;
        while i < ks.len()
            invariant
                i <= ks@.len(),
                r@ == spaced(names(ks@).subrange(0, i as int)),
            decreases ks.len() - i,
        {
            proof {
                reveal_strlit(" ");
            }
            let ghost pre = names(ks@).subrange(0, i as int);
            assert(names(ks@).subrange(0, i + 1).drop_last() =~= pre);
            if i > 0 {
                r.append(" ");
            }
            r.append(ks[i].as_str());
            i = i + 1;
            assert(r@ =~= spaced(names(ks@).subrange(0, i as int)));
        }
        assert(names(ks@).subrange(0, ks@.len() as int) =~= names(ks@));
        r
    }
}


/// A plain record of one snippet: its name, its text and its dependency names.
pub open spec fn record_fragment(r: (String, String, Vec<String>)) -> Fragment {
    Fragment { contents: r.1@, includes: names(r.2@).to_set() }
}

/// The map that the first `n` records make, merged in order.
pub open spec fn records_map(rs: Seq<(String, String, Vec<String>)>, n: nat) -> Map<Seq<char>, Fragment>
    decreases n,
{
    if n == 0 || n > rs.len() {
        Map::empty()
    } else {
        merged_entry(records_map(rs, (n - 1) as nat), rs[n - 1].0@, record_fragment(rs[n - 1]))
    }
}

/// Record `r` describes entry `e`: same name, same text, same dependency names.
pub open spec fn describes(r: (String, String, Vec<String>), e: (String, LinkedSnippet)) -> bool {
    r.0@ == e.0@ && r.1@ == e.1.contents@ && names(r.2@) == names(e.1.includes@)
}

/// Rebuilding a map from the records that describe its entries, as `to_entries`
/// gives them, yields the same map: the same names, each with the same text and the
/// same set of dependency names.
pub proof fn lemma_entries_round_trip(m: SnippetMap, rs: Seq<(String, String, Vec<String>)>)
    requires
        m.wf(),
        rs.len() == m.map@.len(),
        forall|i: int| 0 <= i < rs.len() ==> describes(#[trigger] rs[i], m.map@[i]),
    ensures
        records_map(rs, rs.len()) == m@,
{
    lemma_records_round_trip(m, rs, rs.len());
    assert(m.map@.subrange(0, rs.len() as int) =~= m.map@);
}

/// The first `n` records that describe the entries of `m` rebuild the map of its
/// first `n` entries.
proof fn lemma_records_round_trip(m: SnippetMap, rs: Seq<(String, String, Vec<String>)>, n: nat)
    requires
        m.wf(),
        rs.len() == m.map@.len(),
        n <= rs.len(),
        forall|i: int| 0 <= i < rs.len() ==> describes(#[trigger] rs[i], m.map@[i]),
    ensures
        records_map(rs, n) == map_of(m.map@.subrange(0, n as int)),
    decreases n,
{
    if n > 0 {
        lemma_records_round_trip(m, rs, (n - 1) as nat);
        let pre = m.map@.subrange(0, n - 1);
        let cur = m.map@.subrange(0, n as int);
        assert(cur.drop_last() =~= pre);
        let k = rs[n - 1].0@;
        assert(describes(rs[n - 1], m.map@[n - 1]));
        assert(!map_of(pre).contains_key(k)) by {
            if map_of(pre).contains_key(k) {
                let z = lemma_map_of_has(pre, k);
                assert(pre[z] == m.map@[z]);
            }
        }
        assert(record_fragment(rs[n - 1]) == m.map@[n - 1].1@);
        assert(joined(empty_fragment(), record_fragment(rs[n - 1])) =~= record_fragment(rs[n - 1])) by {
            assert(empty_fragment().contents + record_fragment(rs[n - 1]).contents =~= record_fragment(rs[n - 1]).contents);
            assert(empty_fragment().includes + record_fragment(rs[n - 1]).includes =~= record_fragment(rs[n - 1]).includes);
        }
        assert(records_map(rs, n) =~= map_of(cur));
    } else {
        assert(map_of(m.map@.subrange(0, 0)) =~= Map::<Seq<char>, Fragment>::empty());
    }
}

impl SnippetMap {
    /// The entries of the map as plain records, in order.
    pub fn to_entries(&self) -> (r: Vec<(String, String, Vec<String>)>)
        ensures
            r@.len() == self.map@.len(),
            forall|i: int| 0 <= i < r@.len() ==> describes(#[trigger] r@[i], self.map@[i]),
    {
        let mut r: Vec<(String, String, Vec<String>)> = Vec::new();
        let mut i: usize = 0;
        while i < self.map.len()
            invariant
                i <= self.map@.len(),
                r@.len() == i,
                forall|j: int| 0 <= j < i ==> describes(#[trigger] r@[j], self.map@[j]),
            decreases self.map.len() - i,
        {
            let deps = &self.map[i].1.includes;
            let mut copy: Vec<String> = Vec::new();
            let mut j: usize = 0;
            while j < deps.len()
                invariant
                    j <= deps@.len(),
                    names(copy@) == names(deps@).subrange(0, j as int),
                decreases deps.len() - j,
            {
                let ghost b = names(copy@);
                copy.push(deps[j].clone());
                assert(names(copy@) =~= b.push(deps@[j as int]@));
                assert(names(deps@).subrange(0, j + 1) =~= names(deps@).subrange(0, j as int).push(deps@[j as int]@));
                j = j + 1;
            }
            assert(names(deps@).subrange(0, deps@.len() as int) =~= names(deps@));
            r.push((self.map[i].0.clone(), self.map[i].1.contents.clone(), copy));
            i = i + 1;
        }
        r
    }

    /// The map that plain records make, merged in order.
    pub fn from_entries(rs: Vec<(String, String, Vec<String>)>) -> (r: SnippetMap)
        ensures
            r.wf(),
            r@ == records_map(rs@, rs@.len()),
    {
        let ghost all = rs@;
        let total = rs.len();
        let mut m = SnippetMap::new();
        let mut rest = rs;
        let mut k: usize = 0;
        while rest.len() > 0
            invariant
                m.wf(),
                total == all.len(),
                k + rest@.len() == all.len(),
                rest@ == all.subrange(k as int, all.len() as int),
                m@ == records_map(all, k as nat),
            decreases rest.len(),
        {
            let ghost before = rest@;
            let (name, contents, deps) = rest.remove(0);
            assert(before[0] == all[k as int]);
            let mut link = LinkedSnippet::new();
            link.push_contents(contents.as_str());
            link.push_includes(deps);
            assert(link@ =~= record_fragment(all[k as int])) by {
                assert(link@.contents =~= record_fragment(all[k as int]).contents);
                assert(link@.includes =~= record_fragment(all[k as int]).includes);
            }
            m.merge_entry(name, link);
            assert(rest@ =~= all.subrange(k + 1, all.len() as int));
            k = k + 1;
        }
        m
    }
}

} // verus!
