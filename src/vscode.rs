//! Editor-snippet records: one per snippet whose name is not hidden, with its text
//! (its bundle, unless dependencies are ignored) made safe for placeholder syntax.

use crate::map::{bundle_text, entry_names, is_hidden, shown, SnippetMap};
use vstd::prelude::*;

verus! {

/// `s` with every `$` written as `\$`.
pub open spec fn escape_dollars(s: Seq<char>) -> Seq<char>
    decreases s.len(),
{
    if s.len() == 0 {
        Seq::empty()
    } else {
        escape_dollars(s.drop_last()) + (if s.last() == '$' {
            seq!['\\', '$']
        } else {
            seq![s.last()]
        })
    }
}

/// Relies on `str::replace`: every `$` replaced by `\$`, everything else kept in order.
#[verifier::external_body]
fn replace_dollars(s: &str) -> (r: String)
    ensures
        r@ == escape_dollars(s@),
{
    s.replace('$', "\\$")
}

/// An editor snippet: the prefix that triggers it, its body, and the language it is for.
#[derive(Clone, Debug)]
pub struct VsCode {
    pub prefix: String,
    pub body: String,
    pub scope: String,
}

impl VsCode {
    /// The record for the snippet `prefix` whose text is `contents`.
    pub fn new(prefix: String, contents: &str) -> (r: Self)
        ensures
            r.prefix@ == prefix@,
            r.body@ == escape_dollars(contents@),
            r.scope@ == "rust"@,
    {
        VsCode { prefix, body: replace_dollars(contents), scope: "rust".to_owned() }
    }
}

impl SnippetMap {
    /// One record for each snippet whose name is not hidden, in order: its text alone
    /// with `ignore_include`, else its bundle with no guard comments.
    pub fn to_vscode(&self, ignore_include: bool) -> (r: Vec<(String, VsCode)>)
        requires
            self.wf(),
        ensures
            r@.map_values(|e: (String, VsCode)| e.0@) == entry_names(self.map@).filter(shown(true)),
            forall|i: int|
                0 <= i < r@.len() ==> {
                    &&& (#[trigger] r@[i]).1.prefix@ == r@[i].0@
                    &&& r@[i].1.scope@ == "rust"@
                    &&& self@.contains_key(r@[i].0@)
                    &&& if ignore_include {
                        r@[i].1.body@ == escape_dollars(self@[r@[i].0@].contents)
                    } else {
                        r@[i].1.body@ == escape_dollars(
                            bundle_text(self.map@, r@[i].0@, self@[r@[i].0@], Set::empty(), false),
                        )
                    }
                },
    {
        let mut r: Vec<(String, VsCode)> = Vec::new();
        let mut i: usize = 0;
        while i < self.map.len()
            invariant
                self.wf(),
                i <= self.map@.len(),
                r@.map_values(|e: (String, VsCode)| e.0@) == entry_names(self.map@).subrange(0, i as int).filter(
                    shown(true),
                ),
                forall|j: int|
                    0 <= j < r@.len() ==> {
                        &&& (#[trigger] r@[j]).1.prefix@ == r@[j].0@
                        &&& r@[j].1.scope@ == "rust"@
                        &&& self@.contains_key(r@[j].0@)
                        &&& if ignore_include {
                            r@[j].1.body@ == escape_dollars(self@[r@[j].0@].contents)
                        } else {
                            r@[j].1.body@ == escape_dollars(
                                bundle_text(self.map@, r@[j].0@, self@[r@[j].0@], Set::empty(), false),
                            )
                        }
                    },
            decreases self.map.len() - i,
        {
            proof {
                reveal(Seq::filter);
                crate::map::lemma_map_of_entry(self.map@, i as int);
            }
            let name = &self.map[i].0;
            let link = &self.map[i].1;
            let ghost pre = entry_names(self.map@).subrange(0, i as int);
            assert(entry_names(self.map@).subrange(0, i + 1) =~= pre.push(name@));
            assert(pre.push(name@).drop_last() =~= pre);
            if !crate::map::hidden_name(name) {
                let body = if ignore_include {
                    VsCode::new(name.clone(), link.contents.as_str())
                } else {
                    let none: Vec<String> = Vec::new();
                    assert(crate::map::names(none@).to_set() =~= Set::<Seq<char>>::empty());
                    let b = self.bundle(name.as_str(), link, none, false);
                    VsCode::new(name.clone(), b.as_str())
                };
                let ghost before = r@;
                r.push((name.clone(), body));
                assert(r@.map_values(|e: (String, VsCode)| e.0@) =~= before.map_values(
                    |e: (String, VsCode)| e.0@,
                ).push(name@));
                assert(forall|j: int| 0 <= j < before.len() ==> r@[j] == before[j]);
            }
            i = i + 1;
        }
        assert(entry_names(self.map@).subrange(0, self.map@.len() as int) =~= entry_names(self.map@));
        r
    }
}

} // verus!
