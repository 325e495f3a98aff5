//! Formatting every snippet's text: by an outside pretty-printer, or by minifying.
//! A snippet whose formatting fails keeps its text and is reported.

use crate::map::{entry_names, SnippetMap};
use vstd::prelude::*;

verus! {

/// How snippet text is formatted.
#[derive(PartialEq, Eq, Structural, Clone, Copy, Debug)]
pub enum FormatOption {
    Rustfmt,
    Minify,
}

/// The error for a format name that is neither known one.
pub open spec fn format_name_error() -> Seq<char> {
    "expected one of [rustfmt|minify]"@
}

impl FormatOption {
    /// The option named `s`: `rustfmt` or `minify`.
    pub fn from_str(s: &str) -> (r: Result<Self, String>)
        ensures
            s@ == "rustfmt"@ ==> r == Ok::<FormatOption, String>(FormatOption::Rustfmt),
            s@ == "minify"@ ==> r == Ok::<FormatOption, String>(FormatOption::Minify),
            r is Err <==> s@ != "rustfmt"@ && s@ != "minify"@,
            r matches Err(e) ==> e@ == format_name_error(),
    {
        proof {
            reveal_strlit("rustfmt");
            reveal_strlit("minify");
            assert("rustfmt"@[0] != "minify"@[0]);
        }
        let t = s.to_owned();
        if t == "rustfmt".to_owned() {
            Ok(FormatOption::Rustfmt)
        } else if t == "minify".to_owned() {
            Ok(FormatOption::Minify)
        } else {
            Err("expected one of [rustfmt|minify]".to_owned())
        }
    }
}

/// What the minifier makes of a text: the minified text, or `None` when it fails.
pub uninterp spec fn minified(s: Seq<char>) -> Option<Seq<char>>;

/// Relies on `rust_minify::minify_opt` with `remove_skip` and `add_rustfmt_skip` set:
/// its result, and whether it fails, depend on the text alone.
#[verifier::external_body]
fn minify_opt_text(content: &str) -> (r: Option<String>)
    ensures
        match r {
            Some(s) => minified(content@) == Some(s@),
            None => minified(content@) is None,
        },
{
    rust_minify::minify_opt(
        content,
        &rust_minify::MinifyOption { remove_skip: true, add_rustfmt_skip: true },
    ).ok()
}

/// The minified text of `content`, or `None` when the minifier fails.
pub fn minify(content: &str) -> (r: Option<String>)
    ensures
        match r {
            Some(s) => minified(content@) == Some(s@),
            None => minified(content@) is None,
        },
{
    minify_opt_text(content)
}

/// The names of the entries of `s` whose formatting failed, in order.
pub open spec fn failed_names(
    s: Seq<(String, crate::map::LinkedSnippet)>,
    formatted: Seq<Option<String>>,
    n: nat,
) -> Seq<Seq<char>>
    decreases n,
{
    if n == 0 || n > s.len() || n > formatted.len() {
        Seq::empty()
    } else {
        failed_names(s, formatted, (n - 1) as nat) + (if formatted[n - 1] is None {
            seq![s[n - 1].0@]
        } else {
            Seq::empty()
        })
    }
}

impl SnippetMap {
    /// Puts the formatted text of each snippet in place, position by position; a
    /// snippet whose formatting failed keeps its text, and its name is returned.
    pub fn apply_formats(&mut self, formatted: Vec<Option<String>>) -> (failed: Vec<String>)
        requires
            old(self).wf(),
            formatted@.len() == old(self).map@.len(),
        ensures
            final(self).wf(),
            entry_names(final(self).map@) == entry_names(old(self).map@),
            final(self).map@.len() == old(self).map@.len(),
            forall|i: int|
                0 <= i < final(self).map@.len() ==> (#[trigger] final(self).map@[i]).1.includes == old(
                    self,
                ).map@[i].1.includes && final(self).map@[i].1.contents@ == match formatted@[i] {
                    Some(f) => f@,
                    None => old(self).map@[i].1.contents@,
                },
            crate::map::names(failed@) == failed_names(old(self).map@, formatted@, formatted@.len()),
    {
        let ghost all = self.map@;
        let ghost fs = formatted@;
        let mut rest: Vec<(String, crate::map::LinkedSnippet)> = Vec::new();
        std::mem::swap(&mut self.map, &mut rest);
        let mut results = formatted;
        let mut failed: Vec<String> = Vec::new();
        while rest.len() > 0
            invariant
                crate::map::unique_names(all),
                forall|i: int| 0 <= i < all.len() ==> (#[trigger] all[i]).1.wf(),
                fs.len() == all.len(),
                self.map@.len() + rest@.len() == all.len(),
                rest@ == all.subrange(self.map@.len() as int, all.len() as int),
                results@ == fs.subrange(self.map@.len() as int, all.len() as int),
                forall|i: int|
                    0 <= i < self.map@.len() ==> (#[trigger] self.map@[i]).0 == all[i].0
                        && self.map@[i].1.includes == all[i].1.includes && self.map@[i].1.contents@ == match fs[i] {
                        Some(f) => f@,
                        None => all[i].1.contents@,
                    },
                crate::map::names(failed@) == failed_names(all, fs, self.map@.len() as nat),
            decreases rest.len(),
        {
            let ghost k = self.map@.len() as int;
            let ghost before = rest@;
            let ghost rbefore = results@;
            let (name, mut link) = rest.remove(0);
            let f = results.remove(0);
            assert(before[0] == all[k]);
            assert(rbefore[0] == fs[k]);
            let ok = link.format(f);
            if !ok {
                let ghost b = crate::map::names(failed@);
                failed.push(name.clone());
                assert(crate::map::names(failed@) =~= b.push(name@));
            }
            self.map.push((name, link));
            assert(rest@ =~= all.subrange(self.map@.len() as int, all.len() as int));
            assert(results@ =~= fs.subrange(self.map@.len() as int, all.len() as int));
            assert(failed_names(all, fs, (k + 1) as nat) =~= failed_names(all, fs, k as nat) + (if fs[k] is None {
                seq![all[k].0@]
            } else {
                Seq::empty()
            }));
        }
        assert(entry_names(self.map@) =~= entry_names(all));
        assert forall|i: int, j: int|
            0 <= i < self.map@.len() && 0 <= j < self.map@.len() && i != j implies self.map@[i].0@
            != self.map@[j].0@ by {
            assert(self.map@[i].0 == all[i].0);
            assert(self.map@[j].0 == all[j].0);
        }
        assert forall|i: int| 0 <= i < self.map@.len() implies (#[trigger] self.map@[i]).1.wf() by {
            assert(all[i].1.wf());
        }
        failed
    }
}

} // verus!
