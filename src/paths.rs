//! File paths as text, separated by `/`.

use vstd::prelude::*;

verus! {

/// The position of the last `/` in `s`, or -1 when there is none.
pub open spec fn last_slash(s: Seq<char>) -> int
    decreases s.len(),
{
    if s.len() == 0 {
        -1
    } else if s.last() == '/' {
        s.len() - 1
    } else {
        last_slash(s.drop_last())
    }
}

/// The directory that holds the file at `s`: everything before the last `/` (the
/// root itself for a file at the root), or nothing for a bare name.
pub open spec fn parent_of(s: Seq<char>) -> Seq<char> {
    let i = last_slash(s);
    if i < 0 {
        Seq::empty()
    } else if i == 0 {
        seq!['/']
    } else {
        s.subrange(0, i)
    }
}

/// `p` taken from the directory `dir`: `p` itself when absolute or when `dir` is empty.
pub open spec fn join(dir: Seq<char>, p: Seq<char>) -> Seq<char> {
    if (p.len() > 0 && p[0] == '/') || dir.len() == 0 {
        p
    } else if dir.last() == '/' {
        dir + p
    } else {
        dir + seq!['/'] + p
    }
}

/// The directory that holds the file at `path`.
pub fn parent_dir(path: &String) -> (r: String)
    ensures
        r@ == parent_of(path@),
{
    let s = path.as_str();
    let n = s.unicode_len();
    let mut i: usize = n;
    while i > 0
        invariant
            i <= n,
            n == path@.len(),
            s@ == path@,
            forall|j: int| i <= j < n ==> path@[j] != '/',
        decreases i,
    {
        if s.get_char(i - 1) == '/' {
            proof {
                let t = path@;
                assert(last_slash(t) == i - 1) by {
                    lemma_slash_found(t, (i - 1) as int);
                }
            }
            if i == 1 {
                proof {
                    reveal_strlit("/");
                }
                return "/".to_owned();
            }
            return s.substring_char(0, i - 1).to_owned();
        }
        i = i - 1;
    }
    proof {
        lemma_no_slash(path@);
    }
    String::new()
}

proof fn lemma_slash_found(s: Seq<char>, i: int)
    requires
        0 <= i < s.len(),
        s[i] == '/',
        forall|j: int| i < j < s.len() ==> s[j] != '/',
    ensures
        last_slash(s) == i,
    decreases s.len(),
{
    if s.len() - 1 > i {
        lemma_slash_found(s.drop_last(), i);
    }
}

proof fn lemma_no_slash(s: Seq<char>)
    requires
        forall|j: int| 0 <= j < s.len() ==> s[j] != '/',
    ensures
        last_slash(s) == -1,
    decreases s.len(),
{
    if s.len() > 0 {
        lemma_no_slash(s.drop_last());
    }
}

/// `p` taken from the directory `dir`.
pub fn join_path(dir: &String, p: &str) -> (r: String)
    ensures
        r@ == join(dir@, p@),
{
    proof {
        reveal_strlit("/");
    }
    let pl = p.unicode_len();
    let dl = dir.as_str().unicode_len();
    if (pl > 0 && p.get_char(0) == '/') || dl == 0 {
        return p.to_owned();
    }
    let mut r = dir.clone();
    if dir.as_str().get_char(dl - 1) != '/' {
        r.append("/");
    }
    r.append(p);
    r
}

} // verus!
