//! Sources kept in git repositories: which revision to fetch and check out.

use vstd::prelude::*;

verus! {

/// Which revision of a repository to use.
#[derive(Clone, Debug)]
pub enum GitDependency {
    Branch(String),
    Tag(String),
    Rev(String),
}

/// A repository and, optionally, the revision to use; the default branch otherwise.
#[derive(Clone, Debug)]
pub struct GitHubSource {
    pub url: String,
    pub dependency: Option<GitDependency>,
}

/// How to fetch a repository: whether to fetch every tag, whether a shallow fetch
/// will do, which branch to clone if not the default, and which revision to check
/// out afterwards if any.
#[derive(Clone, Debug)]
pub struct FetchPlan {
    pub all_tags: bool,
    pub shallow: bool,
    pub branch: Option<String>,
    pub checkout: Option<String>,
}

impl GitHubSource {
    /// How to fetch this source: a tag needs every tag fetched and is checked out as
    /// `refs/tags/<tag>`; a branch, or no revision, needs only a shallow clone of that
    /// branch; a revision is checked out after a full clone.
    pub fn fetch_plan(&self) -> (r: FetchPlan)
        ensures
            r.all_tags == (self.dependency matches Some(GitDependency::Tag(_))),
            r.shallow == (self.dependency is None || self.dependency matches Some(GitDependency::Branch(_))),
            match self.dependency {
                Some(GitDependency::Branch(b)) => r.branch matches Some(x) && x@ == b@,
                _ => r.branch is None,
            },
            match self.dependency {
                Some(GitDependency::Tag(t)) => r.checkout matches Some(x) && x@ == "refs/tags/"@ + t@,
                Some(GitDependency::Rev(v)) => r.checkout matches Some(x) && x@ == v@,
                _ => r.checkout is None,
            },
    {
        match &self.dependency {
            Some(GitDependency::Branch(b)) => FetchPlan {
                all_tags: false,
                shallow: true,
                branch: Some(b.clone()),
                checkout: None,
            },
            Some(GitDependency::Tag(t)) => {
                let mut c = "refs/tags/".to_owned();
                c.append(t.as_str());
                FetchPlan { all_tags: true, shallow: false, branch: None, checkout: Some(c) }
            },
            Some(GitDependency::Rev(v)) => FetchPlan {
                all_tags: false,
                shallow: false,
                branch: None,
                checkout: Some(v.clone()),
            },
            None => FetchPlan { all_tags: false, shallow: true, branch: None, checkout: None },
        }
    }
}

} // verus!
