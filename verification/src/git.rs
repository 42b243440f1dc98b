//! The resolved entity model.
//!
//! A repository owns an arena of branches; inheritance edges are stored as
//! indices into that arena, so that any number of branches can share the
//! same parent without owning it. A context owns the repositories.

use crate::keyed::{first_match, lww_insert, unique_by};
use vstd::prelude::*;

verus! {

/// A resolved branch: a name and the indices of its parents in the owning
/// repository's branch arena.
#[derive(Debug)]
pub struct Branch {
    pub name: String,
    pub inherits: Vec<usize>,
}

/// Specification-level form of [`Branch`].
pub struct BranchSpec {
    pub name: Seq<char>,
    pub inherits: Seq<int>,
}

impl View for Branch {
    type V = BranchSpec;

    open spec fn view(&self) -> BranchSpec {
        BranchSpec { name: self.name@, inherits: self.inherits@.map_values(|p: usize| p as int) }
    }
}

/// A resolved repository: a name and the arena of its branches, keyed by
/// branch name.
#[derive(Debug)]
pub struct Repo {
    pub name: String,
    pub branches: Vec<Branch>,
}

/// Specification-level form of [`Repo`].
pub struct RepoSpec {
    pub name: Seq<char>,
    pub branches: Seq<BranchSpec>,
}

impl View for Repo {
    type V = RepoSpec;

    open spec fn view(&self) -> RepoSpec {
        RepoSpec { name: self.name@, branches: self.branches@.map_values(|b: Branch| b@) }
    }
}

/// The root of the resolved model: the repositories, keyed by name.
#[derive(Debug)]
pub struct Context {
    pub repos: Vec<Repo>,
}

/// Specification-level form of [`Context`].
pub struct ContextSpec {
    pub repos: Seq<RepoSpec>,
}

impl View for Context {
    type V = ContextSpec;

    open spec fn view(&self) -> ContextSpec {
        ContextSpec { repos: self.repos@.map_values(|r: Repo| r@) }
    }
}

/// Index of the branch named `name` in an arena, or `-1` if none carries it.
pub open spec fn branch_index(s: Seq<BranchSpec>, name: Seq<char>) -> int {
    first_match(s, |b: BranchSpec| b.name == name)
}

/// Last-write-wins insertion of a branch into an arena, keyed by name.
pub open spec fn insert_branch(s: Seq<BranchSpec>, b: BranchSpec) -> Seq<BranchSpec> {
    lww_insert(s, |x: BranchSpec| x.name == b.name, b)
}

/// Last-write-wins insertion of a repository, keyed by name.
pub open spec fn insert_repo(s: Seq<RepoSpec>, r: RepoSpec) -> Seq<RepoSpec> {
    lww_insert(s, |x: RepoSpec| x.name == r.name, r)
}

impl RepoSpec {
    /// The structural invariants of a resolved repository: branch names are
    /// unique, every inheritance edge stays inside the arena, and no branch
    /// inherits from itself.
    pub open spec fn wf(self) -> bool {
        &&& unique_by(self.branches, |b: BranchSpec| b.name)
        &&& forall|i: int, k: int|
            0 <= i < self.branches.len() && 0 <= k < self.branches[i].inherits.len() ==> {
                &&& 0 <= #[trigger] self.branches[i].inherits[k] < self.branches.len()
                &&& self.branches[i].inherits[k] != i
            }
    }
}

impl ContextSpec {
    /// The structural invariants of a resolved context: repository names are
    /// unique and every repository is well-formed.
    pub open spec fn wf(self) -> bool {
        &&& unique_by(self.repos, |r: RepoSpec| r.name)
        &&& forall|i: int| 0 <= i < self.repos.len() ==> (#[trigger] self.repos[i]).wf()
    }
}

impl Branch {
    /// A branch with no parents yet.
    pub fn new(name: String) -> (b: Branch)
        ensures
            b@.name == name@,
            b@.inherits == Seq::<int>::empty(),
    {
        let b = Branch { name, inherits: Vec::new() };
        proof {
            assert(b@.inherits =~= Seq::<int>::empty());
        }
        b
    }

    /// Appends an inheritance edge to the branch at index `parent` of the
    /// owning repository's arena.
    pub fn inherits_from(&mut self, parent: usize)
        ensures
            final (self)@.name == old(self)@.name,
            final (self)@.inherits == old(self)@.inherits.push(parent as int),
    {
        self.inherits.push(parent);
        proof {
            assert(self@.inherits =~= old(self)@.inherits.push(parent as int));
        }
    }
}

impl Repo {
    /// A repository with no branches yet.
    pub fn new(name: String) -> (r: Repo)
        ensures
            r@.name == name@,
            r@.branches == Seq::<BranchSpec>::empty(),
    {
        let r = Repo { name, branches: Vec::new() };
        proof {
            assert(r@.branches =~= Seq::<BranchSpec>::empty());
        }
        r
    }

    /// Adds `branch` to the arena, keyed by its name: a branch already
    /// carrying the same name is replaced in place, otherwise `branch` is
    /// appended.
    pub fn add_branch(&mut self, branch: Branch)
        ensures
            final (self)@.name == old(self)@.name,
            final (self)@.branches == insert_branch(old(self)@.branches, branch@),
    {
        let ghost s = self@.branches;
        let ghost target = branch@;
        let ghost p = |x: BranchSpec| x.name == target.name;
        match self.find_branch_index(&branch.name) {
            Some(i) => {
                proof {
                    crate::keyed::lemma_first_match_at(s, p, i as int);
                }
                self.branches.set(i, branch);
                proof {
                    assert(self@.branches =~= s.update(i as int, target));
                }
            },
            None => {
                proof {
                    crate::keyed::lemma_first_match(s, p);
                }
                self.branches.push(branch);
                proof {
                    assert(self@.branches =~= s.push(target));
                }
            },
        }
    }

    /// The index in the arena of the branch named `branch_name`, if any:
    /// `Some` of the lowest index carrying the name when one exists, `None`
    /// when none does.
    pub fn find_branch(&self, branch_name: &str) -> (r: Option<usize>)
        ensures
            match r {
                Some(i) => {
                    &&& i < self@.branches.len()
                    &&& self@.branches[i as int].name == branch_name@
                    &&& forall|j: int| 0 <= j < i ==> self@.branches[j].name != branch_name@
                },
                None => forall|j: int|
                    0 <= j < self@.branches.len() ==> self@.branches[j].name != branch_name@,
            },
    {
        let key: String = branch_name.to_owned();
        self.find_branch_index(&key)
    }

    fn find_branch_index(&self, key: &String) -> (r: Option<usize>)
        ensures
            match r {
                Some(i) => {
                    &&& i < self@.branches.len()
                    &&& self@.branches[i as int].name == key@
                    &&& forall|j: int| 0 <= j < i ==> self@.branches[j].name != key@
                },
                None => forall|j: int|
                    0 <= j < self@.branches.len() ==> self@.branches[j].name != key@,
            },
    {
        let n = self.branches.len();
        for i in 0..n
            invariant
                n == self.branches.len(),
                forall|j: int| 0 <= j < i ==> self@.branches[j].name != key@,
        {
            proof {
                assert(self@.branches[i as int] == self.branches@[i as int]@);
            }
            if self.branches[i].name.eq(key) {
                return Some(i);
            }
        }
        None
    }
}

impl Context {
    /// A context with no repositories yet.
    pub fn new() -> (c: Context)
        ensures
            c@.repos == Seq::<RepoSpec>::empty(),
    {
        let c = Context { repos: Vec::new() };
        proof {
            assert(c@.repos =~= Seq::<RepoSpec>::empty());
        }
        c
    }

    /// Adds `repo`, keyed by its name: a repository already carrying the
    /// same name is replaced in place, otherwise `repo` is appended.
    pub fn add_repo(&mut self, repo: Repo)
        ensures
            final (self)@.repos == insert_repo(old(self)@.repos, repo@),
    {
        let ghost s = self@.repos;
        let ghost target = repo@;
        let ghost p = |x: RepoSpec| x.name == target.name;
        match self.find_repo_index(&repo.name) {
            Some(i) => {
                proof {
                    crate::keyed::lemma_first_match_at(s, p, i as int);
                }
                self.repos.set(i, repo);
                proof {
                    assert(self@.repos =~= s.update(i as int, target));
                }
            },
            None => {
                proof {
                    crate::keyed::lemma_first_match(s, p);
                }
                self.repos.push(repo);
                proof {
                    assert(self@.repos =~= s.push(target));
                }
            },
        }
    }

    fn find_repo_index(&self, key: &String) -> (r: Option<usize>)
        ensures
            match r {
                Some(i) => {
                    &&& i < self@.repos.len()
                    &&& self@.repos[i as int].name == key@
                    &&& forall|j: int| 0 <= j < i ==> self@.repos[j].name != key@
                },
                None => forall|j: int|
                    0 <= j < self@.repos.len() ==> self@.repos[j].name != key@,
            },
    {
        let n = self.repos.len();
        for i in 0..n
            invariant
                n == self.repos.len(),
                forall|j: int| 0 <= j < i ==> self@.repos[j].name != key@,
        {
            proof {
                assert(self@.repos[i as int] == self.repos@[i as int]@);
            }
            if self.repos[i].name.eq(key) {
                return Some(i);
            }
        }
        None
    }
}

} // verus!
