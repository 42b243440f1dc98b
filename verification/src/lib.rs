//! Loads a declarative description of repositories and their branches and
//! resolves the "inherits" relations between branches into a validated graph.
//!
//! The pipeline has two phases: decoding a generic document tree into flat
//! declarations, and resolving those declarations into an entity graph while
//! enforcing the structural invariants (no self-inheritance, no dangling
//! parent names).

pub mod doc;
pub mod git;
pub mod keyed;
pub mod parser;

use vstd::prelude::*;
use vstd::string::*;

verus! {

/// A failure of the loading pipeline.
///
/// `TomlError` reports a document whose shape does not match the expected
/// schema; `StructuralError` reports a schema-valid document whose
/// cross-references are invalid.
#[derive(Debug)]
pub enum Error {
    TomlError(String),
    StructuralError(String),
}

/// Specification-level form of [`Error`]: the same two kinds, with the
/// message as a sequence of characters.
pub enum ErrorSpec {
    TomlError(Seq<char>),
    StructuralError(Seq<char>),
}

impl View for Error {
    type V = ErrorSpec;

    open spec fn view(&self) -> ErrorSpec {
        match self {
            Error::TomlError(m) => ErrorSpec::TomlError(m@),
            Error::StructuralError(m) => ErrorSpec::StructuralError(m@),
        }
    }
}

/// A branch as decoded by the flat, resolution-free decoder of this module:
/// a name and a list of parent branches. The decoder itself never fills
/// `inherits`; resolution lives in [`parser`] and [`git`].
#[derive(Debug)]
pub struct Branch {
    pub name: String,
    pub inherits: Vec<Branch>,
}

/// Specification-level form of [`Branch`]: the name, and the names of the
/// parent branches it holds.
pub struct BranchSpec {
    pub name: Seq<char>,
    pub inherits: Seq<Seq<char>>,
}

impl View for Branch {
    type V = BranchSpec;

    open spec fn view(&self) -> BranchSpec {
        BranchSpec { name: self.name@, inherits: self.inherits@.map_values(|b: Branch| b.name@) }
    }
}

/// A repository as decoded by the flat decoder: a name and its branches,
/// keyed by branch name with later duplicates overwriting earlier ones.
#[derive(Debug)]
pub struct Repo {
    pub name: String,
    pub branches: Vec<Branch>,
}

/// Specification-level form of [`Repo`].
pub struct RepoSpec {
    pub name: Seq<char>,
    pub branches: Seq<BranchSpec>,
}

impl View for Repo {
    type V = RepoSpec;

    open spec fn view(&self) -> RepoSpec {
        RepoSpec { name: self.name@, branches: self.branches@.map_values(|b: Branch| b@) }
    }
}

/// The root of the flat model: the repositories, keyed by name.
#[derive(Debug)]
pub struct Context {
    pub repos: Vec<Repo>,
}

/// Specification-level form of [`Context`].
pub struct ContextSpec {
    pub repos: Seq<RepoSpec>,
}

impl View for Context {
    type V = ContextSpec;

    open spec fn view(&self) -> ContextSpec {
        ContextSpec { repos: self.repos@.map_values(|r: Repo| r@) }
    }
}

/// What the flat branch decoder yields: `name` must be present and a
/// string; everything else of the table is ignored.
pub open spec fn spec_branch_decl(t: Seq<(String, doc::DocValue)>) -> Result<
    BranchSpec,
    ErrorSpec,
> {
    match doc::spec_table_get(t, "name"@) {
        Some(doc::DocValue::Str(n)) => Ok(BranchSpec { name: n@, inherits: Seq::empty() }),
        _ => Err(ErrorSpec::TomlError("table `branch` should have a `name` attribute"@)),
    }
}

/// What decoding the first `n` elements of a repository's `branch` array
/// yields under the flat decoder.
pub open spec fn spec_branch_decls(arr: Seq<doc::DocValue>, n: int) -> Result<
    Seq<BranchSpec>,
    ErrorSpec,
>
    decreases n,
{
    if n <= 0 {
        Ok(Seq::empty())
    } else {
        match spec_branch_decls(arr, n - 1) {
            Ok(pre) => match arr[n - 1] {
                doc::DocValue::Table(t) => match spec_branch_decl(t@) {
                    Ok(b) => Ok(keyed::lww_insert(pre, |x: BranchSpec| x.name == b.name, b)),
                    Err(e) => Err(e),
                },
                _ => Err(ErrorSpec::TomlError("value `branch` should be a table"@)),
            },
            Err(e) => Err(e),
        }
    }
}

/// What the flat repository decoder yields: `name` must be present and a
/// string, `branch` present and an array of branch tables.
pub open spec fn spec_repo_decl(t: Seq<(String, doc::DocValue)>) -> Result<RepoSpec, ErrorSpec> {
    match doc::spec_table_get(t, "name"@) {
        Some(doc::DocValue::Str(n)) => match doc::spec_table_get(t, "branch"@) {
            Some(doc::DocValue::Arr(vs)) => match spec_branch_decls(vs@, vs@.len() as int) {
                Ok(bs) => Ok(RepoSpec { name: n@, branches: bs }),
                Err(e) => Err(e),
            },
            _ => Err(ErrorSpec::TomlError("table `repo` should have an array `branch`"@)),
        },
        _ => Err(ErrorSpec::TomlError("table `repo` should have a `name` attribute"@)),
    }
}

/// What decoding the first `n` elements of the top-level `repo` array
/// yields under the flat decoder.
pub open spec fn spec_repo_decls(arr: Seq<doc::DocValue>, n: int) -> Result<
    Seq<RepoSpec>,
    ErrorSpec,
>
    decreases n,
{
    if n <= 0 {
        Ok(Seq::empty())
    } else {
        match spec_repo_decls(arr, n - 1) {
            Ok(pre) => match arr[n - 1] {
                doc::DocValue::Table(t) => match spec_repo_decl(t@) {
                    Ok(r) => Ok(keyed::lww_insert(pre, |x: RepoSpec| x.name == r.name, r)),
                    Err(e) => Err(e),
                },
                _ => Err(ErrorSpec::TomlError("value `repo` should be a table"@)),
            },
            Err(e) => Err(e),
        }
    }
}

/// What the flat context decoder yields: the top level must hold a `repo`
/// array of repository tables.
pub open spec fn spec_context_decl(t: Seq<(String, doc::DocValue)>) -> Result<
    ContextSpec,
    ErrorSpec,
> {
    match doc::spec_table_get(t, "repo"@) {
        Some(doc::DocValue::Arr(vs)) => match spec_repo_decls(vs@, vs@.len() as int) {
            Ok(rs) => Ok(ContextSpec { repos: rs }),
            Err(e) => Err(e),
        },
        _ => Err(ErrorSpec::TomlError("value `repo` should be an array"@)),
    }
}

proof fn lemma_branch_decls_err(arr: Seq<doc::DocValue>, e: ErrorSpec, n: int, m: int)
    requires
        spec_branch_decls(arr, n) == Err::<Seq<BranchSpec>, ErrorSpec>(e),
        n <= m,
    ensures
        spec_branch_decls(arr, m) == Err::<Seq<BranchSpec>, ErrorSpec>(e),
    decreases m - n,
{
    if n < m {
        lemma_branch_decls_err(arr, e, n + 1, m);
    }
}

proof fn lemma_repo_decls_err(arr: Seq<doc::DocValue>, e: ErrorSpec, n: int, m: int)
    requires
        spec_repo_decls(arr, n) == Err::<Seq<RepoSpec>, ErrorSpec>(e),
        n <= m,
    ensures
        spec_repo_decls(arr, m) == Err::<Seq<RepoSpec>, ErrorSpec>(e),
    decreases m - n,
{
    if n < m {
        lemma_repo_decls_err(arr, e, n + 1, m);
    }
}

impl Branch {
    /// Decodes one branch table under the flat decoder, exactly as
    /// [`spec_branch_decl`] says; `inherits` comes out empty.
    pub fn from_toml(table: &Vec<(String, doc::DocValue)>) -> (r: Result<Branch, Error>)
        ensures
            r matches Ok(b) ==> spec_branch_decl(table@) == Ok::<BranchSpec, ErrorSpec>(b@),
            r matches Err(e) ==> spec_branch_decl(table@) == Err::<BranchSpec, ErrorSpec>(e@),
    {
        let key_name = String::from_str("name");
        match doc::table_get(table, &key_name) {
            Some(doc::DocValue::Str(n)) => {
                let b = Branch { name: n.clone(), inherits: Vec::new() };
                proof {
                    assert(b@.inherits =~= Seq::<Seq<char>>::empty());
                }
                Ok(b)
            },
            _ => Err(
                Error::TomlError(String::from_str("table `branch` should have a `name` attribute")),
            ),
        }
    }
}

impl Repo {
    /// Decodes one repository table under the flat decoder, exactly as
    /// [`spec_repo_decl`] says.
    pub fn from_toml(table: &Vec<(String, doc::DocValue)>) -> (r: Result<Repo, Error>)
        ensures
            r matches Ok(p) ==> spec_repo_decl(table@) == Ok::<RepoSpec, ErrorSpec>(p@),
            r matches Err(e) ==> spec_repo_decl(table@) == Err::<RepoSpec, ErrorSpec>(e@),
    {
        let key_name = String::from_str("name");
        let name: String = match doc::table_get(table, &key_name) {
            Some(doc::DocValue::Str(n)) => n.clone(),
            _ => {
                return Err(
                    Error::TomlError(
                        String::from_str("table `repo` should have a `name` attribute"),
                    ),
                );
            },
        };
        let key_branch = String::from_str("branch");
        let arr: &Vec<doc::DocValue> = match doc::table_get(table, &key_branch) {
            Some(doc::DocValue::Arr(vs)) => vs,
            _ => {
                return Err(
                    Error::TomlError(
                        String::from_str("table `repo` should have an array `branch`"),
                    ),
                );
            },
        };
        let mut branches: Vec<Branch> = Vec::new();
        let n = arr.len();
        proof {
            assert(branches@.map_values(|b: Branch| b@) =~= Seq::<BranchSpec>::empty());
            assert(spec_repo_decl(table@) == (match spec_branch_decls(arr@, arr@.len() as int) {
                Ok(bs) => Ok::<RepoSpec, ErrorSpec>(RepoSpec { name: name@, branches: bs }),
                Err(e) => Err::<RepoSpec, ErrorSpec>(e),
            }));
        }
        for i in 0..n
            invariant
                n == arr.len(),
                spec_branch_decls(arr@, i as int) == Ok::<Seq<BranchSpec>, ErrorSpec>(
                    branches@.map_values(|b: Branch| b@),
                ),
                spec_repo_decl(table@) == (match spec_branch_decls(arr@, arr@.len() as int) {
                    Ok(bs) => Ok::<RepoSpec, ErrorSpec>(RepoSpec { name: name@, branches: bs }),
                    Err(e) => Err::<RepoSpec, ErrorSpec>(e),
                }),
        {
            match &arr[i] {
                doc::DocValue::Table(t) => {
                    match Branch::from_toml(t) {
                        Ok(b) => {
                            proof {
                                assert(arr@[i as int] == doc::DocValue::Table(*t));
                            }
                            push_branch_decl(&mut branches, b);
                        },
                        Err(e) => {
                            proof {
                                assert(arr@[i as int] == doc::DocValue::Table(*t));
                                assert(spec_branch_decls(arr@, i + 1) == Err::<
                                    Seq<BranchSpec>,
                                    ErrorSpec,
                                >(e@));
                                lemma_branch_decls_err(arr@, e@, i + 1, arr@.len() as int);
                            }
                            return Err(e);
                        },
                    }
                },
                _ => {
                    proof {
                        assert(!(arr@[i as int] is Table));
                        assert(spec_branch_decls(arr@, i + 1) == Err::<
                            Seq<BranchSpec>,
                            ErrorSpec,
                        >(ErrorSpec::TomlError("value `branch` should be a table"@)));
                        lemma_branch_decls_err(
                            arr@,
                            ErrorSpec::TomlError("value `branch` should be a table"@),
                            i + 1,
                            arr@.len() as int,
                        );
                    }
                    return Err(
                        Error::TomlError(String::from_str("value `branch` should be a table")),
                    );
                },
            }
        }
        Ok(Repo { name, branches })
    }
}

impl Context {
    /// Decodes a whole document under the flat decoder, exactly as
    /// [`spec_context_decl`] says.
    pub fn from_toml(table: &Vec<(String, doc::DocValue)>) -> (r: Result<Context, Error>)
        ensures
            r matches Ok(c) ==> spec_context_decl(table@) == Ok::<ContextSpec, ErrorSpec>(c@),
            r matches Err(e) ==> spec_context_decl(table@) == Err::<ContextSpec, ErrorSpec>(e@),
    {
        let key_repo = String::from_str("repo");
        let arr: &Vec<doc::DocValue> = match doc::table_get(table, &key_repo) {
            Some(doc::DocValue::Arr(vs)) => vs,
            _ => {
                return Err(Error::TomlError(String::from_str("value `repo` should be an array")));
            },
        };
        let mut repos: Vec<Repo> = Vec::new();
        let n = arr.len();
        proof {
            assert(repos@.map_values(|r2: Repo| r2@) =~= Seq::<RepoSpec>::empty());
            assert(spec_context_decl(table@) == (match spec_repo_decls(arr@, arr@.len() as int) {
                Ok(rs) => Ok::<ContextSpec, ErrorSpec>(ContextSpec { repos: rs }),
                Err(e) => Err::<ContextSpec, ErrorSpec>(e),
            }));
        }
        for i in 0..n
            invariant
                n == arr.len(),
                spec_repo_decls(arr@, i as int) == Ok::<Seq<RepoSpec>, ErrorSpec>(
                    repos@.map_values(|r2: Repo| r2@),
                ),
                spec_context_decl(table@) == (match spec_repo_decls(arr@, arr@.len() as int) {
                    Ok(rs) => Ok::<ContextSpec, ErrorSpec>(ContextSpec { repos: rs }),
                    Err(e) => Err::<ContextSpec, ErrorSpec>(e),
                }),
        {
            match &arr[i] {
                doc::DocValue::Table(t) => {
                    match Repo::from_toml(t) {
                        Ok(r) => {
                            proof {
                                assert(arr@[i as int] == doc::DocValue::Table(*t));
                            }
                            push_repo_decl(&mut repos, r);
                        },
                        Err(e) => {
                            proof {
                                assert(arr@[i as int] == doc::DocValue::Table(*t));
                                assert(spec_repo_decls(arr@, i + 1) == Err::<
                                    Seq<RepoSpec>,
                                    ErrorSpec,
                                >(e@));
                                lemma_repo_decls_err(arr@, e@, i + 1, arr@.len() as int);
                            }
                            return Err(e);
                        },
                    }
                },
                _ => {
                    proof {
                        assert(!(arr@[i as int] is Table));
                        assert(spec_repo_decls(arr@, i + 1) == Err::<Seq<RepoSpec>, ErrorSpec>(
                            ErrorSpec::TomlError("value `repo` should be a table"@),
                        ));
                        lemma_repo_decls_err(
                            arr@,
                            ErrorSpec::TomlError("value `repo` should be a table"@),
                            i + 1,
                            arr@.len() as int,
                        );
                    }
                    return Err(
                        Error::TomlError(String::from_str("value `repo` should be a table")),
                    );
                },
            }
        }
        Ok(Context { repos })
    }
}

/// Inserts a decoded branch, keyed by its name, later branches overwriting
/// earlier ones.
fn push_branch_decl(branches: &mut Vec<Branch>, b: Branch)
    ensures
        final (branches)@.map_values(|x: Branch| x@) == keyed::lww_insert(
            old(branches)@.map_values(|x: Branch| x@),
            |x: BranchSpec| x.name == b@.name,
            b@,
        ),
{
    let ghost s = branches@.map_values(|x: Branch| x@);
    let ghost target = b@;
    let ghost p = |x: BranchSpec| x.name == target.name;
    let n = branches.len();
    for i in 0..n
        invariant
            n == branches.len(),
            branches@ == old(branches)@,
            s == branches@.map_values(|x: Branch| x@),
            p == (|x: BranchSpec| x.name == target.name),
            target == b@,
            forall|j: int| 0 <= j < i ==> !p(s[j]),
    {
        proof {
            assert(s[i as int] == branches@[i as int]@);
        }
        if branches[i].name.eq(&b.name) {
            proof {
                keyed::lemma_first_match_at(s, p, i as int);
            }
            branches.set(i, b);
            proof {
                assert(branches@.map_values(|x: Branch| x@) =~= s.update(i as int, target));
            }
            return ;
        }
    }
    proof {
        keyed::lemma_first_match(s, p);
    }
    branches.push(b);
    proof {
        assert(branches@.map_values(|x: Branch| x@) =~= s.push(target));
    }
}

/// Inserts a decoded repository, keyed by its name, later repositories
/// overwriting earlier ones.
fn push_repo_decl(repos: &mut Vec<Repo>, r: Repo)
    ensures
        final (repos)@.map_values(|x: Repo| x@) == keyed::lww_insert(
            old(repos)@.map_values(|x: Repo| x@),
            |x: RepoSpec| x.name == r@.name,
            r@,
        ),
{
    let ghost s = repos@.map_values(|x: Repo| x@);
    let ghost target = r@;
    let ghost p = |x: RepoSpec| x.name == target.name;
    let n = repos.len();
    for i in 0..n
        invariant
            n == repos.len(),
            repos@ == old(repos)@,
            s == repos@.map_values(|x: Repo| x@),
            p == (|x: RepoSpec| x.name == target.name),
            target == r@,
            forall|j: int| 0 <= j < i ==> !p(s[j]),
    {
        proof {
            assert(s[i as int] == repos@[i as int]@);
        }
        if repos[i].name.eq(&r.name) {
            proof {
                keyed::lemma_first_match_at(s, p, i as int);
            }
            repos.set(i, r);
            proof {
                assert(repos@.map_values(|x: Repo| x@) =~= s.update(i as int, target));
            }
            return ;
        }
    }
    proof {
        keyed::lemma_first_match(s, p);
    }
    repos.push(r);
    proof {
        assert(repos@.map_values(|x: Repo| x@) =~= s.push(target));
    }
}

} // verus!
