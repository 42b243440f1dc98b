//! Decoding and resolution.
//!
//! The document decoder turns the generic document tree into flat
//! declarations ([`ParsedBranch`], [`ParsedRepo`]), checking only the shape
//! of the document. The graph resolver then builds the entity model of
//! [`crate::git`] from the declarations: one node per declared branch, then
//! the inheritance edges, looked up by name among the sibling branches. The
//! first failure of either phase aborts the whole pipeline.

use crate::doc::{spec_table_get, table_get, DocValue};
use crate::git::{branch_index, insert_branch, insert_repo};
use crate::git::{Branch, BranchSpec, Context, ContextSpec, Repo, RepoSpec};
use crate::keyed::{first_match, lww_insert};
use crate::{Error, ErrorSpec};
use vstd::prelude::*;
use vstd::string::*;

verus! {

/// A branch declaration as written in the document: its name and the names
/// of the branches it inherits from, in writing order, not yet resolved.
#[derive(Debug)]
pub struct ParsedBranch {
    pub name: String,
    pub inherits: Vec<String>,
}

/// Specification-level form of [`ParsedBranch`].
pub struct ParsedBranchSpec {
    pub name: Seq<char>,
    pub inherits: Seq<Seq<char>>,
}

impl View for ParsedBranch {
    type V = ParsedBranchSpec;

    open spec fn view(&self) -> ParsedBranchSpec {
        ParsedBranchSpec {
            name: self.name@,
            inherits: self.inherits@.map_values(|s: String| s@),
        }
    }
}

/// A repository declaration: its name and its branch declarations, keyed by
/// branch name with later duplicates overwriting earlier ones.
#[derive(Debug)]
pub struct ParsedRepo {
    pub name: String,
    pub branches: Vec<ParsedBranch>,
}

/// Specification-level form of [`ParsedRepo`].
pub struct ParsedRepoSpec {
    pub name: Seq<char>,
    pub branches: Seq<ParsedBranchSpec>,
}

impl View for ParsedRepo {
    type V = ParsedRepoSpec;

    open spec fn view(&self) -> ParsedRepoSpec {
        ParsedRepoSpec {
            name: self.name@,
            branches: self.branches@.map_values(|b: ParsedBranch| b@),
        }
    }
}

/// Last-write-wins insertion of a branch declaration, keyed by name.
pub open spec fn insert_parsed_branch(
    s: Seq<ParsedBranchSpec>,
    b: ParsedBranchSpec,
) -> Seq<ParsedBranchSpec> {
    lww_insert(s, |x: ParsedBranchSpec| x.name == b.name, b)
}

/// The strings of the first `n` elements of an array, in order, or `None`
/// if one of them is not a string.
pub open spec fn spec_decode_strings(vs: Seq<DocValue>, n: int) -> Option<Seq<Seq<char>>>
    decreases n,
{
    if n <= 0 {
        Some(Seq::empty())
    } else {
        match spec_decode_strings(vs, n - 1) {
            Some(pre) => match vs[n - 1] {
                DocValue::Str(s) => Some(pre.push(s@)),
                _ => None,
            },
            None => None,
        }
    }
}

/// What decoding a branch table yields: the declaration, or the shape error
/// the document deserves. `name` must be present and a string; `inherits`
/// is optional, but must be an array of strings when present.
pub open spec fn spec_decode_branch(t: Seq<(String, DocValue)>) -> Result<
    ParsedBranchSpec,
    ErrorSpec,
> {
    match spec_table_get(t, "name"@) {
        Some(DocValue::Str(n)) => match spec_table_get(t, "inherits"@) {
            None => Ok(ParsedBranchSpec { name: n@, inherits: Seq::empty() }),
            Some(DocValue::Arr(vs)) => match spec_decode_strings(vs@, vs@.len() as int) {
                Some(ss) => Ok(ParsedBranchSpec { name: n@, inherits: ss }),
                None => Err(ErrorSpec::TomlError("`inherits` values should be strings"@)),
            },
            Some(_) => Err(ErrorSpec::TomlError("value `inherits` should be an array"@)),
        },
        _ => Err(ErrorSpec::TomlError("table `branch` should have a `name` attribute"@)),
    }
}

/// What decoding the first `n` elements of a repository's `branch` array
/// yields: the branch declarations keyed by name, or the first error.
pub open spec fn spec_decode_branches(arr: Seq<DocValue>, n: int) -> Result<
    Seq<ParsedBranchSpec>,
    ErrorSpec,
>
    decreases n,
{
    if n <= 0 {
        Ok(Seq::empty())
    } else {
        match spec_decode_branches(arr, n - 1) {
            Ok(pre) => match arr[n - 1] {
                DocValue::Table(t) => match spec_decode_branch(t@) {
                    Ok(b) => Ok(insert_parsed_branch(pre, b)),
                    Err(e) => Err(e),
                },
                _ => Err(ErrorSpec::TomlError("value `branch` should be a table"@)),
            },
            Err(e) => Err(e),
        }
    }
}

/// What decoding a repository table yields: `name` must be present and a
/// string, `branch` present and an array of branch tables.
pub open spec fn spec_decode_repo(t: Seq<(String, DocValue)>) -> Result<
    ParsedRepoSpec,
    ErrorSpec,
> {
    match spec_table_get(t, "name"@) {
        Some(DocValue::Str(n)) => match spec_table_get(t, "branch"@) {
            Some(DocValue::Arr(vs)) => match spec_decode_branches(vs@, vs@.len() as int) {
                Ok(bs) => Ok(ParsedRepoSpec { name: n@, branches: bs }),
                Err(e) => Err(e),
            },
            _ => Err(ErrorSpec::TomlError("table `repo` should have an array `branch`"@)),
        },
        _ => Err(ErrorSpec::TomlError("table `repo` should have a `name` attribute"@)),
    }
}

impl ParsedBranch {
    /// Decodes one branch table of the document into a branch declaration.
    ///
    /// Returns exactly what [`spec_decode_branch`] says: the declaration
    /// when the table has the required shape, the shape error otherwise.
    pub fn from_toml(table: &Vec<(String, DocValue)>) -> (r: Result<ParsedBranch, Error>)
        ensures
            r matches Ok(b) ==> spec_decode_branch(table@) == Ok::<ParsedBranchSpec, ErrorSpec>(
                b@,
            ),
            r matches Err(e) ==> spec_decode_branch(table@) == Err::<ParsedBranchSpec, ErrorSpec>(
                e@,
            ),
    {
        let key_name = String::from_str("name");
        let name: String = match table_get(table, &key_name) {
            Some(DocValue::Str(n)) => n.clone(),
            _ => {
                return Err(
                    Error::TomlError(
                        String::from_str("table `branch` should have a `name` attribute"),
                    ),
                );
            },
        };
        let key_inherits = String::from_str("inherits");
        match table_get(table, &key_inherits) {
            None => {
                let b = ParsedBranch { name, inherits: Vec::new() };
                proof {
                    assert(b@.inherits =~= Seq::<Seq<char>>::empty());
                }
                Ok(b)
            },
            Some(DocValue::Arr(vs)) => {
                match decode_strings(vs) {
                    Ok(ss) => Ok(ParsedBranch { name, inherits: ss }),
                    Err(e) => Err(e),
                }
            },
            Some(_) => {
                Err(Error::TomlError(String::from_str("value `inherits` should be an array")))
            },
        }
    }
}

/// Reads an `inherits` array: every element must be a string.
fn decode_strings(vs: &Vec<DocValue>) -> (r: Result<Vec<String>, Error>)
    ensures
        r matches Ok(ss) ==> spec_decode_strings(vs@, vs@.len() as int) == Some(
            ss@.map_values(|s: String| s@),
        ),
        r matches Err(e) ==> {
            &&& spec_decode_strings(vs@, vs@.len() as int) is None
            &&& e@ == ErrorSpec::TomlError("`inherits` values should be strings"@)
        },
{
    let mut out: Vec<String> = Vec::new();
    let n = vs.len();
    proof {
        assert(out@.map_values(|s: String| s@) =~= Seq::<Seq<char>>::empty());
    }
    for i in 0..n
        invariant
            n == vs.len(),
            spec_decode_strings(vs@, i as int) == Some(out@.map_values(|s: String| s@)),
    {
        let ghost pre = out@.map_values(|s: String| s@);
        match &vs[i] {
            DocValue::Str(s) => {
                out.push(s.clone());
                proof {
                    assert(out@.map_values(|s2: String| s2@) =~= pre.push(vs@[i as int]->Str_0@));
                }
            },
            _ => {
                proof {
                    lemma_decode_strings_none(vs@, i + 1, vs@.len() as int);
                }
                return Err(
                    Error::TomlError(String::from_str("`inherits` values should be strings")),
                );
            },
        }
    }
    Ok(out)
}

/// Once the string decode has failed on a prefix, it fails on every longer
/// prefix.
proof fn lemma_decode_strings_none(vs: Seq<DocValue>, n: int, m: int)
    requires
        spec_decode_strings(vs, n) is None,
        n <= m,
    ensures
        spec_decode_strings(vs, m) is None,
    decreases m - n,
{
    if n < m {
        lemma_decode_strings_none(vs, n + 1, m);
    }
}

/// Once the branch decode has failed on a prefix, every longer prefix fails
/// with the same error.
proof fn lemma_decode_branches_err(arr: Seq<DocValue>, e: ErrorSpec, n: int, m: int)
    requires
        spec_decode_branches(arr, n) == Err::<Seq<ParsedBranchSpec>, ErrorSpec>(e),
        n <= m,
    ensures
        spec_decode_branches(arr, m) == Err::<Seq<ParsedBranchSpec>, ErrorSpec>(e),
    decreases m - n,
{
    if n < m {
        lemma_decode_branches_err(arr, e, n + 1, m);
    }
}

impl ParsedRepo {
    /// Decodes one repository table of the document into a repository
    /// declaration, exactly as [`spec_decode_repo`] says.
    pub fn from_toml(table: &Vec<(String, DocValue)>) -> (r: Result<ParsedRepo, Error>)
        ensures
            r matches Ok(p) ==> spec_decode_repo(table@) == Ok::<ParsedRepoSpec, ErrorSpec>(p@),
            r matches Err(e) ==> spec_decode_repo(table@) == Err::<ParsedRepoSpec, ErrorSpec>(e@),
    {
        let key_name = String::from_str("name");
        let name: String = match table_get(table, &key_name) {
            Some(DocValue::Str(n)) => n.clone(),
            _ => {
                return Err(
                    Error::TomlError(
                        String::from_str("table `repo` should have a `name` attribute"),
                    ),
                );
            },
        };
        let key_branch = String::from_str("branch");
        let arr: &Vec<DocValue> = match table_get(table, &key_branch) {
            Some(DocValue::Arr(vs)) => vs,
            _ => {
                return Err(
                    Error::TomlError(
                        String::from_str("table `repo` should have an array `branch`"),
                    ),
                );
            },
        };
        let mut branches: Vec<ParsedBranch> = Vec::new();
        let n = arr.len();
        proof {
            assert(branches@.map_values(|b: ParsedBranch| b@) =~= Seq::<
                ParsedBranchSpec,
            >::empty());
        }
        proof {
            assert(spec_decode_repo(table@) == (match spec_decode_branches(
                arr@,
                arr@.len() as int,
            ) {
                Ok(bs) => Ok::<ParsedRepoSpec, ErrorSpec>(
                    ParsedRepoSpec { name: name@, branches: bs },
                ),
                Err(e) => Err::<ParsedRepoSpec, ErrorSpec>(e),
            }));
        }
        for i in 0..n
            invariant
                n == arr.len(),
                spec_decode_branches(arr@, i as int) == Ok::<Seq<ParsedBranchSpec>, ErrorSpec>(
                    branches@.map_values(|b: ParsedBranch| b@),
                ),
                spec_decode_repo(table@) == (match spec_decode_branches(arr@, arr@.len() as int) {
                    Ok(bs) => Ok::<ParsedRepoSpec, ErrorSpec>(
                        ParsedRepoSpec { name: name@, branches: bs },
                    ),
                    Err(e) => Err::<ParsedRepoSpec, ErrorSpec>(e),
                }),
        {
            match &arr[i] {
                DocValue::Table(t) => {
                    match ParsedBranch::from_toml(t) {
                        Ok(b) => {
                            push_parsed_branch(&mut branches, b);
                        },
                        Err(e) => {
                            proof {
                                assert(arr@[i as int] == DocValue::Table(*t));
                                assert(spec_decode_branches(arr@, i + 1) == Err::<
                                    Seq<ParsedBranchSpec>,
                                    ErrorSpec,
                                >(e@));
                                lemma_decode_branches_err(arr@, e@, i + 1, arr@.len() as int);
                            }
                            return Err(e);
                        },
                    }
                },
                _ => {
                    proof {
                        assert(!(arr@[i as int] is Table));
                        assert(spec_decode_branches(arr@, i + 1) == Err::<
                            Seq<ParsedBranchSpec>,
                            ErrorSpec,
                        >(ErrorSpec::TomlError("value `branch` should be a table"@)));
                        lemma_decode_branches_err(
                            arr@,
                            ErrorSpec::TomlError("value `branch` should be a table"@),
                            i + 1,
                            arr@.len() as int,
                        );
                    }
                    return Err(
                        Error::TomlError(String::from_str("value `branch` should be a table")),
                    );
                },
            }
        }
        Ok(ParsedRepo { name, branches })
    }
}

/// The message reported when a branch names itself among its parents.
pub open spec fn self_inherit_msg(branch: Seq<char>, repo: Seq<char>) -> Seq<char> {
    "branch `"@ + branch + "` in repo `"@ + repo + "` cannot inherit from itself"@
}

/// The message reported when a parent name resolves to no branch of the
/// repository.
pub open spec fn unknown_branch_msg(parent: Seq<char>, repo: Seq<char>) -> Seq<char> {
    "unknown branch `"@ + parent + "` in repo `"@ + repo + "`"@
}

fn self_inherit_error(branch: &String, repo: &String) -> (e: Error)
    ensures
        e@ == ErrorSpec::StructuralError(self_inherit_msg(branch@, repo@)),
{
    let mut m = String::from_str("branch `");
    m.append(branch.as_str());
    m.append("` in repo `");
    m.append(repo.as_str());
    m.append("` cannot inherit from itself");
    Error::StructuralError(m)
}

fn unknown_branch_error(parent: &String, repo: &String) -> (e: Error)
    ensures
        e@ == ErrorSpec::StructuralError(unknown_branch_msg(parent@, repo@)),
{
    let mut m = String::from_str("unknown branch `");
    m.append(parent.as_str());
    m.append("` in repo `");
    m.append(repo.as_str());
    m.append("`");
    Error::StructuralError(m)
}

/// The node-creation pass over the first `n` branch declarations: one empty
/// branch entity per declared name.
pub open spec fn spec_create_nodes(bs: Seq<ParsedBranchSpec>, n: int) -> Seq<BranchSpec>
    decreases n,
{
    if n <= 0 {
        Seq::empty()
    } else {
        insert_branch(
            spec_create_nodes(bs, n - 1),
            BranchSpec { name: bs[n - 1].name, inherits: Seq::empty() },
        )
    }
}

/// Resolution of the first `k` parent names of declaration `b` against the
/// arena `nodes`: a self-reference is rejected before lookup, an absent name
/// after it; otherwise the parent's index is appended.
pub open spec fn spec_resolve_inherits(
    repo_name: Seq<char>,
    nodes: Seq<BranchSpec>,
    b: ParsedBranchSpec,
    k: int,
) -> Result<Seq<int>, ErrorSpec>
    decreases k,
{
    if k <= 0 {
        Ok(Seq::empty())
    } else {
        match spec_resolve_inherits(repo_name, nodes, b, k - 1) {
            Ok(pre) => {
                let parent = b.inherits[k - 1];
                if parent == b.name {
                    Err(ErrorSpec::StructuralError(self_inherit_msg(b.name, repo_name)))
                } else if branch_index(nodes, parent) < 0 {
                    Err(ErrorSpec::StructuralError(unknown_branch_msg(parent, repo_name)))
                } else {
                    Ok(pre.push(branch_index(nodes, parent)))
                }
            },
            Err(e) => Err(e),
        }
    }
}

/// The edge-wiring pass over the first `n` branch declarations: each
/// declaration's parents are resolved and appended to its node.
pub open spec fn spec_wire_branches(
    repo_name: Seq<char>,
    bs: Seq<ParsedBranchSpec>,
    nodes: Seq<BranchSpec>,
    n: int,
) -> Result<Seq<BranchSpec>, ErrorSpec>
    decreases n,
{
    if n <= 0 {
        Ok(nodes)
    } else {
        match spec_wire_branches(repo_name, bs, nodes, n - 1) {
            Ok(cur) => {
                let b = bs[n - 1];
                match spec_resolve_inherits(repo_name, cur, b, b.inherits.len() as int) {
                    Ok(edges) => {
                        let ci = branch_index(cur, b.name);
                        Ok(
                            cur.update(
                                ci,
                                BranchSpec { name: b.name, inherits: cur[ci].inherits + edges },
                            ),
                        )
                    },
                    Err(e) => Err(e),
                }
            },
            Err(e) => Err(e),
        }
    }
}

/// What resolving a repository declaration yields: the wired entity graph,
/// or the first structural error.
pub open spec fn spec_resolve_repo(p: ParsedRepoSpec) -> Result<RepoSpec, ErrorSpec> {
    let nodes = spec_create_nodes(p.branches, p.branches.len() as int);
    match spec_wire_branches(p.name, p.branches, nodes, p.branches.len() as int) {
        Ok(wired) => Ok(RepoSpec { name: p.name, branches: wired }),
        Err(e) => Err(e),
    }
}

/// What decoding and then resolving one repository table yields.
pub open spec fn spec_repo_from_toml(t: Seq<(String, DocValue)>) -> Result<RepoSpec, ErrorSpec> {
    match spec_decode_repo(t) {
        Ok(p) => spec_resolve_repo(p),
        Err(e) => Err(e),
    }
}

/// Some branch of `s` is named `name`.
pub open spec fn has_branch(s: Seq<BranchSpec>, name: Seq<char>) -> bool {
    exists|j: int| 0 <= j < s.len() && s[j].name == name
}

/// Inserting a branch keeps every name already present and makes the
/// inserted name present.
proof fn lemma_insert_branch_names(s: Seq<BranchSpec>, b: BranchSpec)
    ensures
        has_branch(insert_branch(s, b), b.name),
        forall|x: Seq<char>| has_branch(s, x) ==> has_branch(insert_branch(s, b), x),
{
    let p = |x: BranchSpec| x.name == b.name;
    crate::keyed::lemma_first_match(s, p);
    let r = insert_branch(s, b);
    let i0 = first_match(s, p);
    if i0 < 0 {
        assert(r[s.len() as int] == b);
        assert forall|x: Seq<char>| has_branch(s, x) implies has_branch(r, x) by {
            let j = choose|j: int| 0 <= j < s.len() && s[j].name == x;
            assert(r[j] == s[j]);
        }
    } else {
        assert(r[i0] == b);
        assert forall|x: Seq<char>| has_branch(s, x) implies has_branch(r, x) by {
            let j = choose|j: int| 0 <= j < s.len() && s[j].name == x;
            if j == i0 {
                assert(s[j].name == b.name);
                assert(r[i0].name == x);
            } else {
                assert(r[j] == s[j]);
            }
        }
    }
}

/// Every declared name has a node after the creation pass.
proof fn lemma_create_nodes_has(bs: Seq<ParsedBranchSpec>, n: int)
    requires
        n <= bs.len(),
    ensures
        forall|j: int| 0 <= j < n ==> has_branch(spec_create_nodes(bs, n), bs[j].name),
    decreases n,
{
    if n > 0 {
        lemma_create_nodes_has(bs, n - 1);
        let node = BranchSpec { name: bs[n - 1].name, inherits: Seq::empty() };
        lemma_insert_branch_names(spec_create_nodes(bs, n - 1), node);
    }
}

/// Wiring changes no name: the arena that comes out has the same names at
/// the same indices as the one that went in, provided every declaration's
/// name has a node.
proof fn lemma_wire_names(
    repo_name: Seq<char>,
    bs: Seq<ParsedBranchSpec>,
    nodes: Seq<BranchSpec>,
    n: int,
)
    requires
        n <= bs.len(),
        forall|j: int| 0 <= j < bs.len() ==> has_branch(nodes, bs[j].name),
        spec_wire_branches(repo_name, bs, nodes, n) is Ok,
    ensures
        spec_wire_branches(repo_name, bs, nodes, n)->Ok_0.len() == nodes.len(),
        forall|j: int|
            0 <= j < nodes.len() ==> #[trigger] spec_wire_branches(
                repo_name,
                bs,
                nodes,
                n,
            )->Ok_0[j].name == nodes[j].name,
    decreases n,
{
    if n > 0 {
        lemma_wire_names(repo_name, bs, nodes, n - 1);
        let cur = spec_wire_branches(repo_name, bs, nodes, n - 1)->Ok_0;
        let b = bs[n - 1];
        let pc = |x: BranchSpec| x.name == b.name;
        crate::keyed::lemma_first_match(cur, pc);
        assert(has_branch(nodes, b.name));
        let w = choose|w: int| 0 <= w < nodes.len() && nodes[w].name == b.name;
        assert(cur[w].name == b.name);
        assert(pc(cur[w]));
        let ci = branch_index(cur, b.name);
        assert(ci >= 0);
        assert(0 <= ci < cur.len());
        assert(cur[ci].name == b.name);
        let edges = spec_resolve_inherits(repo_name, cur, b, b.inherits.len() as int);
        assert(edges is Ok);
        let fin = cur.update(ci, BranchSpec { name: b.name, inherits: cur[ci].inherits + edges->Ok_0 });
        assert(spec_wire_branches(repo_name, bs, nodes, n)->Ok_0 == fin);
        assert(fin.len() == cur.len());
        assert forall|j: int| 0 <= j < nodes.len() implies fin[j].name == nodes[j].name by {
            if j != ci {
                assert(fin[j] == cur[j]);
            }
        }
    }
}

/// Once a parent entry has failed to resolve, every longer prefix fails
/// with the same error.
proof fn lemma_resolve_inherits_err(
    repo_name: Seq<char>,
    nodes: Seq<BranchSpec>,
    b: ParsedBranchSpec,
    e: ErrorSpec,
    k: int,
    m: int,
)
    requires
        spec_resolve_inherits(repo_name, nodes, b, k) == Err::<Seq<int>, ErrorSpec>(e),
        k <= m,
    ensures
        spec_resolve_inherits(repo_name, nodes, b, m) == Err::<Seq<int>, ErrorSpec>(e),
    decreases m - k,
{
    if k < m {
        lemma_resolve_inherits_err(repo_name, nodes, b, e, k + 1, m);
    }
}

/// Once the wiring of a branch has failed, every longer prefix fails with
/// the same error.
proof fn lemma_wire_err(
    repo_name: Seq<char>,
    bs: Seq<ParsedBranchSpec>,
    nodes: Seq<BranchSpec>,
    e: ErrorSpec,
    n: int,
    m: int,
)
    requires
        spec_wire_branches(repo_name, bs, nodes, n) == Err::<Seq<BranchSpec>, ErrorSpec>(e),
        n <= m,
    ensures
        spec_wire_branches(repo_name, bs, nodes, m) == Err::<Seq<BranchSpec>, ErrorSpec>(e),
    decreases m - n,
{
    if n < m {
        lemma_wire_err(repo_name, bs, nodes, e, n + 1, m);
    }
}

impl Repo {
    /// The graph resolver: builds the resolved repository from a repository
    /// declaration, creating one node per declared branch and then wiring
    /// the inheritance edges, exactly as [`spec_resolve_repo`] says.
    pub fn resolve(parsed: &ParsedRepo) -> (r: Result<Repo, Error>)
        ensures
            r matches Ok(repo) ==> spec_resolve_repo(parsed@) == Ok::<RepoSpec, ErrorSpec>(repo@),
            r matches Err(e) ==> spec_resolve_repo(parsed@) == Err::<RepoSpec, ErrorSpec>(e@),
    {
        let mut repo = Repo::new(parsed.name.clone());
        let nb = parsed.branches.len();
        proof {
            assert(repo@.branches =~= spec_create_nodes(parsed@.branches, 0));
        }
        for i in 0..nb
            invariant
                nb == parsed.branches.len(),
                repo@.name == parsed@.name,
                repo@.branches == spec_create_nodes(parsed@.branches, i as int),
        {
            proof {
                assert(parsed@.branches[i as int] == parsed.branches@[i as int]@);
            }
            let node = Branch::new(parsed.branches[i].name.clone());
            proof {
                assert(node@ == BranchSpec {
                    name: parsed@.branches[i as int].name,
                    inherits: Seq::<int>::empty(),
                });
            }
            repo.add_branch(node);
        }
        let ghost nodes0 = repo@.branches;
        proof {
            lemma_create_nodes_has(parsed@.branches, nb as int);
            assert(forall|j: int|
                0 <= j < parsed@.branches.len() ==> has_branch(
                    nodes0,
                    parsed@.branches[j].name,
                ));
        }
        for i in 0..nb
            invariant
                nb == parsed.branches.len(),
                repo@.name == parsed@.name,
                nodes0 == spec_create_nodes(parsed@.branches, nb as int),
                forall|j: int|
                    0 <= j < parsed@.branches.len() ==> has_branch(
                        nodes0,
                        parsed@.branches[j].name,
                    ),
                spec_wire_branches(parsed@.name, parsed@.branches, nodes0, i as int) == Ok::<
                    Seq<BranchSpec>,
                    ErrorSpec,
                >(repo@.branches),
        {
            let ghost cur = repo@.branches;
            proof {
                lemma_wire_names(parsed@.name, parsed@.branches, nodes0, i as int);
            }
            let pb = &parsed.branches[i];
            proof {
                assert(pb@ == parsed@.branches[i as int]);
            }
            let mut edges: Vec<usize> = Vec::new();
            let nk = pb.inherits.len();
            proof {
                assert(edges@.map_values(|u: usize| u as int) =~= Seq::<int>::empty());
            }
            for k in 0..nk
                invariant
                    nk == pb.inherits.len(),
                    pb@ == parsed@.branches[i as int],
                    0 <= i < parsed@.branches.len(),
                    nb == parsed.branches.len(),
                    repo@.name == parsed@.name,
                    repo@.branches == cur,
                    nodes0 == spec_create_nodes(parsed@.branches, nb as int),
                    spec_wire_branches(parsed@.name, parsed@.branches, nodes0, i as int) == Ok::<
                        Seq<BranchSpec>,
                        ErrorSpec,
                    >(cur),
                    spec_resolve_inherits(parsed@.name, cur, pb@, k as int) == Ok::<
                        Seq<int>,
                        ErrorSpec,
                    >(edges@.map_values(|u: usize| u as int)),
            {
                let parent: &String = &pb.inherits[k];
                proof {
                    assert(pb@.inherits[k as int] == parent@);
                }
                if parent.eq(&pb.name) {
                    let e = self_inherit_error(parent, &parsed.name);
                    proof {
                        assert(spec_resolve_inherits(parsed@.name, cur, pb@, k + 1) == Err::<
                            Seq<int>,
                            ErrorSpec,
                        >(e@));
                        lemma_resolve_inherits_err(
                            parsed@.name,
                            cur,
                            pb@,
                            e@,
                            k + 1,
                            pb@.inherits.len() as int,
                        );
                        lemma_wire_err(
                            parsed@.name,
                            parsed@.branches,
                            nodes0,
                            e@,
                            i + 1,
                            nb as int,
                        );
                    }
                    return Err(e);
                }
                match repo.find_branch(parent.as_str()) {
                    Some(pi) => {
                        proof {
                            crate::keyed::lemma_first_match_at(
                                cur,
                                |x: BranchSpec| x.name == parent@,
                                pi as int,
                            );
                            assert(branch_index(cur, parent@) == pi as int);
                        }
                        let ghost pre = edges@.map_values(|u: usize| u as int);
                        edges.push(pi);
                        proof {
                            assert(edges@.map_values(|u: usize| u as int) =~= pre.push(
                                pi as int,
                            ));
                        }
                    },
                    None => {
                        let e = unknown_branch_error(parent, &parsed.name);
                        proof {
                            crate::keyed::lemma_first_match(
                                cur,
                                |x: BranchSpec| x.name == parent@,
                            );
                            assert(branch_index(cur, parent@) < 0);
                            assert(spec_resolve_inherits(parsed@.name, cur, pb@, k + 1) == Err::<
                                Seq<int>,
                                ErrorSpec,
                            >(e@));
                            lemma_resolve_inherits_err(
                                parsed@.name,
                                cur,
                                pb@,
                                e@,
                                k + 1,
                                pb@.inherits.len() as int,
                            );
                            lemma_wire_err(
                                parsed@.name,
                                parsed@.branches,
                                nodes0,
                                e@,
                                i + 1,
                                nb as int,
                            );
                        }
                        return Err(e);
                    },
                }
            }
            let ghost edges_model = edges@.map_values(|u: usize| u as int);
            let ci: usize = match repo.find_branch(pb.name.as_str()) {
                Some(c) => c,
                None => {
                    proof {
                        lemma_wire_names(parsed@.name, parsed@.branches, nodes0, i as int);
                        assert(has_branch(nodes0, parsed@.branches[i as int].name));
                        let j = choose|j: int|
                            0 <= j < nodes0.len() && nodes0[j].name == pb@.name;
                        assert(cur[j].name == pb@.name);
                        assert(false);
                    }
                    return Err(Error::TomlError(String::new()));
                },
            };
            proof {
                crate::keyed::lemma_first_match_at(
                    cur,
                    |x: BranchSpec| x.name == pb@.name,
                    ci as int,
                );
                assert(branch_index(cur, pb@.name) == ci as int);
            }
            let mut child_inherits: Vec<usize> = repo.branches[ci].inherits.clone();
            proof {
                assert(child_inherits@ =~= repo.branches@[ci as int].inherits@);
                assert(child_inherits@.map_values(|u: usize| u as int) =~= cur[ci as int].inherits);
            }
            let ghost base = cur[ci as int].inherits;
            let ne = edges.len();
            for k2 in 0..ne
                invariant
                    ne == edges.len(),
                    child_inherits@.map_values(|u: usize| u as int) == base + edges@.map_values(
                        |u: usize| u as int,
                    ).take(k2 as int),
                    edges@.map_values(|u: usize| u as int) == edges_model,
                    base == cur[ci as int].inherits,
            {
                let ghost preci = child_inherits@.map_values(|u: usize| u as int);
                child_inherits.push(edges[k2]);
                proof {
                    assert(child_inherits@.map_values(|u: usize| u as int) =~= preci.push(
                        edges@[k2 as int] as int,
                    ));
                    assert(child_inherits@.map_values(|u: usize| u as int) =~= base
                        + edges_model.take(k2 + 1));
                }
            }
            proof {
                assert(edges_model.take(ne as int) =~= edges_model);
            }
            let child = Branch { name: pb.name.clone(), inherits: child_inherits };
            repo.branches.set(ci, child);
            proof {
                assert(repo@.branches =~= cur.update(
                    ci as int,
                    BranchSpec { name: pb@.name, inherits: base + edges_model },
                ));
                assert(spec_wire_branches(parsed@.name, parsed@.branches, nodes0, i + 1) == Ok::<
                    Seq<BranchSpec>,
                    ErrorSpec,
                >(repo@.branches));
            }
        }
        proof {
            assert(spec_resolve_repo(parsed@) == Ok::<RepoSpec, ErrorSpec>(repo@));
        }
        Ok(repo)
    }

    /// Decodes one repository table and resolves it into the entity model,
    /// exactly as [`spec_repo_from_toml`] says. A repository that comes out
    /// satisfies the structural invariants.
    pub fn from_toml(table: &Vec<(String, DocValue)>) -> (r: Result<Repo, Error>)
        ensures
            r matches Ok(repo) ==> spec_repo_from_toml(table@) == Ok::<RepoSpec, ErrorSpec>(
                repo@,
            ) && repo@.wf(),
            r matches Err(e) ==> spec_repo_from_toml(table@) == Err::<RepoSpec, ErrorSpec>(e@),
    {
        match ParsedRepo::from_toml(table) {
            Ok(parsed) => {
                let r = Repo::resolve(&parsed);
                proof {
                    if r is Ok {
                        lemma_decode_branches_unique_of_repo(table@);
                        lemma_resolve_repo_wf(parsed@);
                    }
                }
                r
            },
            Err(e) => Err(e),
        }
    }
}

/// What decoding and resolving the first `n` elements of the top-level
/// `repo` array yields: the resolved repositories keyed by name, or the
/// first error.
pub open spec fn spec_decode_repos(arr: Seq<DocValue>, n: int) -> Result<Seq<RepoSpec>, ErrorSpec>
    decreases n,
{
    if n <= 0 {
        Ok(Seq::empty())
    } else {
        match spec_decode_repos(arr, n - 1) {
            Ok(pre) => match arr[n - 1] {
                DocValue::Table(t) => match spec_repo_from_toml(t@) {
                    Ok(r) => Ok(insert_repo(pre, r)),
                    Err(e) => Err(e),
                },
                _ => Err(ErrorSpec::TomlError("value `repo` should be a table"@)),
            },
            Err(e) => Err(e),
        }
    }
}

/// Once a repository has failed to decode or resolve, every longer prefix
/// fails with the same error.
proof fn lemma_decode_repos_err(arr: Seq<DocValue>, e: ErrorSpec, n: int, m: int)
    requires
        spec_decode_repos(arr, n) == Err::<Seq<RepoSpec>, ErrorSpec>(e),
        n <= m,
    ensures
        spec_decode_repos(arr, m) == Err::<Seq<RepoSpec>, ErrorSpec>(e),
    decreases m - n,
{
    if n < m {
        lemma_decode_repos_err(arr, e, n + 1, m);
    }
}

/// What the whole pipeline yields on a document: the top level must hold a
/// `repo` array of repository tables; each is decoded and resolved, later
/// repositories overwriting earlier ones of the same name.
pub open spec fn spec_context_from_toml(t: Seq<(String, DocValue)>) -> Result<
    ContextSpec,
    ErrorSpec,
> {
    match spec_table_get(t, "repo"@) {
        Some(DocValue::Arr(vs)) => match spec_decode_repos(vs@, vs@.len() as int) {
            Ok(rs) => Ok(ContextSpec { repos: rs }),
            Err(e) => Err(e),
        },
        _ => Err(ErrorSpec::TomlError("value `repo` should be an array"@)),
    }
}

impl Context {
    /// Decodes and resolves a whole document into the entity model, exactly
    /// as [`spec_context_from_toml`] says. The first failure of either
    /// phase aborts the pipeline; no partial context is returned. A context
    /// that comes out satisfies the structural invariants.
    pub fn from_toml(table: &Vec<(String, DocValue)>) -> (r: Result<Context, Error>)
        ensures
            r matches Ok(c) ==> spec_context_from_toml(table@) == Ok::<ContextSpec, ErrorSpec>(
                c@,
            ) && c@.wf(),
            r matches Err(e) ==> spec_context_from_toml(table@) == Err::<ContextSpec, ErrorSpec>(
                e@,
            ),
    {
        proof {
            if spec_context_from_toml(table@) is Ok {
                lemma_context_from_toml_wf(table@);
            }
        }
        let key_repo = String::from_str("repo");
        let arr: &Vec<DocValue> = match table_get(table, &key_repo) {
            Some(DocValue::Arr(vs)) => vs,
            _ => {
                return Err(Error::TomlError(String::from_str("value `repo` should be an array")));
            },
        };
        let mut ctx = Context::new();
        let n = arr.len();
        proof {
            assert(ctx@.repos =~= Seq::<RepoSpec>::empty());
            assert(spec_context_from_toml(table@) == (match spec_decode_repos(
                arr@,
                arr@.len() as int,
            ) {
                Ok(rs) => Ok::<ContextSpec, ErrorSpec>(ContextSpec { repos: rs }),
                Err(e) => Err::<ContextSpec, ErrorSpec>(e),
            }));
        }
        for i in 0..n
            invariant
                n == arr.len(),
                spec_decode_repos(arr@, i as int) == Ok::<Seq<RepoSpec>, ErrorSpec>(ctx@.repos),
                spec_context_from_toml(table@) == (match spec_decode_repos(
                    arr@,
                    arr@.len() as int,
                ) {
                    Ok(rs) => Ok::<ContextSpec, ErrorSpec>(ContextSpec { repos: rs }),
                    Err(e) => Err::<ContextSpec, ErrorSpec>(e),
                }),
        {
            match &arr[i] {
                DocValue::Table(t) => {
                    match Repo::from_toml(t) {
                        Ok(repo) => {
                            proof {
                                assert(arr@[i as int] == DocValue::Table(*t));
                            }
                            ctx.add_repo(repo);
                        },
                        Err(e) => {
                            proof {
                                assert(arr@[i as int] == DocValue::Table(*t));
                                assert(spec_decode_repos(arr@, i + 1) == Err::<
                                    Seq<RepoSpec>,
                                    ErrorSpec,
                                >(e@));
                                lemma_decode_repos_err(arr@, e@, i + 1, arr@.len() as int);
                            }
                            return Err(e);
                        },
                    }
                },
                _ => {
                    proof {
                        assert(!(arr@[i as int] is Table));
                        assert(spec_decode_repos(arr@, i + 1) == Err::<Seq<RepoSpec>, ErrorSpec>(
                            ErrorSpec::TomlError("value `repo` should be a table"@),
                        ));
                        lemma_decode_repos_err(
                            arr@,
                            ErrorSpec::TomlError("value `repo` should be a table"@),
                            i + 1,
                            arr@.len() as int,
                        );
                    }
                    return Err(
                        Error::TomlError(String::from_str("value `repo` should be a table")),
                    );
                },
            }
        }
        Ok(ctx)
    }
}

/// Some declaration among `bs` is named `name`.
pub open spec fn has_decl(bs: Seq<ParsedBranchSpec>, name: Seq<char>) -> bool {
    exists|j: int| 0 <= j < bs.len() && bs[j].name == name
}

/// Index among the declarations of the first one named `name`, or `-1`.
pub open spec fn decl_index(bs: Seq<ParsedBranchSpec>, name: Seq<char>) -> int {
    first_match(bs, |b: ParsedBranchSpec| b.name == name)
}

/// Parent entry `k` of declaration `i` can be wired: it is not the
/// declaration's own name, and some sibling declaration carries it.
pub open spec fn entry_resolvable(p: ParsedRepoSpec, i: int, k: int) -> bool {
    &&& p.branches[i].inherits[k] != p.branches[i].name
    &&& has_decl(p.branches, p.branches[i].inherits[k])
}

/// Every parent entry of every declaration of `p` can be wired.
pub open spec fn repo_decl_valid(p: ParsedRepoSpec) -> bool {
    forall|i: int, k: int|
        0 <= i < p.branches.len() && 0 <= k < p.branches[i].inherits.len()
            ==> entry_resolvable(p, i, k)
}

/// Branch declarations carry pairwise distinct names.
pub open spec fn decl_names_unique(bs: Seq<ParsedBranchSpec>) -> bool {
    crate::keyed::unique_by(bs, |b: ParsedBranchSpec| b.name)
}

/// With unique declaration names the creation pass appends one empty node
/// per declaration, in declaration order.
proof fn lemma_create_nodes_unique(bs: Seq<ParsedBranchSpec>, n: int)
    requires
        0 <= n <= bs.len(),
        decl_names_unique(bs),
    ensures
        spec_create_nodes(bs, n).len() == n,
        forall|j: int|
            0 <= j < n ==> spec_create_nodes(bs, n)[j] == (BranchSpec {
                name: bs[j].name,
                inherits: Seq::<int>::empty(),
            }),
    decreases n,
{
    if n > 0 {
        lemma_create_nodes_unique(bs, n - 1);
        let prev = spec_create_nodes(bs, n - 1);
        let node = BranchSpec { name: bs[n - 1].name, inherits: Seq::<int>::empty() };
        let pnew = |x: BranchSpec| x.name == node.name;
        let f = |b: ParsedBranchSpec| b.name;
        assert forall|j: int| 0 <= j < prev.len() implies !pnew(prev[j]) by {
            assert(prev[j].name == bs[j].name);
            assert(f(bs[j]) != f(bs[n - 1]));
        }
        crate::keyed::lemma_first_match(prev, pnew);
        assert(first_match(prev, pnew) < 0);
        assert(insert_branch(prev, node) == prev.push(node));
    }
}

/// Two arenas with the same names at the same indices agree on every name
/// lookup.
proof fn lemma_branch_index_same_names(s1: Seq<BranchSpec>, s2: Seq<BranchSpec>, name: Seq<char>)
    requires
        s1.len() == s2.len(),
        forall|j: int| 0 <= j < s1.len() ==> s1[j].name == s2[j].name,
    ensures
        branch_index(s1, name) == branch_index(s2, name),
{
    let p1 = |x: BranchSpec| x.name == name;
    crate::keyed::lemma_first_match(s1, p1);
    crate::keyed::lemma_first_match(s2, p1);
    let r1 = first_match(s1, p1);
    if r1 >= 0 {
        assert(p1(s2[r1]));
        assert forall|j: int| 0 <= j < r1 implies !p1(s2[j]) by {
            assert(!p1(s1[j]));
        }
        crate::keyed::lemma_first_match_at(s2, p1, r1);
    } else {
        if first_match(s2, p1) >= 0 {
            let r2 = first_match(s2, p1);
            assert(p1(s1[r2]));
        }
    }
}

/// Exact account of the resolution of one declaration's parent entries
/// against an arena: it succeeds exactly when no entry is the
/// declaration's own name and each names some node, and then entry `x`
/// becomes the index of the first node carrying that name.
proof fn lemma_resolve_inherits_exact(
    rn: Seq<char>,
    nodes: Seq<BranchSpec>,
    b: ParsedBranchSpec,
    k: int,
)
    requires
        0 <= k <= b.inherits.len(),
    ensures
        (spec_resolve_inherits(rn, nodes, b, k) is Ok) <==> (forall|x: int|
            0 <= x < k ==> b.inherits[x] != b.name && has_branch(nodes, b.inherits[x])),
        spec_resolve_inherits(rn, nodes, b, k) is Ok ==> {
            let es = spec_resolve_inherits(rn, nodes, b, k)->Ok_0;
            &&& es.len() == k
            &&& forall|x: int|
                0 <= x < k ==> #[trigger] es[x] == branch_index(nodes, b.inherits[x])
        },
    decreases k,
{
    if k > 0 {
        lemma_resolve_inherits_exact(rn, nodes, b, k - 1);
        let pk = |x: BranchSpec| x.name == b.inherits[k - 1];
        crate::keyed::lemma_first_match(nodes, pk);
        if spec_resolve_inherits(rn, nodes, b, k - 1) is Ok {
            let pre = spec_resolve_inherits(rn, nodes, b, k - 1)->Ok_0;
            if b.inherits[k - 1] != b.name && branch_index(nodes, b.inherits[k - 1]) >= 0 {
                let es = pre.push(branch_index(nodes, b.inherits[k - 1]));
                assert(spec_resolve_inherits(rn, nodes, b, k)->Ok_0 == es);
                assert forall|x: int| 0 <= x < k implies #[trigger] es[x] == branch_index(
                    nodes,
                    b.inherits[x],
                ) by {
                    if x < k - 1 {
                        assert(es[x] == pre[x]);
                    }
                }
            }
        }
    }
}

/// Exact account of the wiring pass on a declaration set with unique
/// names: it succeeds exactly when the first `n` declarations' entries are
/// all resolvable, and then declaration `j`'s node carries its name and
/// one edge per entry, pointing at the declaration carrying the parent's
/// name; nodes beyond `n` are still empty.
proof fn lemma_wire_exact(p: ParsedRepoSpec, n: int)
    requires
        0 <= n <= p.branches.len(),
        decl_names_unique(p.branches),
    ensures
        (spec_wire_branches(
            p.name,
            p.branches,
            spec_create_nodes(p.branches, p.branches.len() as int),
            n,
        ) is Ok) <==> (forall|i: int, k: int|
            0 <= i < n && 0 <= k < p.branches[i].inherits.len() ==> entry_resolvable(p, i, k)),
        spec_wire_branches(
            p.name,
            p.branches,
            spec_create_nodes(p.branches, p.branches.len() as int),
            n,
        ) is Ok ==> {
            let cur = spec_wire_branches(
                p.name,
                p.branches,
                spec_create_nodes(p.branches, p.branches.len() as int),
                n,
            )->Ok_0;
            &&& cur.len() == p.branches.len()
            &&& forall|j: int| 0 <= j < cur.len() ==> #[trigger] cur[j].name == p.branches[j].name
            &&& forall|j: int|
                n <= j < cur.len() ==> #[trigger] cur[j].inherits == Seq::<int>::empty()
            &&& forall|j: int|
                0 <= j < n ==> #[trigger] cur[j].inherits.len() == p.branches[j].inherits.len()
            &&& forall|j: int, k: int|
                0 <= j < n && 0 <= k < p.branches[j].inherits.len()
                    ==> #[trigger] cur[j].inherits[k] == decl_index(
                    p.branches,
                    p.branches[j].inherits[k],
                )
        },
    decreases n,
{
    let bs = p.branches;
    let nodes0 = spec_create_nodes(bs, bs.len() as int);
    lemma_create_nodes_unique(bs, bs.len() as int);
    if n > 0 {
        lemma_wire_exact(p, n - 1);
        if !(spec_wire_branches(p.name, bs, nodes0, n - 1) is Ok) {
            // an earlier declaration already fails; exhibit its bad entry
            let (i0, k0) = choose|i0: int, k0: int|
                0 <= i0 < n - 1 && 0 <= k0 < p.branches[i0].inherits.len() && !entry_resolvable(
                    p,
                    i0,
                    k0,
                );
            assert(!entry_resolvable(p, i0, k0));
            assert(!(forall|i: int, k: int|
                0 <= i < n && 0 <= k < p.branches[i].inherits.len() ==> entry_resolvable(
                    p,
                    i,
                    k,
                )));
        } else {
            let cur = spec_wire_branches(p.name, bs, nodes0, n - 1)->Ok_0;
            let b = bs[n - 1];
            lemma_resolve_inherits_exact(p.name, cur, b, b.inherits.len() as int);
            // the partially wired arena still has the declaration names
            assert forall|x: int|
                0 <= x < b.inherits.len() implies (has_branch(cur, b.inherits[x]) <==> has_decl(
                bs,
                b.inherits[x],
            )) by {
                if has_branch(cur, b.inherits[x]) {
                    let j = choose|j: int| 0 <= j < cur.len() && cur[j].name == b.inherits[x];
                    assert(bs[j].name == b.inherits[x]);
                }
                if has_decl(bs, b.inherits[x]) {
                    let j = choose|j: int| 0 <= j < bs.len() && bs[j].name == b.inherits[x];
                    assert(cur[j].name == b.inherits[x]);
                }
            }
            if spec_resolve_inherits(p.name, cur, b, b.inherits.len() as int) is Ok {
                let es = spec_resolve_inherits(p.name, cur, b, b.inherits.len() as int)->Ok_0;
                let ci = branch_index(cur, b.name);
                let f = |x: ParsedBranchSpec| x.name;
                // the child is looked up at its own declaration's slot
                assert forall|j: int| 0 <= j < n - 1 implies cur[j].name != b.name by {
                    assert(f(bs[j]) != f(bs[n - 1]));
                }
                crate::keyed::lemma_first_match_at(
                    cur,
                    |x: BranchSpec| x.name == b.name,
                    n - 1,
                );
                assert(ci == n - 1);
                let fin = cur.update(
                    ci,
                    BranchSpec { name: b.name, inherits: cur[ci].inherits + es },
                );
                assert(cur[ci].inherits == Seq::<int>::empty());
                assert(cur[ci].inherits + es =~= es);
                assert forall|x: int|
                    0 <= x < b.inherits.len() implies #[trigger] es[x] == decl_index(
                    bs,
                    b.inherits[x],
                ) by {
                    lemma_branch_index_same_names(cur, nodes0, b.inherits[x]);
                    lemma_decl_index_nodes(bs, b.inherits[x]);
                }
                assert(spec_wire_branches(p.name, bs, nodes0, n)->Ok_0 == fin);
                assert forall|j: int, k: int|
                    0 <= j < n && 0 <= k < bs[j].inherits.len() implies #[trigger] fin[j].inherits[k]
                    == decl_index(bs, bs[j].inherits[k]) by {
                    if j != ci {
                        assert(fin[j] == cur[j]);
                    }
                }
                // the wired prefix grew by exactly this declaration's entries
                assert forall|i: int, k: int|
                    0 <= i < n && 0 <= k < p.branches[i].inherits.len() implies entry_resolvable(
                    p,
                    i,
                    k,
                ) by {
                    if i == n - 1 {
                        assert(b.inherits[k] != b.name && has_branch(cur, b.inherits[k]));
                    }
                }
            } else {
                // this declaration's entries contain the first failure
                assert(!(forall|x: int|
                    0 <= x < b.inherits.len() ==> b.inherits[x] != b.name && has_branch(
                        cur,
                        b.inherits[x],
                    )));
                let x0 = choose|x0: int|
                    0 <= x0 < b.inherits.len() && !(b.inherits[x0] != b.name && has_branch(
                        cur,
                        b.inherits[x0],
                    ));
                assert(!entry_resolvable(p, n - 1, x0));
                assert(!(forall|i: int, k: int|
                    0 <= i < n && 0 <= k < p.branches[i].inherits.len() ==> entry_resolvable(
                        p,
                        i,
                        k,
                    )));
            }
        }
    } else {
        assert forall|j: int| 0 <= j < nodes0.len() implies #[trigger] nodes0[j].inherits
            == Seq::<int>::empty() by {}
    }
}

/// On unique declaration names, a lookup among the created nodes and a
/// lookup among the declarations find the same index.
proof fn lemma_decl_index_nodes(bs: Seq<ParsedBranchSpec>, name: Seq<char>)
    requires
        decl_names_unique(bs),
    ensures
        branch_index(spec_create_nodes(bs, bs.len() as int), name) == decl_index(bs, name),
{
    let nodes = spec_create_nodes(bs, bs.len() as int);
    lemma_create_nodes_unique(bs, bs.len() as int);
    let p1 = |x: BranchSpec| x.name == name;
    let p2 = |b: ParsedBranchSpec| b.name == name;
    crate::keyed::lemma_first_match(nodes, p1);
    crate::keyed::lemma_first_match(bs, p2);
    let r1 = first_match(nodes, p1);
    if r1 >= 0 {
        assert(p2(bs[r1]));
        assert forall|j: int| 0 <= j < r1 implies !p2(bs[j]) by {
            assert(!p1(nodes[j]));
        }
        crate::keyed::lemma_first_match_at(bs, p2, r1);
    } else {
        if first_match(bs, p2) >= 0 {
            let r2 = first_match(bs, p2);
            assert(p1(nodes[r2]));
        }
    }
}

/// Resolution of a repository declaration with unique branch names
/// succeeds exactly when every parent entry names a sibling declaration
/// other than the declaration itself — whatever order the declarations
/// come in, so a branch may inherit from one declared after it. On
/// success, branch `j`'s node carries one edge per entry, pointing at the
/// arena slot of the declaration carrying the parent's name: declarations
/// naming the same parent share the same parent node.
pub proof fn lemma_resolve_repo_exact(p: ParsedRepoSpec)
    requires
        decl_names_unique(p.branches),
    ensures
        (spec_resolve_repo(p) is Ok) <==> repo_decl_valid(p),
        spec_resolve_repo(p) is Ok ==> {
            let r = spec_resolve_repo(p)->Ok_0;
            &&& r.name == p.name
            &&& r.branches.len() == p.branches.len()
            &&& forall|j: int|
                0 <= j < r.branches.len() ==> #[trigger] r.branches[j].name == p.branches[j].name
            &&& forall|j: int|
                0 <= j < r.branches.len() ==> #[trigger] r.branches[j].inherits.len()
                    == p.branches[j].inherits.len()
            &&& forall|j: int, k: int|
                0 <= j < p.branches.len() && 0 <= k < p.branches[j].inherits.len()
                    ==> #[trigger] r.branches[j].inherits[k] == decl_index(
                    p.branches,
                    p.branches[j].inherits[k],
                )
        },
{
    lemma_wire_exact(p, p.branches.len() as int);
}

/// A branch declaration that names itself among its parents is always
/// rejected, however many resolvable entries surround it.
pub proof fn lemma_self_inheritance_rejected(p: ParsedRepoSpec, i: int, k: int)
    requires
        decl_names_unique(p.branches),
        0 <= i < p.branches.len(),
        0 <= k < p.branches[i].inherits.len(),
        p.branches[i].inherits[k] == p.branches[i].name,
    ensures
        spec_resolve_repo(p) is Err,
{
    lemma_resolve_repo_exact(p);
    assert(!entry_resolvable(p, i, k));
}

/// A parent entry naming no branch of the same repository is always
/// rejected, whatever the other repositories of the document declare.
pub proof fn lemma_unknown_parent_rejected(p: ParsedRepoSpec, i: int, k: int)
    requires
        decl_names_unique(p.branches),
        0 <= i < p.branches.len(),
        0 <= k < p.branches[i].inherits.len(),
        forall|j: int| 0 <= j < p.branches.len() ==> p.branches[j].name != p.branches[i].inherits[k],
    ensures
        spec_resolve_repo(p) is Err,
{
    lemma_resolve_repo_exact(p);
    assert(!has_decl(p.branches, p.branches[i].inherits[k]));
    assert(!entry_resolvable(p, i, k));
}

/// The branch declarations a decode yields carry unique names: a later
/// declaration of an already-declared name overwrites the earlier one.
proof fn lemma_decode_branches_unique(arr: Seq<DocValue>, n: int)
    requires
        spec_decode_branches(arr, n) is Ok,
    ensures
        decl_names_unique(spec_decode_branches(arr, n)->Ok_0),
    decreases n,
{
    if n > 0 {
        lemma_decode_branches_unique(arr, n - 1);
        let pre = spec_decode_branches(arr, n - 1)->Ok_0;
        match arr[n - 1] {
            DocValue::Table(t) => {
                match spec_decode_branch(t@) {
                    Ok(b) => {
                        crate::keyed::lemma_lww_insert_unique(
                            pre,
                            |x: ParsedBranchSpec| x.name,
                            |x: ParsedBranchSpec| x.name == b.name,
                            b,
                        );
                    },
                    _ => {},
                }
            },
            _ => {},
        }
    }
}

/// A resolved repository with unique declaration names satisfies the
/// structural invariants: unique branch names, every edge inside the
/// arena, no edge back to its own branch.
pub proof fn lemma_resolve_repo_wf(p: ParsedRepoSpec)
    requires
        decl_names_unique(p.branches),
        spec_resolve_repo(p) is Ok,
    ensures
        spec_resolve_repo(p)->Ok_0.wf(),
{
    lemma_resolve_repo_exact(p);
    let r = spec_resolve_repo(p)->Ok_0;
    let f = |b: BranchSpec| b.name;
    let fd = |b: ParsedBranchSpec| b.name;
    assert forall|i: int, j: int|
        0 <= i < r.branches.len() && 0 <= j < r.branches.len() && i != j implies f(r.branches[i])
        != f(r.branches[j]) by {
        assert(fd(p.branches[i]) != fd(p.branches[j]));
    }
    assert forall|i: int, k: int|
        0 <= i < r.branches.len() && 0 <= k < r.branches[i].inherits.len() implies {
        &&& 0 <= #[trigger] r.branches[i].inherits[k] < r.branches.len()
        &&& r.branches[i].inherits[k] != i
    } by {
        assert(entry_resolvable(p, i, k));
        let name = p.branches[i].inherits[k];
        let pd = |b: ParsedBranchSpec| b.name == name;
        crate::keyed::lemma_first_match(p.branches, pd);
        let j0 = choose|j0: int| 0 <= j0 < p.branches.len() && p.branches[j0].name == name;
        assert(pd(p.branches[j0]));
        let di = decl_index(p.branches, name);
        assert(0 <= di < p.branches.len());
        assert(p.branches[di].name == name);
        assert(r.branches[i].inherits[k] == di);
        assert(name != p.branches[i].name);
        assert(di != i);
    }
}

/// The repositories a decode of the `repo` array yields carry unique
/// names and are each well-formed.
proof fn lemma_decode_repos_wf(arr: Seq<DocValue>, n: int)
    requires
        spec_decode_repos(arr, n) is Ok,
    ensures
        crate::keyed::unique_by(spec_decode_repos(arr, n)->Ok_0, |r: RepoSpec| r.name),
        forall|j: int|
            0 <= j < spec_decode_repos(arr, n)->Ok_0.len() ==> (#[trigger] spec_decode_repos(
                arr,
                n,
            )->Ok_0[j]).wf(),
    decreases n,
{
    if n > 0 {
        lemma_decode_repos_wf(arr, n - 1);
        let pre = spec_decode_repos(arr, n - 1)->Ok_0;
        match arr[n - 1] {
            DocValue::Table(t) => {
                match spec_repo_from_toml(t@) {
                    Ok(r) => {
                        crate::keyed::lemma_lww_insert_unique(
                            pre,
                            |x: RepoSpec| x.name,
                            |x: RepoSpec| x.name == r.name,
                            r,
                        );
                        match spec_decode_repo(t@) {
                            Ok(p) => {
                                lemma_decode_branches_unique_of_repo(t@);
                                lemma_resolve_repo_wf(p);
                            },
                            _ => {},
                        }
                        let fin = insert_repo(pre, r);
                        let pc = |x: RepoSpec| x.name == r.name;
                        crate::keyed::lemma_first_match(pre, pc);
                        let i0 = first_match(pre, pc);
                        assert forall|j: int| 0 <= j < fin.len() implies (
                        #[trigger] fin[j]).wf() by {
                            if i0 < 0 {
                                if j < pre.len() {
                                    assert(fin[j] == pre[j]);
                                } else {
                                    assert(fin[j] == r);
                                }
                            } else {
                                if j != i0 {
                                    assert(fin[j] == pre[j]);
                                } else {
                                    assert(fin[j] == r);
                                }
                            }
                        }
                    },
                    _ => {},
                }
            },
            _ => {},
        }
    }
}

/// The branch declarations of a decoded repository table carry unique
/// names.
proof fn lemma_decode_branches_unique_of_repo(t: Seq<(String, DocValue)>)
    requires
        spec_decode_repo(t) is Ok,
    ensures
        decl_names_unique(spec_decode_repo(t)->Ok_0.branches),
{
    match spec_table_get(t, "branch"@) {
        Some(DocValue::Arr(vs)) => {
            lemma_decode_branches_unique(vs@, vs@.len() as int);
        },
        _ => {},
    }
}

/// Every context the pipeline returns is well-formed: repository names are
/// unique, and inside every repository the branch names are unique, every
/// inheritance edge stays inside the repository's own arena, and no branch
/// inherits from itself.
pub proof fn lemma_context_from_toml_wf(t: Seq<(String, DocValue)>)
    requires
        spec_context_from_toml(t) is Ok,
    ensures
        spec_context_from_toml(t)->Ok_0.wf(),
{
    match spec_table_get(t, "repo"@) {
        Some(DocValue::Arr(vs)) => {
            lemma_decode_repos_wf(vs@, vs@.len() as int);
        },
        _ => {},
    }
}

/// Decoding followed by resolving is deterministic: both phases are
/// functions of the document alone, so the same document yields the same
/// resolved graph — same names, same edges — on every run.
pub proof fn lemma_pipeline_deterministic(
    t1: Seq<(String, DocValue)>,
    t2: Seq<(String, DocValue)>,
)
    requires
        t1 == t2,
    ensures
        spec_context_from_toml(t1) == spec_context_from_toml(t2),
{
}

/// Inserts a decoded branch declaration, keyed by its name, later
/// declarations overwriting earlier ones.
fn push_parsed_branch(branches: &mut Vec<ParsedBranch>, b: ParsedBranch)
    ensures
        final (branches)@.map_values(|x: ParsedBranch| x@) == insert_parsed_branch(
            old(branches)@.map_values(|x: ParsedBranch| x@),
            b@,
        ),
{
    let ghost s = branches@.map_values(|x: ParsedBranch| x@);
    let ghost target = b@;
    let ghost p = |x: ParsedBranchSpec| x.name == target.name;
    let n = branches.len();
    for i in 0..n
        invariant
            n == branches.len(),
            branches@ == old(branches)@,
            s == branches@.map_values(|x: ParsedBranch| x@),
            p == (|x: ParsedBranchSpec| x.name == target.name),
            target == b@,
            forall|j: int| 0 <= j < i ==> !p(s[j]),
    {
        proof {
            assert(s[i as int] == branches@[i as int]@);
        }
        if branches[i].name.eq(&b.name) {
            proof {
                crate::keyed::lemma_first_match_at(s, p, i as int);
            }
            branches.set(i, b);
            proof {
                assert(branches@.map_values(|x: ParsedBranch| x@) =~= s.update(i as int, target));
            }
            return ;
        }
    }
    proof {
        crate::keyed::lemma_first_match(s, p);
    }
    branches.push(b);
    proof {
        assert(branches@.map_values(|x: ParsedBranch| x@) =~= s.push(target));
    }
}

} // verus!
