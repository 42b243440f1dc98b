use scout::doc::DocValue;
use scout::git;
use scout::parser::{ParsedBranch, ParsedRepo};
use scout::{Branch, Context, Error, Repo};

/// Parses TOML text through the library and hands back the top-level table.
fn parse_table(text: &str) -> Vec<(String, DocValue)> {
    match scout::doc::parse(text) {
        Some(DocValue::Table(entries)) => entries,
        Some(_) => panic!("parsed document is not a table"),
        None => panic!("document did not parse"),
    }
}

fn message(e: Error) -> String {
    match e {
        Error::TomlError(m) => m,
        Error::StructuralError(m) => m,
    }
}

#[test]
fn lib_test_branch_from_toml() {
    let table = parse_table("");
    let res = Branch::from_toml(&table);
    assert_eq!(
        message(res.unwrap_err()),
        "table `branch` should have a `name` attribute"
    );
}

#[test]
fn lib_test_repo_from_toml() {
    let mut toml = String::from("");

    let res = Repo::from_toml(&parse_table(&toml));
    assert_eq!(
        message(res.unwrap_err()),
        "table `repo` should have a `name` attribute"
    );

    toml.push_str("name = \"cr\"\n");
    let res = Repo::from_toml(&parse_table(&toml));
    assert_eq!(
        message(res.unwrap_err()),
        "table `repo` should have an array `branch`"
    );

    toml.push_str("branch = [1]\n");
    let res = Repo::from_toml(&parse_table(&toml));
    assert_eq!(message(res.unwrap_err()), "value `branch` should be a table");
}

#[test]
fn lib_test_ctx_from_toml() {
    let mut toml = String::from("");

    let res = Context::from_toml(&parse_table(&toml));
    assert_eq!(message(res.unwrap_err()), "value `repo` should be an array");

    toml.push_str("repo = 3");
    let res = Context::from_toml(&parse_table(&toml));
    assert_eq!(message(res.unwrap_err()), "value `repo` should be an array");

    toml = String::from("repo = [3]\n");
    let res = Context::from_toml(&parse_table(&toml));
    assert_eq!(message(res.unwrap_err()), "value `repo` should be a table");
}

#[test]
fn parser_test_branch_from_toml() {
    let mut toml = String::from("");

    let res = ParsedBranch::from_toml(&parse_table(&toml));
    assert_eq!(
        message(res.unwrap_err()),
        "table `branch` should have a `name` attribute"
    );

    toml.push_str("name = \"pnl\"\n");
    toml.push_str("inherits = 5\n");
    let res = ParsedBranch::from_toml(&parse_table(&toml));
    assert_eq!(
        message(res.unwrap_err()),
        "value `inherits` should be an array"
    );

    toml = String::from("name = \"pnl\"\n");
    toml.push_str("inherits = [5]\n");
    let res = ParsedBranch::from_toml(&parse_table(&toml));
    assert_eq!(message(res.unwrap_err()), "`inherits` values should be strings");
}

#[test]
fn parser_test_repo_from_toml() {
    let mut toml = String::from("");

    let res = git::Repo::from_toml(&parse_table(&toml));
    assert_eq!(
        message(res.unwrap_err()),
        "table `repo` should have a `name` attribute"
    );

    toml.push_str("name = \"cr\"\n");
    let res = git::Repo::from_toml(&parse_table(&toml));
    assert_eq!(
        message(res.unwrap_err()),
        "table `repo` should have an array `branch`"
    );

    toml.push_str("branch = [1]\n");
    let res = git::Repo::from_toml(&parse_table(&toml));
    assert_eq!(message(res.unwrap_err()), "value `branch` should be a table");
}

#[test]
fn parser_test_ctx_from_toml() {
    let res = git::Context::from_toml(&parse_table(""));
    assert_eq!(message(res.unwrap_err()), "value `repo` should be an array");

    let toml = "repo = 3";
    let res = git::Context::from_toml(&parse_table(toml));
    assert_eq!(message(res.unwrap_err()), "value `repo` should be an array");

    let toml = "repo = [3]";
    let res = git::Context::from_toml(&parse_table(toml));
    assert_eq!(message(res.unwrap_err()), "value `repo` should be a table");

    let toml = r#"
        [[repo]]
        name = "a"

        [[repo.branch]]
        name = "b"
        inherits = ["b"]
    "#;
    let res = git::Context::from_toml(&parse_table(toml));
    assert_eq!(
        message(res.unwrap_err()),
        "branch `b` in repo `a` cannot inherit from itself"
    );

    let toml = r#"
        [[repo]]
        name = "a"

        [[repo.branch]]
        name = "b"
        inherits = ["c"]
    "#;
    let res = git::Context::from_toml(&parse_table(toml));
    assert_eq!(message(res.unwrap_err()), "unknown branch `c` in repo `a`");
}

fn branch_idx(repo: &git::Repo, name: &str) -> usize {
    repo.find_branch(name).expect("branch not found")
}

#[test]
fn resolve_single_parent() {
    // repo "a" with branches "b" (no inherits) and "c" (inherits = ["b"])
    let toml = r#"
        [[repo]]
        name = "a"

        [[repo.branch]]
        name = "b"

        [[repo.branch]]
        name = "c"
        inherits = ["b"]
    "#;
    let ctx = git::Context::from_toml(&parse_table(toml)).unwrap();
    assert_eq!(ctx.repos.len(), 1);
    let repo = &ctx.repos[0];
    assert_eq!(repo.name, "a");
    assert_eq!(repo.branches.len(), 2);
    let b = branch_idx(repo, "b");
    let c = branch_idx(repo, "c");
    assert_eq!(repo.branches[b].inherits.len(), 0);
    assert_eq!(repo.branches[c].inherits, vec![b]);
}

#[test]
fn resolve_forward_reference() {
    // "early" inherits from a branch declared after it
    let toml = r#"
        [[repo]]
        name = "r"

        [[repo.branch]]
        name = "early"
        inherits = ["late"]

        [[repo.branch]]
        name = "late"
    "#;
    let ctx = git::Context::from_toml(&parse_table(toml)).unwrap();
    let repo = &ctx.repos[0];
    let early = branch_idx(repo, "early");
    let late = branch_idx(repo, "late");
    assert_eq!(repo.branches[early].inherits, vec![late]);
    assert_eq!(repo.branches[late].inherits.len(), 0);
}

#[test]
fn resolve_diamond() {
    // b and c both inherit a; d inherits b and c: all shared, one node each
    let toml = r#"
        [[repo]]
        name = "r"

        [[repo.branch]]
        name = "a"

        [[repo.branch]]
        name = "b"
        inherits = ["a"]

        [[repo.branch]]
        name = "c"
        inherits = ["a"]

        [[repo.branch]]
        name = "d"
        inherits = ["b", "c"]
    "#;
    let ctx = git::Context::from_toml(&parse_table(toml)).unwrap();
    let repo = &ctx.repos[0];
    assert_eq!(repo.branches.len(), 4);
    let a = branch_idx(repo, "a");
    let b = branch_idx(repo, "b");
    let c = branch_idx(repo, "c");
    let d = branch_idx(repo, "d");
    assert_eq!(repo.branches[d].inherits, vec![b, c]);
    // b's and c's parents are the same entity: the same arena slot
    assert_eq!(repo.branches[b].inherits, vec![a]);
    assert_eq!(repo.branches[c].inherits, vec![a]);
    assert_eq!(repo.branches[b].inherits[0], repo.branches[c].inherits[0]);
}

#[test]
fn resolve_self_inheritance_among_valid_entries() {
    // the self-reference is rejected even when valid entries surround it
    let toml = r#"
        [[repo]]
        name = "a"

        [[repo.branch]]
        name = "x"

        [[repo.branch]]
        name = "b"
        inherits = ["x", "b", "x"]
    "#;
    let res = git::Context::from_toml(&parse_table(toml));
    assert_eq!(
        message(res.unwrap_err()),
        "branch `b` in repo `a` cannot inherit from itself"
    );
}

#[test]
fn resolve_name_in_other_repo_is_unknown() {
    // "c" exists, but in another repository: still unknown here
    let toml = r#"
        [[repo]]
        name = "other"

        [[repo.branch]]
        name = "c"

        [[repo]]
        name = "a"

        [[repo.branch]]
        name = "b"
        inherits = ["c"]
    "#;
    let res = git::Context::from_toml(&parse_table(toml));
    assert_eq!(message(res.unwrap_err()), "unknown branch `c` in repo `a`");
}

#[test]
fn resolve_is_deterministic() {
    let toml = r#"
        [[repo]]
        name = "r"

        [[repo.branch]]
        name = "a"

        [[repo.branch]]
        name = "b"
        inherits = ["a"]
    "#;
    let c1 = git::Context::from_toml(&parse_table(toml)).unwrap();
    let c2 = git::Context::from_toml(&parse_table(toml)).unwrap();
    assert_eq!(c1.repos.len(), c2.repos.len());
    for (r1, r2) in c1.repos.iter().zip(c2.repos.iter()) {
        assert_eq!(r1.name, r2.name);
        assert_eq!(r1.branches.len(), r2.branches.len());
        for (b1, b2) in r1.branches.iter().zip(r2.branches.iter()) {
            assert_eq!(b1.name, b2.name);
            assert_eq!(b1.inherits, b2.inherits);
        }
    }
}

#[test]
fn duplicate_names_last_write_wins() {
    // a later branch of the same name silently replaces the earlier one,
    // and a later repo of the same name replaces the earlier repo
    let toml = r#"
        [[repo]]
        name = "r"

        [[repo.branch]]
        name = "b"
        inherits = []

        [[repo.branch]]
        name = "keep"

        [[repo.branch]]
        name = "b"
        inherits = ["keep"]

        [[repo]]
        name = "r"

        [[repo.branch]]
        name = "only"
    "#;
    let parsed = {
        let table = parse_table(toml);
        git::Context::from_toml(&table).unwrap()
    };
    assert_eq!(parsed.repos.len(), 1);
    let repo = &parsed.repos[0];
    assert_eq!(repo.name, "r");
    assert_eq!(repo.branches.len(), 1);
    assert_eq!(repo.branches[0].name, "only");
}

#[test]
fn parsed_branch_inherits_order_kept() {
    let toml = "name = \"b\"\ninherits = [\"z\", \"a\", \"m\"]\n";
    let parsed = ParsedBranch::from_toml(&parse_table(toml)).unwrap();
    assert_eq!(parsed.name, "b");
    assert_eq!(parsed.inherits, vec!["z", "a", "m"]);
}

#[test]
fn parsed_repo_duplicate_branch_overwrites() {
    let toml = r#"
        name = "r"

        [[branch]]
        name = "b"
        inherits = ["x"]

        [[branch]]
        name = "b"
    "#;
    let parsed = ParsedRepo::from_toml(&parse_table(toml)).unwrap();
    assert_eq!(parsed.name, "r");
    assert_eq!(parsed.branches.len(), 1);
    assert_eq!(parsed.branches[0].name, "b");
    assert!(parsed.branches[0].inherits.is_empty());
}

#[test]
fn error_kinds_are_distinct() {
    // a shape failure is a TomlError, a wiring failure a StructuralError
    let shape = git::Context::from_toml(&parse_table("")).unwrap_err();
    assert!(matches!(shape, Error::TomlError(_)));

    let toml = r#"
        [[repo]]
        name = "a"

        [[repo.branch]]
        name = "b"
        inherits = ["b"]
    "#;
    let wiring = git::Context::from_toml(&parse_table(toml)).unwrap_err();
    assert!(matches!(wiring, Error::StructuralError(_)));
}

#[test]
fn entity_model_by_hand() {
    let mut repo = git::Repo::new(String::from("r"));
    repo.add_branch(git::Branch::new(String::from("a")));
    repo.add_branch(git::Branch::new(String::from("b")));
    let a = repo.find_branch("a").unwrap();
    let b = repo.find_branch("b").unwrap();
    assert_ne!(a, b);
    assert!(repo.find_branch("missing").is_none());

    let mut child = git::Branch::new(String::from("c"));
    child.inherits_from(a);
    child.inherits_from(b);
    assert_eq!(child.inherits, vec![a, b]);
    repo.add_branch(child);

    let mut ctx = git::Context::new();
    assert_eq!(ctx.repos.len(), 0);
    ctx.add_repo(repo);
    assert_eq!(ctx.repos.len(), 1);
    assert_eq!(ctx.repos[0].branches.len(), 3);

    // adding a repo of the same name replaces it in place
    ctx.add_repo(git::Repo::new(String::from("r")));
    assert_eq!(ctx.repos.len(), 1);
    assert_eq!(ctx.repos[0].branches.len(), 0);
}

#[test]
fn flat_decode_ignores_inherits() {
    let toml = "name = \"b\"\ninherits = [\"x\"]\n";
    let branch = Branch::from_toml(&parse_table(toml)).unwrap();
    assert_eq!(branch.name, "b");
    assert!(branch.inherits.is_empty());
}

#[test]
fn parse_rejects_bad_toml() {
    assert!(scout::doc::parse("not [ valid = toml").is_none());
}

#[test]
fn parse_reads_values() {
    let table = parse_table("x = \"s\"\nn = 7\n");
    let mut saw_str = false;
    let mut saw_int = false;
    for (key, val) in &table {
        match val {
            DocValue::Str(s) => {
                assert_eq!(key, "x");
                assert_eq!(s, "s");
                saw_str = true;
            }
            DocValue::Int(i) => {
                assert_eq!(key, "n");
                assert_eq!(*i, 7);
                saw_int = true;
            }
            _ => panic!("unexpected value kind"),
        }
    }
    assert!(saw_str && saw_int);
}
