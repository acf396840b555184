use apix_sync::local_refs::{local_references, parse_local_reference, RewriteError, Rewriter};
use apix_sync::shared::Repo;

fn rewriter(root: &str) -> Rewriter {
    Rewriter::new(
        Repo::new("mongodb".to_string(), "apix-action".to_string()),
        root.to_string(),
        "abc123".to_string(),
    )
}

#[test]
fn rewrite_replaces_local_reference_with_permalink() {
    let contents = "jobs:\n  close-jira:\n    uses: ./.github/workflows/_close-jira.yaml\n";
    assert_eq!(local_references(contents), vec![".github/workflows/_close-jira.yaml"]);

    let rewritten = rewriter("/root").rewrite(contents, &[true]).expect("rewrite succeeds");

    assert_eq!(
        rewritten,
        "jobs:\n  close-jira:\n    uses: mongodb/apix-action/.github/workflows/_close-jira.yaml@abc123\n"
    );
}

#[test]
fn rewrite_leaves_remote_references_untouched() {
    let contents = "    uses: actions/checkout@v7\n    with:\n      path: ./local\n";
    assert!(local_references(contents).is_empty());

    let rewritten = rewriter("/root").rewrite(contents, &[]).expect("rewrite succeeds");

    assert_eq!(rewritten, contents);
}

#[test]
fn rewrite_drops_trailing_comment_from_source_line() {
    let contents = "    uses: ./.github/workflows/_close-jira.yaml # reusable\n";

    let rewritten = rewriter("/root").rewrite(contents, &[true]).expect("rewrite succeeds");

    assert_eq!(
        rewritten,
        "    uses: mongodb/apix-action/.github/workflows/_close-jira.yaml@abc123\n"
    );
}

#[test]
fn rewrite_pins_every_reference_to_the_same_commit() {
    let contents = "    uses: ./.github/workflows/_close-jira.yaml\n      - uses: ./create-jira/\n";
    assert_eq!(
        local_references(contents),
        vec![".github/workflows/_close-jira.yaml", "create-jira"]
    );

    let rewritten = rewriter("/root").rewrite(contents, &[true, true]).expect("rewrite succeeds");

    assert_eq!(
        rewritten,
        "    uses: mongodb/apix-action/.github/workflows/_close-jira.yaml@abc123\n      - uses: mongodb/apix-action/create-jira@abc123\n"
    );
}

#[test]
fn rewrite_fails_on_missing_workflow() {
    let contents = "    uses: ./.github/workflows/_typo.yaml\n";

    let error = rewriter("/root").rewrite(contents, &[false]).expect_err("missing file is fatal");

    assert!(error.message().contains("_typo.yaml"));
    assert_eq!(
        error,
        RewriteError {
            path: ".github/workflows/_typo.yaml".to_string(),
            root: "/root".to_string()
        }
    );
    assert_eq!(
        error.message(),
        "local workflow reference './.github/workflows/_typo.yaml' does not exist under /root"
    );
}

#[test]
fn rewrite_reports_first_missing_reference() {
    let contents = "uses: ./a\nuses: ./b\nuses: ./c";
    let error = rewriter("r").rewrite(contents, &[true, false, false]).expect_err("b missing");
    assert_eq!(error.path, "b");
    assert_eq!(
        rewriter("r").rewrite(contents, &[true, true, true]).expect("all resolve"),
        "uses: mongodb/apix-action/a@abc123\nuses: mongodb/apix-action/b@abc123\nuses: mongodb/apix-action/c@abc123"
    );
}

#[test]
fn parse_local_reference_requires_uses_key() {
    assert!(parse_local_reference("    path: ./.github/workflows/x.yaml").is_none());
    assert!(parse_local_reference("    uses: ./").is_none());
    assert!(parse_local_reference("    uses: .///").is_none());
    assert!(parse_local_reference("    uses: owner/name/x.yaml@sha").is_none());
    // A `uses:` appearing inside another value is not a reference.
    assert!(parse_local_reference("    body: see uses: ./x.yaml").is_none());
    assert!(parse_local_reference("      - uses: ./x.yaml").is_some());
    assert!(parse_local_reference("    uses: ./x.yaml").is_some());
}

#[test]
fn parse_local_reference_keeps_prefix_and_path() {
    let reference = parse_local_reference("  - uses:   ./dir/x.yaml  # note").expect("reference");
    assert_eq!(reference.prefix, "  - ");
    assert_eq!(reference.path, "dir/x.yaml");
    let reference = parse_local_reference("uses:./a//").expect("reference");
    assert_eq!(reference.prefix, "");
    assert_eq!(reference.path, "a");
}

#[test]
fn rewrite_twice_changes_nothing_more() {
    let contents = "jobs:\n  a:\n    uses: ./.github/workflows/_close-jira.yaml # x\n      - uses: ./create-jira/\n\n";
    let once = rewriter("/root").rewrite(contents, &[true, true]).expect("rewrite succeeds");
    assert!(local_references(&once).is_empty());
    let twice = rewriter("/root").rewrite(&once, &[]).expect("second rewrite succeeds");
    assert_eq!(twice, once);
}
