use apix_sync::prs::{
    branch_name, changed_workflows, description, file_changes, has_sync_label, head_reference,
    is_deleted, is_signed_by_github, render_summary, summary_files, summary_of_results,
    ChangedFile,
    CreatedPullRequest, PullRequestRun, PullRequestStep, ResultFile, INDEX_DELETED, WT_DELETED,
};
use apix_sync::shared::Repo;

#[test]
fn description_lists_changed_actions() {
    let actions = vec!["dependabot-auto-merge.yaml".to_string()];
    assert_eq!(
        description(&actions),
        "## 🤖 Automated sync\n\nThis pull request was autogenerated to sync this repository from `api-actions`.\n\n## Actions changed\n\n- `dependabot-auto-merge.yaml`"
    );
}

#[test]
fn description_joins_actions_by_line() {
    let actions = vec!["a.yaml".to_string(), "b.yaml".to_string()];
    assert!(description(&actions).ends_with("## Actions changed\n\n- `a.yaml`\n- `b.yaml`"));
    assert!(description(&[]).ends_with("## Actions changed\n\n"));
}

#[test]
fn summary_lists_repositories_and_changed_files() {
    let names = summary_files(vec!["prs.json".to_string()]);
    assert_eq!(names, vec!["prs.json"]);
    assert_eq!(
        render_summary(vec![CreatedPullRequest {
            repository: "mongodb/example".to_string(),
            url: "https://github.com/mongodb/example/pull/1".to_string(),
            files: vec!["ci.yaml".to_string()],
        }]),
        "## Created pull requests\n\n- [`mongodb/example`](https://github.com/mongodb/example/pull/1): `ci.yaml`\n"
    );
}

#[test]
fn summary_sorts_by_repository_and_handles_empty() {
    assert_eq!(
        render_summary(vec![]),
        "## Created pull requests\n\nNo pull requests were created.\n"
    );
    let summary = render_summary(vec![
        CreatedPullRequest { repository: "z/b".to_string(), url: "u2".to_string(), files: vec![] },
        CreatedPullRequest {
            repository: "a/c".to_string(),
            url: "u1".to_string(),
            files: vec!["x.yaml".to_string(), "y.yaml".to_string()],
        },
    ]);
    assert_eq!(
        summary,
        "## Created pull requests\n\n- [`a/c`](u1): `x.yaml`, `y.yaml`\n- [`z/b`](u2)\n"
    );
}

#[test]
fn summary_files_keep_sorted_json() {
    assert_eq!(
        summary_files(vec![
            "b.json".to_string(),
            "notes.txt".to_string(),
            ".json".to_string(),
            "a.json".to_string(),
        ]),
        vec!["a.json", "b.json"]
    );
}

#[test]
fn changed_workflows_excludes_other_changed_files() {
    assert_eq!(
        changed_workflows(vec![
            ".github/workflows/dependabot-auto-merge.yaml".to_string(),
            "README.md".to_string(),
        ]),
        vec!["dependabot-auto-merge.yaml"]
    );
}

#[test]
fn changed_workflows_sorts_and_dedups() {
    assert_eq!(
        changed_workflows(vec![
            ".github/workflows/b.yaml".to_string(),
            ".github/workflows/a.yaml".to_string(),
            ".github/workflows/b.yaml".to_string(),
            ".github/workflowsx/c.yaml".to_string(),
        ]),
        vec!["a.yaml", "b.yaml"]
    );
}

#[test]
fn file_changes_encodes_additions_and_lists_deletions() {
    let changes = file_changes(vec![
        ChangedFile {
            path: ".github/workflows/removed.yaml".to_string(),
            status: WT_DELETED,
            contents: vec![],
        },
        ChangedFile {
            path: ".github/workflows/added.yaml".to_string(),
            status: 128,
            contents: b"added".to_vec(),
        },
    ]);
    assert_eq!(
        changes
            .additions
            .iter()
            .map(|addition| (addition.path.as_str(), addition.contents.as_str()))
            .collect::<Vec<_>>(),
        // "added" base64-encoded.
        vec![(".github/workflows/added.yaml", "YWRkZWQ=")]
    );
    assert_eq!(
        changes.deletions.iter().map(|deletion| deletion.path.as_str()).collect::<Vec<_>>(),
        vec![".github/workflows/removed.yaml"]
    );
    assert!(!changes.is_empty());
    assert!(file_changes(vec![]).is_empty());
}

#[test]
fn file_changes_sort_each_list_by_path() {
    let changes = file_changes(vec![
        ChangedFile { path: "b".to_string(), status: 0, contents: b"hi".to_vec() },
        ChangedFile { path: "a".to_string(), status: 0, contents: vec![] },
        ChangedFile { path: "d".to_string(), status: INDEX_DELETED, contents: vec![] },
        ChangedFile { path: "c".to_string(), status: WT_DELETED | 1, contents: vec![] },
    ]);
    assert_eq!(
        changes.additions.iter().map(|a| (a.path.as_str(), a.contents.as_str())).collect::<Vec<_>>(),
        vec![("a", ""), ("b", "aGk=")]
    );
    assert_eq!(
        changes.deletions.iter().map(|d| d.path.as_str()).collect::<Vec<_>>(),
        vec!["c", "d"]
    );
    assert!(is_deleted(WT_DELETED));
    assert!(!is_deleted(256));
}

#[test]
fn pull_request_pieces() {
    let repository = Repo::new("mongodb".to_string(), "example".to_string());
    let created = CreatedPullRequest::new(&repository, 42, vec!["ci.yaml".to_string()]);
    assert_eq!(created.repository, "mongodb/example");
    assert_eq!(created.url, "https://github.com/mongodb/example/pull/42");
    assert_eq!(created.files, vec!["ci.yaml"]);
    assert_eq!(branch_name(1234567890123), "ci/api-action-1234567890123");
    assert_eq!(branch_name(0), "ci/api-action-0");
    assert_eq!(head_reference(&repository, "ci/x"), "mongodb:ci/x");
    assert!(has_sync_label(&["bug".to_string(), "apix-action".to_string()]));
    assert!(!has_sync_label(&["apix".to_string()]));
    assert!(is_signed_by_github(Some(true)));
    assert!(!is_signed_by_github(Some(false)));
    assert!(!is_signed_by_github(None));
}

#[test]
fn summary_keeps_input_order_within_one_repository() {
    let summary = render_summary(vec![
        CreatedPullRequest { repository: "o/r".to_string(), url: "second".to_string(), files: vec![] },
        CreatedPullRequest { repository: "a/a".to_string(), url: "first".to_string(), files: vec![] },
        CreatedPullRequest { repository: "o/r".to_string(), url: "third".to_string(), files: vec![] },
    ]);
    assert_eq!(
        summary,
        "## Created pull requests\n\n- [`a/a`](first)\n- [`o/r`](second)\n- [`o/r`](third)\n"
    );
}

#[test]
fn pull_requests_open_only_after_every_close() {
    let mut run = PullRequestRun::new(2);
    let mut steps = Vec::new();
    loop {
        let step = run.next();
        steps.push(step);
        if step == PullRequestStep::Done {
            break;
        }
        run.advance();
    }
    assert_eq!(
        steps,
        vec![
            PullRequestStep::Close(0),
            PullRequestStep::Close(1),
            PullRequestStep::Open(0),
            PullRequestStep::Open(1),
            PullRequestStep::Done,
        ]
    );
    assert_eq!(PullRequestRun::new(0).next(), PullRequestStep::Done);
}

#[test]
fn directory_summary_reads_json_files_in_name_order() {
    let pr = |repository: &str, url: &str| CreatedPullRequest {
        repository: repository.to_string(),
        url: url.to_string(),
        files: vec![],
    };
    assert_eq!(
        summary_of_results(false, vec![]),
        "## Created pull requests\n\nNo pull requests were created.\n"
    );
    assert_eq!(
        summary_of_results(
            true,
            vec![ResultFile {
                name: "prs.json".to_string(),
                pull_requests: vec![CreatedPullRequest {
                    repository: "mongodb/example".to_string(),
                    url: "https://github.com/mongodb/example/pull/1".to_string(),
                    files: vec!["ci.yaml".to_string()],
                }],
            }],
        ),
        "## Created pull requests\n\n- [`mongodb/example`](https://github.com/mongodb/example/pull/1): `ci.yaml`\n"
    );
    let summary = summary_of_results(
        true,
        vec![
            ResultFile { name: "b.json".to_string(), pull_requests: vec![pr("o/r", "from-b")] },
            ResultFile { name: "notes.txt".to_string(), pull_requests: vec![pr("a/a", "ignored")] },
            ResultFile { name: "a.json".to_string(), pull_requests: vec![pr("o/r", "from-a")] },
        ],
    );
    assert_eq!(
        summary,
        "## Created pull requests\n\n- [`o/r`](from-a)\n- [`o/r`](from-b)\n"
    );
}
