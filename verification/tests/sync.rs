use apix_sync::installation::{
    orphan_candidate, owners_from_logins, InstallationRepository, RepositoryPager,
};
use apix_sync::labels::{after_label_lookup, LabelAction};
use apix_sync::scan::MARKER_PREFIX;
use apix_sync::shared::{expected_workflows, unique_repositories, Repo, SyncWorkflow};
use apix_sync::sync::{
    clone_url, default_branch_name, is_generated, orphan, sort_repositories, sweeps_orphans,
    target_repositories,
};

fn repo(name: &str) -> Repo {
    Repo::new("owner".to_string(), name.to_string())
}

fn workflow(file_name: &str, targets: &[&str]) -> SyncWorkflow {
    SyncWorkflow {
        file_name: file_name.to_string(),
        sync: targets.iter().map(|target| repo(target)).collect(),
        contents: String::new(),
    }
}

#[test]
fn remove_orphans_removes_workflows_no_longer_targeted() {
    let marker = MARKER_PREFIX;
    let workflows = [workflow("kept.yaml", &["repository"])];
    assert!(sweeps_orphans(&workflows));
    let expected = expected_workflows(&workflows, &repo("repository"));

    let kept = format!("{marker}kept.yaml\nname: kept");
    let retired = format!("{marker}retired.yaml\nname: gone");
    assert!(!orphan("kept.yaml", true, &kept, &expected));
    assert!(!orphan("local.yaml", true, "name: local", &expected), "unmarked file kept");
    assert!(orphan("retired.yaml", true, &retired, &expected));
}

#[test]
fn remove_orphans_removes_workflow_dropped_for_one_target() {
    let marker = MARKER_PREFIX;
    let workflows = [workflow("kept.yaml", &["repository"]), workflow("shared.yaml", &["other"])];
    let expected = expected_workflows(&workflows, &repo("repository"));

    let shared = format!("{marker}shared.yaml\nname: shared");
    assert!(orphan("shared.yaml", true, &shared, &expected));
}

#[test]
fn remove_orphans_skips_when_no_source_workflows() {
    assert!(!sweeps_orphans(&[]));
}

#[test]
fn orphans_need_a_regular_generated_file() {
    let marker = MARKER_PREFIX;
    let generated = format!("{marker}x.yaml\n");
    assert!(!orphan("x.yaml", false, &generated, &[]));
    assert!(is_generated(&generated));
    assert!(!is_generated("name: x"));
}

#[test]
fn target_repositories_lists_each_target_once() {
    let workflows = [workflow("a.yaml", &["one", "two"]), workflow("b.yaml", &["two", "three"])];
    assert_eq!(target_repositories(&workflows), vec![repo("one"), repo("two"), repo("three")]);
    assert_eq!(
        unique_repositories(vec![repo("x"), repo("y"), repo("x")]),
        vec![repo("x"), repo("y")]
    );
}

#[test]
fn repositories_are_sorted_by_owner_then_name() {
    let sorted = sort_repositories(vec![
        Repo::new("b".to_string(), "a".to_string()),
        Repo::new("a".to_string(), "z".to_string()),
        Repo::new("a".to_string(), "b".to_string()),
    ]);
    assert_eq!(
        sorted,
        vec![
            Repo::new("a".to_string(), "b".to_string()),
            Repo::new("a".to_string(), "z".to_string()),
            Repo::new("b".to_string(), "a".to_string()),
        ]
    );
}

#[test]
fn checkout_addresses() {
    assert_eq!(clone_url(&repo("r")), "https://github.com/owner/r.git");
    assert_eq!(default_branch_name("refs/heads/main"), Some("main".to_string()));
    assert_eq!(default_branch_name("main"), None);
}

#[test]
fn owners_are_sorted_and_unique() {
    assert_eq!(
        owners_from_logins(vec!["mongodb".to_string(), "a".to_string(), "mongodb".to_string()]),
        vec!["a", "mongodb"]
    );
}

#[test]
fn pager_filters_owner_and_stops_on_short_page() {
    let mut pager = RepositoryPager::new(Some("mongodb".to_string()));
    assert_eq!(pager.page(), 1);
    let full: Vec<InstallationRepository> = (0..100)
        .map(|i| InstallationRepository { name: format!("r{i}"), owner_login: "mongodb".to_string() })
        .collect();
    pager.accept(full);
    assert!(!pager.is_done());
    assert_eq!(pager.page(), 2);
    pager.accept(vec![
        InstallationRepository { name: "x".to_string(), owner_login: "other".to_string() },
        InstallationRepository { name: "bad name".to_string(), owner_login: "mongodb".to_string() },
        InstallationRepository { name: "last".to_string(), owner_login: "mongodb".to_string() },
    ]);
    assert!(pager.is_done());
    let repositories = pager.finish();
    assert_eq!(repositories.len(), 101);
    assert_eq!(
        repositories[100],
        Repo::new("mongodb".to_string(), "last".to_string())
    );
}

#[test]
fn orphan_candidates_on_the_api() {
    let expected = vec!["kept.yaml".to_string()];
    assert!(orphan_candidate("file", "old.yml", &expected));
    assert!(!orphan_candidate("file", "kept.yaml", &expected));
    assert!(!orphan_candidate("dir", "old.yml", &expected));
    assert!(!orphan_candidate("file", "README.md", &expected));
}

#[test]
fn label_lookup_decisions() {
    assert_eq!(after_label_lookup(true, None), LabelAction::Keep);
    assert_eq!(after_label_lookup(false, Some(404)), LabelAction::Create);
    assert_eq!(after_label_lookup(false, Some(500)), LabelAction::Fail);
    assert_eq!(after_label_lookup(false, None), LabelAction::Fail);
}
