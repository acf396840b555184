use apix_sync::apix_action;
use apix_sync::scan::{
    is_workflow_file, parse_workflow, restrict_to_owner, scan_entries, scan_files, DirectoryEntry,
    WorkflowFile, MARKER_PREFIX,
};
use apix_sync::shared::Repo;

fn repo(owner: &str, name: &str) -> Repo {
    Repo::new(owner.to_string(), name.to_string())
}

#[test]
fn scan_parse_workflow_removes_valid_sync_headers() {
    let contents = "name: test\n# sync -> mongodb/first\n# sync -> mongodb/second\njobs:\n";

    let workflow = parse_workflow("test.yaml".to_string(), contents);

    assert_eq!(workflow.file_name, "test.yaml");
    assert_eq!(workflow.sync.len(), 2);
    assert_eq!(workflow.sync[0].owner, "mongodb");
    assert_eq!(workflow.sync[0].repository, "first");
    assert_eq!(
        workflow.contents,
        "# synced from apix-actions/.github/workflows/test.yaml\nname: test\njobs:"
    );
}

#[test]
fn scan_parse_workflow_keeps_invalid_sync_headers() {
    let contents = "# sync -> invalid\n# not a sync header\n";

    let workflow = parse_workflow("test.yaml".to_string(), contents);

    assert!(workflow.sync.is_empty());
    assert_eq!(workflow.contents, contents.trim());
}

#[test]
fn parse_workflow_adds_comment_when_contents_are_empty() {
    let workflow = parse_workflow("test.yaml".to_string(), "# sync -> mongodb/test\n");

    assert_eq!(
        workflow.contents,
        "# synced from apix-actions/.github/workflows/test.yaml\n"
    );
}

#[test]
fn mod_parse_workflow_removes_valid_sync_headers() {
    let contents = "name: test\n# sync -> mongodb/first\n# sync -> mongodb/second\njobs:\n";

    let workflow = apix_action::parse_workflow(contents);

    assert_eq!(workflow.sync.len(), 2);
    assert_eq!(workflow.sync[0].owner, "mongodb");
    assert_eq!(workflow.sync[0].repository, "first");
    assert_eq!(workflow.contents, "name: test\njobs:");
}

#[test]
fn mod_parse_workflow_keeps_invalid_sync_headers() {
    let contents = "# sync -> invalid\n# not a sync header\n";

    let workflow = apix_action::parse_workflow(contents);

    assert!(workflow.sync.is_empty());
    assert_eq!(workflow.contents, contents.trim());
}

#[test]
fn parse_workflow_handles_crlf_and_unicode_whitespace() {
    let contents = "\u{a0}\r\n# sync -> mongodb/first\r\nname: x\r\n\u{3000}";
    let workflow = parse_workflow("w.yml".to_string(), contents);
    assert_eq!(workflow.sync, vec![repo("mongodb", "first")]);
    assert_eq!(
        workflow.contents,
        "# synced from apix-actions/.github/workflows/w.yml\nname: x"
    );
}

#[test]
fn parsed_targets_start_with_marker() {
    let workflow = parse_workflow("x.yaml".to_string(), "# sync -> a/b\nbody");
    assert!(workflow.contents.starts_with(MARKER_PREFIX));
    assert!(workflow.contents.starts_with(&format!("{MARKER_PREFIX}x.yaml\n")));
}

#[test]
fn workflow_file_extensions() {
    assert!(is_workflow_file("ci.yaml"));
    assert!(is_workflow_file("ci.yml"));
    assert!(is_workflow_file("a.b.yml"));
    assert!(!is_workflow_file(".yaml"));
    assert!(!is_workflow_file("ci.json"));
    assert!(!is_workflow_file("yaml"));
    assert!(apix_action::is_workflow_file("ci.yaml"));
    assert!(!apix_action::is_workflow_file("ci.yml"));
}

#[test]
fn scan_files_keeps_workflows_with_targets() {
    let workflows = scan_files(vec![
        WorkflowFile { file_name: "a.yaml".to_string(), contents: "name: a\n".to_string() },
        WorkflowFile {
            file_name: "b.yaml".to_string(),
            contents: "# sync -> o/r\nname: b\n".to_string(),
        },
    ]);
    assert_eq!(workflows.len(), 1);
    assert_eq!(workflows[0].file_name, "b.yaml");
    assert_eq!(workflows[0].sync, vec![repo("o", "r")]);
    let plain = apix_action::scan_contents(vec![
        "name: a\n".to_string(),
        "# sync -> o/r\nname: b\n".to_string(),
    ]);
    assert_eq!(plain.len(), 1);
    assert_eq!(plain[0].sync, vec![repo("o", "r")]);
    assert_eq!(plain[0].contents, "name: b");
}

#[test]
fn restrict_to_owner_filters_targets_and_drops_empty_workflows() {
    let workflows = scan_files(vec![
        WorkflowFile {
            file_name: "a.yaml".to_string(),
            contents: "# sync -> one/x\n# sync -> two/y\n".to_string(),
        },
        WorkflowFile { file_name: "b.yaml".to_string(), contents: "# sync -> two/z\n".to_string() },
    ]);
    let restricted = restrict_to_owner(workflows, Some("one"));
    assert_eq!(restricted.len(), 1);
    assert_eq!(restricted[0].file_name, "a.yaml");
    assert_eq!(restricted[0].sync, vec![repo("one", "x")]);
    let all = scan_files(vec![WorkflowFile {
        file_name: "a.yaml".to_string(),
        contents: "# sync -> one/x\n".to_string(),
    }]);
    assert_eq!(restrict_to_owner(all, None).len(), 1);
}

#[test]
fn scan_entries_skips_non_workflow_entries() {
    let entry = |name: &str, is_file: bool, contents: &str| DirectoryEntry {
        file_name: name.to_string(),
        is_file,
        contents: contents.to_string(),
    };
    let workflows = scan_entries(vec![
        entry("a.yaml", true, "# sync -> o/a\nname: a\n"),
        entry("b.txt", true, "# sync -> o/b\n"),
        entry("c.yml", false, "# sync -> o/c\n"),
        entry("d.yml", true, "name: d\n"),
        entry("e.yml", true, "# sync -> o/e\n"),
    ]);
    assert_eq!(workflows.len(), 2);
    assert_eq!(workflows[0].file_name, "a.yaml");
    assert_eq!(workflows[0].sync, vec![repo("o", "a")]);
    assert_eq!(workflows[1].file_name, "e.yml");
    assert_eq!(workflows[1].contents, format!("{MARKER_PREFIX}e.yml\n"));
}
