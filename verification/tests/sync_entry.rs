use apix_sync::shared::Repo;
use apix_sync::sync_entry::{ParseSyncEntryError, SyncEntry, PREFIX};

fn repo(owner: &str, name: &str) -> Repo {
    Repo::new(owner.to_string(), name.to_string())
}

#[test]
fn valid_entries() {
    assert_eq!(
        Ok(repo("mongodb", "atlas-local-lib")),
        SyncEntry::parse("# sync -> mongodb/atlas-local-lib").map(|e| e.repo)
    );
    assert_eq!(
        Ok(repo("mongodb-js", "atlas-local-lib-js")),
        SyncEntry::parse("# sync -> mongodb-js/atlas-local-lib-js").map(|e| e.repo)
    );
    assert_eq!(
        Ok(repo("mongodb-labs", "cobra2snooty")),
        SyncEntry::parse("# sync -> mongodb-labs/cobra2snooty").map(|e| e.repo)
    );
}

#[test]
fn invalid_entries() {
    assert!(SyncEntry::parse("mongodb/atlas-local-lib").is_err());
    assert!(SyncEntry::parse("# sync -> ").is_err());
    assert!(SyncEntry::parse("# sync -> /atlas-local-lib-js").is_err());
    assert!(SyncEntry::parse("# sync -> mongodb-js/").is_err());
    assert!(SyncEntry::parse("# sync -> ../atlas-local-lib").is_err());
    assert!(SyncEntry::parse("# sync -> mongodb-js/../other").is_err());
    assert!(SyncEntry::parse("# sync -> # sync -> mongodb/other").is_err());
}

#[test]
fn sync_entry_parses_through_from_str() {
    let entry: SyncEntry = "# sync -> mongodb/first".parse().expect("valid header");
    assert_eq!(entry.repo, repo("mongodb", "first"));
}

#[test]
fn sync_entry_error_keeps_input_and_message() {
    let error = SyncEntry::parse("# sync -> invalid").err().expect("invalid header");
    assert_eq!(error, ParseSyncEntryError("# sync -> invalid".to_string()));
    assert_eq!(
        error.message(),
        "invalid sync entry '# sync -> invalid', expecting format: '# sync -> owner/name'"
    );
}

#[test]
fn sync_entry_roundtrip_on_safe_names() {
    for (owner, name) in [("a", "b"), ("mongodb", "x.y_z-1"), ("A9", "..a")] {
        let header = format!("{PREFIX}{owner}/{name}");
        assert_eq!(SyncEntry::parse(&header).map(|e| e.repo), Ok(repo(owner, name)));
    }
}

#[test]
fn sync_entry_rejects_extra_slash_and_unicode() {
    assert!(SyncEntry::parse("# sync -> a/b/c").is_err());
    assert!(SyncEntry::parse("# sync -> mongodé/x").is_err());
    assert!(SyncEntry::parse("# sync -> a b/c").is_err());
    assert!(SyncEntry::parse(" # sync -> a/b").is_err());
}
