use apix_sync::shared::{
    expected_workflows, is_safe_path_component, AppPrivateKey, GithubToken, GithubTokenError,
    ParseRepoError, Repo, SyncWorkflow,
};
use redacted::FullyRedacted;

fn repo(owner: &str, name: &str) -> Repo {
    Repo::new(owner.to_string(), name.to_string())
}

#[test]
fn github_token_formatting_is_redacted() {
    let token = FullyRedacted::new(
        "secret-token"
            .parse::<GithubToken>()
            .expect("non-empty token"),
    );

    assert!(!format!("{token:?}").contains("secret-token"));
    assert!(!format!("{token}").contains("secret-token"));
}

#[test]
fn github_token_rejects_empty_and_exposes_value() {
    assert_eq!("".parse::<GithubToken>().err(), Some(GithubTokenError::NotEmptyViolated));
    let token = GithubToken::try_new("abc".to_string()).ok().expect("non-empty");
    assert_eq!(token.expose_secret(), "abc");
    let bytes: &[u8] = token.as_ref();
    assert_eq!(bytes, b"abc");
}

#[test]
fn app_private_key_rejects_empty() {
    assert!("".parse::<AppPrivateKey>().is_err());
    let key = "pem".parse::<AppPrivateKey>().ok().expect("non-empty key");
    assert_eq!(key.expose_secret(), "pem");
}

#[test]
fn safe_path_components() {
    assert!(is_safe_path_component("mongodb"));
    assert!(is_safe_path_component("atlas-local_lib.js"));
    assert!(is_safe_path_component("..."));
    assert!(!is_safe_path_component(""));
    assert!(!is_safe_path_component("."));
    assert!(!is_safe_path_component(".."));
    assert!(!is_safe_path_component("a/b"));
    assert!(!is_safe_path_component("a b"));
    assert!(!is_safe_path_component("é"));
}

#[test]
fn repo_parses_owner_and_name() {
    assert_eq!(Repo::parse("mongodb/atlas"), Ok(repo("mongodb", "atlas")));
    assert_eq!("mongodb/atlas".parse::<Repo>(), Ok(repo("mongodb", "atlas")));
    assert_eq!(
        Repo::parse("mongodb"),
        Err(ParseRepoError("mongodb".to_string()))
    );
    assert!(Repo::parse("a/b/c").is_err());
    assert!(Repo::parse("../x").is_err());
    assert_eq!(
        ParseRepoError("x".to_string()).message(),
        "invalid repository 'x', expecting format: 'owner/name'"
    );
    assert_eq!(repo("mongodb", "atlas").full_name(), "mongodb/atlas");
}

#[test]
fn expected_workflows_lists_names_syncing_to_repository() {
    let workflows = vec![
        SyncWorkflow {
            file_name: "a.yaml".to_string(),
            sync: vec![repo("owner", "one"), repo("owner", "two")],
            contents: String::new(),
        },
        SyncWorkflow {
            file_name: "b.yaml".to_string(),
            sync: vec![repo("owner", "two")],
            contents: String::new(),
        },
    ];
    assert_eq!(expected_workflows(&workflows, &repo("owner", "one")), vec!["a.yaml"]);
    assert_eq!(
        expected_workflows(&workflows, &repo("owner", "two")),
        vec!["a.yaml", "b.yaml"]
    );
    assert!(expected_workflows(&workflows, &repo("other", "two")).is_empty());
}
