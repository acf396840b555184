//! `# sync -> owner/name` headers that declare where a workflow is synced.
use vstd::prelude::*;

use crate::shared::{
    is_safe_component, lemma_parse_repo_roundtrip, parse_repo_chars, spec_parse_repo, Repo,
    RepoView,
};
use crate::text::{slice_chars, starts_with, starts_with_chars, to_chars};

verus! {

/// The text that starts a sync header.
pub const PREFIX: &'static str = "# sync -> ";

/// `# sync -> owner/name` parsed into its target repository.
pub open spec fn spec_parse_sync_entry(s: Seq<char>) -> Option<RepoView> {
    if starts_with(s, PREFIX@) {
        spec_parse_repo(s.skip(PREFIX@.len() as int))
    } else {
        None
    }
}

/// A parsed sync header.
pub struct SyncEntry {
    pub repo: Repo,
}

/// The error of parsing a sync header: the input that is not one.
#[derive(Debug, PartialEq, Eq)]
pub struct ParseSyncEntryError(pub String);

impl ParseSyncEntryError {
    /// The message the error displays.
    pub fn message(&self) -> (r: String)
        ensures
            r@ == "invalid sync entry '"@ + self.0@ + "', expecting format: '# sync -> owner/name'"@,
    {
        let mut m = String::from_str("invalid sync entry '");
        m.append(self.0.as_str());
        m.append("', expecting format: '# sync -> owner/name'");
        m
    }
}

/// A sync header parsed from characters.
pub fn parse_sync_entry_chars(s: &Vec<char>) -> (r: Option<Repo>)
    ensures
        match r {
            Some(repo) => spec_parse_sync_entry(s@) == Some(repo@) && repo.wf(),
            None => spec_parse_sync_entry(s@) is None,
        },
{
    let prefix = to_chars(PREFIX);
    if !starts_with_chars(s, &prefix) {
        return None;
    }
    let rest = slice_chars(s, prefix.len(), s.len());
    assert(rest@ =~= s@.skip(PREFIX@.len() as int));
    parse_repo_chars(&rest)
}

impl SyncEntry {
    /// Parse `# sync -> owner/name` into a target repository.
    pub fn parse(s: &str) -> (r: Result<SyncEntry, ParseSyncEntryError>)
        ensures
            match r {
                Ok(entry) => spec_parse_sync_entry(s@) == Some(entry.repo@) && entry.repo.wf(),
                Err(e) => spec_parse_sync_entry(s@) is None && e.0@ == s@,
            },
    {
        let chars = to_chars(s);
        match parse_sync_entry_chars(&chars) {
            Some(repo) => Ok(SyncEntry { repo }),
            None => Err(ParseSyncEntryError(String::from_str(s))),
        }
    }
}

impl core::str::FromStr for SyncEntry {
    type Err = ParseSyncEntryError;

    /// Parse `# sync -> owner/name` into a target repository.
    fn from_str(s: &str) -> (r: Result<SyncEntry, ParseSyncEntryError>)
        ensures
            match r {
                Ok(entry) => spec_parse_sync_entry(s@) == Some(entry.repo@) && entry.repo.wf(),
                Err(e) => spec_parse_sync_entry(s@) is None && e.0@ == s@,
            },
    {
        SyncEntry::parse(s)
    }
}


/// A header written as `# sync -> owner/name` parses back to that repository, for every
/// pair of safe components.
pub proof fn lemma_sync_entry_roundtrip(owner: Seq<char>, name: Seq<char>)
    requires
        is_safe_component(owner),
        is_safe_component(name),
    ensures
        spec_parse_sync_entry(PREFIX@ + owner + seq!['/'] + name) == Some(
            RepoView { owner, repository: name },
        ),
{
    let s = PREFIX@ + owner + seq!['/'] + name;
    assert(s.take(PREFIX@.len() as int) =~= PREFIX@);
    assert(s.skip(PREFIX@.len() as int) =~= owner + seq!['/'] + name);
    lemma_parse_repo_roundtrip(owner, name);
}

} // verus!
