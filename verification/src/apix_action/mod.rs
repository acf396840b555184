//! A plainer workflow scanner: workflows keep no file name and get no marker, and only
//! `.yaml` files are scanned.
use vstd::prelude::*;

use crate::scan::{body_without_headers, header_targets, split_headers};
use crate::shared::{repo_views, Repo, RepoView};
use crate::text::{extension, from_chars, has_extension, lines, to_chars};

verus! {

/// Workflow that has to be synced.
pub struct SyncWorkflow {
    /// Sync targets.
    pub sync: Vec<Repo>,
    /// Workflow contents without sync headers.
    pub contents: String,
}

/// Parse a workflow: its sync targets, and its text without the header lines.
pub fn parse_workflow(contents: &str) -> (r: SyncWorkflow)
    ensures
        repo_views(r.sync@) == header_targets(lines(contents@)),
        r.contents@ == body_without_headers(contents@),
        forall|i: int| 0 <= i < r.sync@.len() ==> (#[trigger] r.sync@[i]).wf(),
{
    let chars = to_chars(contents);
    let (sync, body) = split_headers(&chars);
    SyncWorkflow { sync, contents: from_chars(&body) }
}

/// Whether a file with this name is scanned: its extension is `yaml`.
pub fn is_workflow_file(file_name: &str) -> (r: bool)
    ensures
        r == (extension(file_name@) == Some(seq!['y', 'a', 'm', 'l'])),
{
    let name = to_chars(file_name);
    let yaml = vec!['y', 'a', 'm', 'l'];
    assert(yaml@ =~= seq!['y', 'a', 'm', 'l']);
    has_extension(&name, &yaml)
}

/// The workflow parsed from each file's contents, in order, as `(targets, text)`, keeping
/// only those with at least one valid sync header.
pub open spec fn scanned_contents(files: Seq<Seq<char>>) -> Seq<(Seq<RepoView>, Seq<char>)>
    decreases files.len(),
{
    if files.len() == 0 {
        Seq::empty()
    } else {
        let rest = scanned_contents(files.drop_last());
        let targets = header_targets(lines(files.last()));
        if targets.len() == 0 {
            rest
        } else {
            rest.push((targets, body_without_headers(files.last())))
        }
    }
}

/// The views of workflows as `(targets, text)`.
pub open spec fn workflow_pairs(ws: Seq<SyncWorkflow>) -> Seq<(Seq<RepoView>, Seq<char>)> {
    ws.map_values(|w: SyncWorkflow| (repo_views(w.sync@), w.contents@))
}

/// Scans workflows that contain at least one valid sync header: the workflow of each
/// file's contents, in order, dropping those without a target.
pub fn scan_contents(files: Vec<String>) -> (r: Vec<SyncWorkflow>)
    ensures
        workflow_pairs(r@) == scanned_contents(files@.map_values(|f: String| f@)),
        forall|i: int| 0 <= i < r@.len() ==> (#[trigger] r@[i]).sync@.len() > 0,
{
    let ghost all = files@.map_values(|f: String| f@);
    let mut r: Vec<SyncWorkflow> = Vec::new();
    let mut i: usize = 0;
    assert(all.take(0) =~= Seq::<Seq<char>>::empty());
    assert(workflow_pairs(r@) =~= Seq::<(Seq<RepoView>, Seq<char>)>::empty());
    while i < files.len()
        invariant
            i <= files.len(),
            all == files@.map_values(|f: String| f@),
            workflow_pairs(r@) == scanned_contents(all.take(i as int)),
            forall|k: int| 0 <= k < r@.len() ==> (#[trigger] r@[k]).sync@.len() > 0,
        decreases files.len() - i,
    {
        assert(all.take(i + 1).drop_last() =~= all.take(i as int));
        assert(all.take(i + 1).last() == files@[i as int]@);
        let workflow = parse_workflow(files[i].as_str());
        let ghost before = r@;
        if workflow.sync.len() > 0 {
            let ghost pair = (repo_views(workflow.sync@), workflow.contents@);
            r.push(workflow);
            assert(workflow_pairs(r@) =~= workflow_pairs(before).push(pair));
        }
        i = i + 1;
    }
    assert(all.take(files.len() as int) =~= all);
    r
}

} // verus!
