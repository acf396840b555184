//! Source workflows: finding their sync headers and preparing the copy each target gets.
use vstd::prelude::*;

use crate::shared::{is_safe_component, repo_views, Repo, RepoView, SyncWorkflow};
use crate::sync_entry::{parse_sync_entry_chars, spec_parse_sync_entry};
use crate::text::{
    append_chars, chars_eq, extension, has_extension, from_chars, join, join_chars, lines, lines_of,
    slice_chars, starts_with, ends_with, to_chars, trim, trim_chars, views, no_crlf,
};

verus! {

/// The first line of every workflow this tool writes; the source file name follows it.
pub const MARKER_PREFIX: &'static str = "# synced from apix-actions/.github/workflows/";

/// The targets named by the sync headers among `lines`, in order.
pub open spec fn header_targets(lines: Seq<Seq<char>>) -> Seq<RepoView>
    decreases lines.len(),
{
    if lines.len() == 0 {
        Seq::empty()
    } else {
        let rest = header_targets(lines.drop_last());
        match spec_parse_sync_entry(lines.last()) {
            Some(r) => rest.push(r),
            None => rest,
        }
    }
}

/// The lines that are not sync headers, in order.
pub open spec fn non_header_lines(lines: Seq<Seq<char>>) -> Seq<Seq<char>>
    decreases lines.len(),
{
    if lines.len() == 0 {
        Seq::empty()
    } else {
        let rest = non_header_lines(lines.drop_last());
        match spec_parse_sync_entry(lines.last()) {
            Some(_) => rest,
            None => rest.push(lines.last()),
        }
    }
}

/// The workflow text without its sync headers: the other lines joined by `'\n'`, trimmed.
pub open spec fn body_without_headers(contents: Seq<char>) -> Seq<char> {
    trim(join(non_header_lines(lines(contents)), seq!['\n']))
}

/// What a target receives of `contents`: the text without headers, preceded by a marker
/// line naming the source file when the workflow has at least one target.
pub open spec fn synced_contents(file_name: Seq<char>, contents: Seq<char>) -> Seq<char> {
    let body = body_without_headers(contents);
    if header_targets(lines(contents)).len() == 0 {
        body
    } else {
        MARKER_PREFIX@ + file_name + seq!['\n'] + body
    }
}

/// The sync targets of `contents` and its text without the header lines.
pub fn split_headers(contents: &Vec<char>) -> (r: (Vec<Repo>, Vec<char>))
    ensures
        repo_views(r.0@) == header_targets(lines(contents@)),
        r.1@ == body_without_headers(contents@),
        forall|i: int| 0 <= i < r.0@.len() ==> (#[trigger] r.0@[i]).wf(),
{
    let ls = lines_of(contents);
    let mut sync: Vec<Repo> = Vec::new();
    let mut kept: Vec<Vec<char>> = Vec::new();
    let mut i: usize = 0;
    while i < ls.len()
        invariant
            i <= ls.len(),
            views(ls@) == lines(contents@),
            repo_views(sync@) == header_targets(views(ls@).take(i as int)),
            views(kept@) == non_header_lines(views(ls@).take(i as int)),
            forall|k: int| 0 <= k < sync@.len() ==> (#[trigger] sync@[k]).wf(),
        decreases ls.len() - i,
    {
        let ghost vs = views(ls@);
        assert(vs.take(i + 1).drop_last() =~= vs.take(i as int));
        assert(vs.take(i + 1).last() == ls@[i as int]@);
        let ghost sync_before = sync@;
        let ghost kept_before = kept@;
        match parse_sync_entry_chars(&ls[i]) {
            Some(repo) => {
                sync.push(repo);
                assert(repo_views(sync@) =~= repo_views(sync_before).push(repo@));
            },
            None => {
                let line = slice_chars(&ls[i], 0, ls[i].len());
                assert(line@ =~= ls@[i as int]@);
                kept.push(line);
                assert(views(kept@) =~= views(kept_before).push(ls@[i as int]@));
            },
        }
        i = i + 1;
    }
    assert(views(ls@).take(ls.len() as int) =~= views(ls@));
    let newline = vec!['\n'];
    assert(newline@ =~= seq!['\n']);
    let joined = join_chars(&kept, &newline);
    let body = trim_chars(&joined);
    (sync, body)
}

/// Parse a source workflow: its sync targets, and the contents a target receives.
pub fn parse_workflow(file_name: String, contents: &str) -> (r: SyncWorkflow)
    ensures
        r.file_name@ == file_name@,
        r@.sync == header_targets(lines(contents@)),
        r.contents@ == synced_contents(file_name@, contents@),
        forall|i: int| 0 <= i < r.sync@.len() ==> (#[trigger] r.sync@[i]).wf(),
{
    let chars = to_chars(contents);
    let (sync, body) = split_headers(&chars);
    let text = if sync.len() == 0 {
        from_chars(&body)
    } else {
        let mut out = to_chars(MARKER_PREFIX);
        let name = to_chars(file_name.as_str());
        append_chars(&mut out, &name);
        out.push('\n');
        append_chars(&mut out, &body);
        from_chars(&out)
    };
    SyncWorkflow { file_name, sync, contents: text }
}


/// Whether a directory entry with this file name is a workflow: its extension is `yaml`
/// or `yml`.
pub open spec fn is_workflow_file_name(name: Seq<char>) -> bool {
    extension(name) == Some(seq!['y', 'a', 'm', 'l']) || extension(name) == Some(
        seq!['y', 'm', 'l'],
    )
}

/// Whether a file with this name is scanned as a workflow.
pub fn is_workflow_file(file_name: &str) -> (r: bool)
    ensures
        r == is_workflow_file_name(file_name@),
{
    let name = to_chars(file_name);
    let yaml = vec!['y', 'a', 'm', 'l'];
    let yml = vec!['y', 'm', 'l'];
    assert(yaml@ =~= seq!['y', 'a', 'm', 'l']);
    assert(yml@ =~= seq!['y', 'm', 'l']);
    has_extension(&name, &yaml) || has_extension(&name, &yml)
}

/// A source workflow file: its name and its text.
pub struct WorkflowFile {
    pub file_name: String,
    pub contents: String,
}

/// The workflow parsed from each file, in order, keeping those with at least one target.
pub open spec fn scanned(files: Seq<(Seq<char>, Seq<char>)>) -> Seq<(Seq<char>, Seq<RepoView>, Seq<char>)>
    decreases files.len(),
{
    if files.len() == 0 {
        Seq::empty()
    } else {
        let rest = scanned(files.drop_last());
        let (name, contents) = files.last();
        let targets = header_targets(lines(contents));
        if targets.len() == 0 {
            rest
        } else {
            rest.push((name, targets, synced_contents(name, contents)))
        }
    }
}

/// The views of source files.
pub open spec fn file_views(files: Seq<WorkflowFile>) -> Seq<(Seq<char>, Seq<char>)> {
    files.map_values(|f: WorkflowFile| (f.file_name@, f.contents@))
}

/// The views of workflows as triples.
pub open spec fn workflow_triples(ws: Seq<SyncWorkflow>) -> Seq<(Seq<char>, Seq<RepoView>, Seq<char>)> {
    ws.map_values(|w: SyncWorkflow| (w.file_name@, repo_views(w.sync@), w.contents@))
}

/// Parse the workflow files that were read, keeping those with at least one valid sync
/// header.
pub fn scan_files(files: Vec<WorkflowFile>) -> (r: Vec<SyncWorkflow>)
    ensures
        workflow_triples(r@) == scanned(file_views(files@)),
        forall|i: int, j: int|
            0 <= i < r@.len() && 0 <= j < r@[i].sync@.len() ==> (#[trigger] r@[i].sync@[j]).wf(),
{
    let mut files = files;
    let ghost all = file_views(files@);
    let mut r: Vec<SyncWorkflow> = Vec::new();
    let mut i: usize = 0;
    let n = files.len();
    while files.len() > 0
        invariant
            i + files.len() == n,
            n == all.len(),
            file_views(files@) == all.skip(i as int),
            workflow_triples(r@) == scanned(all.take(i as int)),
            forall|a: int, b: int|
                0 <= a < r@.len() && 0 <= b < r@[a].sync@.len() ==> (#[trigger] r@[a].sync@[b]).wf(),
        decreases files.len(),
    {
        let ghost before = files@;
        let file = files.remove(0);
        assert(file_views(files@) =~= all.skip(i + 1)) by {
            assert(files@ =~= before.drop_first());
            assert(file_views(before.drop_first()) =~= file_views(before).drop_first());
            assert(all.skip(i as int).drop_first() =~= all.skip(i + 1));
        }
        assert(all.take(i + 1).drop_last() =~= all.take(i as int));
        assert(all.take(i + 1).last() == (file.file_name@, file.contents@)) by {
            assert(all.skip(i as int)[0] == all[i as int]);
        }
        let ghost r_before = r@;
        let workflow = parse_workflow(file.file_name, file.contents.as_str());
        if workflow.sync.len() > 0 {
            r.push(workflow);
            assert(workflow_triples(r@) =~= workflow_triples(r_before).push(
                (workflow.file_name@, repo_views(workflow.sync@), workflow.contents@),
            ));
        }
        i = i + 1;
    }
    assert(all.take(n as int) =~= all);
    r
}


/// An entry of the source workflow directory: its file name, whether it is a regular
/// file, and its text (read only for a workflow file; any text for other entries).
pub struct DirectoryEntry {
    pub file_name: String,
    pub is_file: bool,
    pub contents: String,
}

/// The views of directory entries.
pub open spec fn entry_views(entries: Seq<DirectoryEntry>) -> Seq<(Seq<char>, bool, Seq<char>)> {
    entries.map_values(|e: DirectoryEntry| (e.file_name@, e.is_file, e.contents@))
}

/// The entries that are workflow files, as `(name, text)`, in order: regular files whose
/// extension is `yaml` or `yml`.
pub open spec fn workflow_entries(entries: Seq<(Seq<char>, bool, Seq<char>)>) -> Seq<(Seq<char>, Seq<char>)>
    decreases entries.len(),
{
    if entries.len() == 0 {
        Seq::empty()
    } else {
        let rest = workflow_entries(entries.drop_last());
        let (name, is_file, contents) = entries.last();
        if is_file && is_workflow_file_name(name) {
            rest.push((name, contents))
        } else {
            rest
        }
    }
}

/// Scan the entries of the source workflow directory, in the order they were listed: keep
/// the regular files named `*.yaml` or `*.yml`, parse each, and keep the workflows with at
/// least one valid sync header.
pub fn scan_entries(entries: Vec<DirectoryEntry>) -> (r: Vec<SyncWorkflow>)
    ensures
        workflow_triples(r@) == scanned(workflow_entries(entry_views(entries@))),
        forall|i: int, j: int|
            0 <= i < r@.len() && 0 <= j < r@[i].sync@.len() ==> (#[trigger] r@[i].sync@[j]).wf(),
{
    let ghost all = entry_views(entries@);
    let mut entries = entries;
    let mut files: Vec<WorkflowFile> = Vec::new();
    let ghost mut i: int = 0;
    assert(all.skip(0) =~= all);
    assert(all.take(0) =~= Seq::<(Seq<char>, bool, Seq<char>)>::empty());
    assert(file_views(files@) =~= Seq::<(Seq<char>, Seq<char>)>::empty());
    while entries.len() > 0
        invariant
            0 <= i <= all.len(),
            entry_views(entries@) == all.skip(i),
            file_views(files@) == workflow_entries(all.take(i)),
        decreases entries.len(),
    {
        let ghost before = entries@;
        let entry = entries.remove(0);
        proof {
            assert(entry_views(entries@) =~= entry_views(before).drop_first());
            assert(all.skip(i).drop_first() =~= all.skip(i + 1));
            assert(all.take(i + 1).drop_last() =~= all.take(i));
            assert(all.take(i + 1).last() == (entry.file_name@, entry.is_file, entry.contents@)) by {
                assert(all.skip(i)[0] == all[i]);
                assert(entry_views(before)[0] == (before[0].file_name@, before[0].is_file, before[0].contents@));
            }
        }
        let ghost fb = files@;
        if entry.is_file && is_workflow_file(entry.file_name.as_str()) {
            let ghost v = (entry.file_name@, entry.contents@);
            files.push(WorkflowFile { file_name: entry.file_name, contents: entry.contents });
            assert(file_views(files@) =~= file_views(fb).push(v));
        }
        proof {
            i = i + 1;
        }
    }
    assert(all.take(i) =~= all);
    scan_files(files)
}

/// The targets of `sync` owned by `owner`, in order.
pub open spec fn owned_targets(sync: Seq<RepoView>, owner: Seq<char>) -> Seq<RepoView>
    decreases sync.len(),
{
    if sync.len() == 0 {
        Seq::empty()
    } else {
        let rest = owned_targets(sync.drop_last(), owner);
        if sync.last().owner == owner {
            rest.push(sync.last())
        } else {
            rest
        }
    }
}

/// The workflows of a run limited to one owner: each keeps only that owner's targets, and
/// a workflow left without targets is dropped. Without an owner every workflow with a
/// target is kept as it is.
pub open spec fn restricted(
    workflows: Seq<(Seq<char>, Seq<RepoView>, Seq<char>)>,
    owner: Option<Seq<char>>,
) -> Seq<(Seq<char>, Seq<RepoView>, Seq<char>)>
    decreases workflows.len(),
{
    if workflows.len() == 0 {
        Seq::empty()
    } else {
        let rest = restricted(workflows.drop_last(), owner);
        let (name, sync, contents) = workflows.last();
        let targets = match owner {
            Some(o) => owned_targets(sync, o),
            None => sync,
        };
        if targets.len() == 0 {
            rest
        } else {
            rest.push((name, targets, contents))
        }
    }
}

/// Keep only the targets of `owner` in every workflow, and the workflows left with one.
pub fn restrict_to_owner(workflows: Vec<SyncWorkflow>, owner: Option<&str>) -> (r: Vec<SyncWorkflow>)
    ensures
        workflow_triples(r@) == restricted(workflow_triples(workflows@), match owner {
            Some(o) => Some(o@),
            None => None::<Seq<char>>,
        }),
{
    let ghost all = workflow_triples(workflows@);
    let ghost spec_owner = match owner {
        Some(o) => Some(o@),
        None => None::<Seq<char>>,
    };
    let owner_chars = match owner {
        Some(o) => Some(to_chars(o)),
        None => None,
    };
    let mut workflows = workflows;
    let mut r: Vec<SyncWorkflow> = Vec::new();
    let ghost mut i: int = 0;
    assert(all.skip(0) =~= all);
    assert(all.take(0) =~= Seq::<(Seq<char>, Seq<RepoView>, Seq<char>)>::empty());
    assert(workflow_triples(r@) =~= Seq::<(Seq<char>, Seq<RepoView>, Seq<char>)>::empty());
    while workflows.len() > 0
        invariant
            0 <= i <= all.len(),
            workflow_triples(workflows@) == all.skip(i),
            workflow_triples(r@) == restricted(all.take(i), spec_owner),
            match owner_chars {
                Some(o) => spec_owner == Some(o@),
                None => spec_owner is None,
            },
        decreases workflows.len(),
    {
        let ghost before = workflows@;
        let workflow = workflows.remove(0);
        proof {
            assert(workflow_triples(workflows@) =~= workflow_triples(before).drop_first());
            assert(all.skip(i).drop_first() =~= all.skip(i + 1));
            assert(all.take(i + 1).drop_last() =~= all.take(i));
            assert(all.take(i + 1).last() == (workflow.file_name@, repo_views(workflow.sync@), workflow.contents@)) by {
                assert(all.skip(i)[0] == all[i]);
                assert(workflow_triples(before)[0] == (before[0].file_name@, repo_views(before[0].sync@), before[0].contents@));
            }
        }
        let SyncWorkflow { file_name, sync, contents } = workflow;
        let ghost sync_view = repo_views(sync@);
        let targets = match &owner_chars {
            Some(o) => {
                let mut sync = sync;
                let mut kept: Vec<Repo> = Vec::new();
                let ghost mut k: int = 0;
                assert(sync_view.skip(0) =~= sync_view);
                assert(sync_view.take(0) =~= Seq::<RepoView>::empty());
                assert(repo_views(kept@) =~= Seq::<RepoView>::empty());
                while sync.len() > 0
                    invariant
                        0 <= k <= sync_view.len(),
                        repo_views(sync@) == sync_view.skip(k),
                        repo_views(kept@) == owned_targets(sync_view.take(k), o@),
                    decreases sync.len(),
                {
                    let ghost sb = sync@;
                    let repo = sync.remove(0);
                    proof {
                        assert(repo_views(sync@) =~= repo_views(sb).drop_first());
                        assert(sync_view.skip(k).drop_first() =~= sync_view.skip(k + 1));
                        assert(sync_view.take(k + 1).drop_last() =~= sync_view.take(k));
                        assert(sync_view.take(k + 1).last() == repo@) by {
                            assert(sync_view.skip(k)[0] == sync_view[k]);
                            assert(repo_views(sb)[0] == sb[0]@);
                        }
                    }
                    let repo_owner = to_chars(repo.owner.as_str());
                    let ghost kb = kept@;
                    if chars_eq(&repo_owner, o) {
                        kept.push(repo);
                        assert(repo_views(kept@) =~= repo_views(kb).push(sb[0]@));
                    }
                    proof {
                        k = k + 1;
                    }
                }
                assert(sync_view.take(k) =~= sync_view);
                kept
            },
            None => sync,
        };
        let ghost rb = r@;
        if targets.len() > 0 {
            let ghost tv = repo_views(targets@);
            r.push(SyncWorkflow { file_name, sync: targets, contents });
            assert(workflow_triples(r@) =~= workflow_triples(rb).push((r@.last().file_name@, tv, r@.last().contents@)));
        }
        proof {
            i = i + 1;
        }
    }
    assert(all.take(i) =~= all);
    r
}


/// The targets of one owner are exactly those of `sync` with that owner.
pub proof fn lemma_owned_targets(sync: Seq<RepoView>, owner: Seq<char>, r: RepoView)
    ensures
        owned_targets(sync, owner).contains(r) <==> sync.contains(r) && r.owner == owner,
    decreases sync.len(),
{
    if sync.len() > 0 {
        let init = sync.drop_last();
        lemma_owned_targets(init, owner, r);
        let rest = owned_targets(init, owner);
        if owned_targets(sync, owner).contains(r) {
            let k = choose|k: int| 0 <= k < owned_targets(sync, owner).len() && owned_targets(sync, owner)[k] == r;
            if k < rest.len() {
                assert(rest[k] == r);
                let m = choose|m: int| 0 <= m < init.len() && init[m] == r;
                assert(sync[m] == r);
            } else {
                assert(sync[sync.len() - 1] == r);
            }
        }
        if sync.contains(r) && r.owner == owner {
            let m = choose|m: int| 0 <= m < sync.len() && sync[m] == r;
            if m < sync.len() - 1 {
                assert(init[m] == r);
                let k = choose|k: int| 0 <= k < rest.len() && rest[k] == r;
                assert(owned_targets(sync, owner)[k] == r);
            } else {
                let o = owned_targets(sync, owner);
                assert(o[o.len() - 1] == r);
            }
        }
    }
}

/// A run limited to one owner only writes to that owner's repositories: every workflow
/// left keeps at least one target, all of the owner, and keeps each of the owner's
/// targets it had. Without an owner, the workflows with a target are kept unchanged.
pub proof fn lemma_restricted(
    workflows: Seq<(Seq<char>, Seq<RepoView>, Seq<char>)>,
    owner: Option<Seq<char>>,
)
    ensures
        forall|i: int| 0 <= i < restricted(workflows, owner).len() ==> (#[trigger] restricted(workflows, owner)[i]).1.len() > 0,
        forall|i: int, r: RepoView| 0 <= i < restricted(workflows, owner).len() && owner is Some
            && #[trigger] restricted(workflows, owner)[i].1.contains(r) ==> r.owner == owner->0,
        owner is None ==> forall|i: int| 0 <= i < restricted(workflows, owner).len() ==> exists|j: int|
            0 <= j < workflows.len() && #[trigger] restricted(workflows, owner)[i] == workflows[j],
        restricted(workflows, owner).len() <= workflows.len(),
    decreases workflows.len(),
{
    if workflows.len() > 0 {
        let init = workflows.drop_last();
        lemma_restricted(init, owner);
        let rest = restricted(init, owner);
        let all = restricted(workflows, owner);
        let (name, sync, contents) = workflows.last();
        assert forall|i: int| 0 <= i < all.len() implies (#[trigger] all[i]).1.len() > 0 by {
            if i < rest.len() {
                assert(all[i] == rest[i]);
            }
        }
        assert forall|i: int, r: RepoView| 0 <= i < all.len() && owner is Some
            && #[trigger] all[i].1.contains(r) implies r.owner == owner->0 by {
            if i < rest.len() {
                assert(all[i] == rest[i]);
            } else {
                lemma_owned_targets(sync, owner->0, r);
            }
        }
        if owner is None {
            assert forall|i: int| 0 <= i < all.len() implies exists|j: int|
                0 <= j < workflows.len() && #[trigger] all[i] == workflows[j] by {
                if i < rest.len() {
                    assert(all[i] == rest[i]);
                    let j = choose|j: int| 0 <= j < init.len() && #[trigger] rest[i] == init[j];
                    assert(workflows[j] == init[j]);
                } else {
                    assert(all[i] == workflows[workflows.len() - 1]);
                }
            }
        }
    }
}

/// The targets of a workflow are the repositories of its lines that parse as sync headers,
/// one per such line, in line order.
pub proof fn lemma_header_targets_filter(ls: Seq<Seq<char>>)
    ensures
        header_targets(ls) == ls.filter(|l: Seq<char>| spec_parse_sync_entry(l) is Some).map_values(
            |l: Seq<char>| spec_parse_sync_entry(l)->0,
        ),
    decreases ls.len(),
{
    reveal(Seq::filter);
    if ls.len() > 0 {
        lemma_header_targets_filter(ls.drop_last());
        let f = |l: Seq<char>| spec_parse_sync_entry(l)->0;
        let p = |l: Seq<char>| spec_parse_sync_entry(l) is Some;
        let g = ls.drop_last().filter(p);
        if p(ls.last()) {
            assert(g.push(ls.last()).map_values(f) =~= g.map_values(f).push(f(ls.last())));
        }
    } else {
        assert(ls.filter(|l: Seq<char>| spec_parse_sync_entry(l) is Some).map_values(
            |l: Seq<char>| spec_parse_sync_entry(l)->0,
        ) =~= Seq::<RepoView>::empty());
    }
}

/// The scanned entries are the regular files whose extension is `yaml` or `yml`, with their
/// names and texts, in listing order; every other entry is skipped.
pub proof fn lemma_workflow_entries_filter(entries: Seq<(Seq<char>, bool, Seq<char>)>)
    ensures
        workflow_entries(entries) == entries.filter(
            |e: (Seq<char>, bool, Seq<char>)|
                e.1 && (extension(e.0) == Some(seq!['y', 'a', 'm', 'l']) || extension(e.0) == Some(
                    seq!['y', 'm', 'l'],
                )),
        ).map_values(|e: (Seq<char>, bool, Seq<char>)| (e.0, e.2)),
    decreases entries.len(),
{
    reveal(Seq::filter);
    let p = |e: (Seq<char>, bool, Seq<char>)|
        e.1 && (extension(e.0) == Some(seq!['y', 'a', 'm', 'l']) || extension(e.0) == Some(
            seq!['y', 'm', 'l'],
        ));
    let f = |e: (Seq<char>, bool, Seq<char>)| (e.0, e.2);
    if entries.len() > 0 {
        lemma_workflow_entries_filter(entries.drop_last());
        let g = entries.drop_last().filter(p);
        if p(entries.last()) {
            assert(g.push(entries.last()).map_values(f) =~= g.map_values(f).push(f(entries.last())));
        }
    } else {
        assert(entries.filter(p).map_values(f) =~= Seq::<(Seq<char>, Seq<char>)>::empty());
    }
}

/// Scanning parses every file, in order, and keeps exactly the workflows with at least one
/// target: none is dropped that has a target, and none is kept without one.
pub proof fn lemma_scanned_filter(files: Seq<(Seq<char>, Seq<char>)>)
    ensures
        scanned(files) == files.map_values(
            |f: (Seq<char>, Seq<char>)|
                (f.0, header_targets(lines(f.1)), synced_contents(f.0, f.1)),
        ).filter(|w: (Seq<char>, Seq<RepoView>, Seq<char>)| w.1.len() > 0),
    decreases files.len(),
{
    reveal(Seq::filter);
    let f = |f: (Seq<char>, Seq<char>)|
        (f.0, header_targets(lines(f.1)), synced_contents(f.0, f.1));
    if files.len() > 0 {
        lemma_scanned_filter(files.drop_last());
        assert(files.drop_last().map_values(f) =~= files.map_values(f).drop_last());
        assert(files.map_values(f).last() == f(files.last()));
    } else {
        assert(files.map_values(f) =~= Seq::<(Seq<char>, Seq<RepoView>, Seq<char>)>::empty());
    }
}

/// The kept lines are the lines that are not sync headers, each exactly as it stands, in
/// their order.
pub proof fn lemma_non_header_lines_filter(ls: Seq<Seq<char>>)
    ensures
        non_header_lines(ls) == ls.filter(|l: Seq<char>| spec_parse_sync_entry(l) is None),
    decreases ls.len(),
{
    reveal(Seq::filter);
    if ls.len() > 0 {
        lemma_non_header_lines_filter(ls.drop_last());
    }
}

/// The text a target receives (after the marker) is the source's lines that are not sync
/// headers, unchanged, joined by `'\n'`, and trimmed only at its two ends.
pub proof fn lemma_body_keeps_lines(contents: Seq<char>)
    ensures
        body_without_headers(contents) == trim(
            join(
                lines(contents).filter(|l: Seq<char>| spec_parse_sync_entry(l) is None),
                seq!['\n'],
            ),
        ),
{
    lemma_non_header_lines_filter(lines(contents));
}

/// A text without sync headers and without `"\r\n"` that does not end with a line break
/// reaches its targets as it stands, only trimmed at its two ends: indentation and every
/// line inside are kept.
pub proof fn lemma_body_without_headers_is_text(contents: Seq<char>)
    requires
        forall|i: int|
            0 <= i < lines(contents).len() ==> spec_parse_sync_entry(#[trigger] lines(contents)[i])
                is None,
        no_crlf(contents),
        !ends_with(contents, seq!['\n']),
    ensures
        body_without_headers(contents) == trim(contents),
{
    let ls = lines(contents);
    lemma_no_headers_kept(ls);
    crate::text::lemma_lines_join_roundtrip(contents);
    assert(join(ls, seq!['\n']) + Seq::<char>::empty() =~= join(ls, seq!['\n']));
}

proof fn lemma_no_headers_kept(ls: Seq<Seq<char>>)
    requires
        forall|i: int| 0 <= i < ls.len() ==> spec_parse_sync_entry(#[trigger] ls[i]) is None,
    ensures
        non_header_lines(ls) == ls,
    decreases ls.len(),
{
    if ls.len() > 0 {
        assert forall|i: int| 0 <= i < ls.drop_last().len() implies spec_parse_sync_entry(
            #[trigger] ls.drop_last()[i],
        ) is None by {
            assert(ls.drop_last()[i] == ls[i]);
        }
        lemma_no_headers_kept(ls.drop_last());
        assert(spec_parse_sync_entry(ls[ls.len() - 1]) is None);
        assert(ls.drop_last().push(ls.last()) =~= ls);
    } else {
        assert(ls =~= Seq::<Seq<char>>::empty());
    }
}

/// The targets of one owner are the targets of `sync` whose owner it is, all of them, in
/// their order.
pub proof fn lemma_owned_targets_filter(sync: Seq<RepoView>, owner: Seq<char>)
    ensures
        owned_targets(sync, owner) == sync.filter(|r: RepoView| r.owner == owner),
    decreases sync.len(),
{
    reveal(Seq::filter);
    if sync.len() > 0 {
        lemma_owned_targets_filter(sync.drop_last(), owner);
    }
}

/// Limiting a run to an owner keeps, of every workflow in order, exactly the targets of
/// that owner in their order, with name and text unchanged, and drops the workflows left
/// without a target; without an owner it drops only the workflows without a target.
pub proof fn lemma_restricted_filter(
    workflows: Seq<(Seq<char>, Seq<RepoView>, Seq<char>)>,
    owner: Option<Seq<char>>,
)
    ensures
        restricted(workflows, owner) == workflows.map_values(
            |w: (Seq<char>, Seq<RepoView>, Seq<char>)|
                (
                    w.0,
                    match owner {
                        Some(o) => w.1.filter(|r: RepoView| r.owner == o),
                        None => w.1,
                    },
                    w.2,
                ),
        ).filter(|w: (Seq<char>, Seq<RepoView>, Seq<char>)| w.1.len() > 0),
    decreases workflows.len(),
{
    reveal(Seq::filter);
    let f = |w: (Seq<char>, Seq<RepoView>, Seq<char>)|
        (
            w.0,
            match owner {
                Some(o) => w.1.filter(|r: RepoView| r.owner == o),
                None => w.1,
            },
            w.2,
        );
    if workflows.len() > 0 {
        lemma_restricted_filter(workflows.drop_last(), owner);
        assert(workflows.drop_last().map_values(f) =~= workflows.map_values(f).drop_last());
        let (name, sync, contents) = workflows.last();
        if let Some(o) = owner {
            lemma_owned_targets_filter(sync, o);
        }
        assert(workflows.map_values(f).last() == f(workflows.last()));
    } else {
        assert(workflows.map_values(f) =~= Seq::<(Seq<char>, Seq<RepoView>, Seq<char>)>::empty());
    }
}

/// Every line of a workflow is either a sync header, whose target is taken, or a kept line:
/// no kept line is a header, the counts add up, and every target is a safe repository.
pub proof fn lemma_headers_partition_lines(ls: Seq<Seq<char>>)
    ensures
        header_targets(ls).len() + non_header_lines(ls).len() == ls.len(),
        forall|i: int|
            0 <= i < non_header_lines(ls).len() ==> spec_parse_sync_entry(
                #[trigger] non_header_lines(ls)[i],
            ) is None,
        forall|i: int|
            0 <= i < header_targets(ls).len() ==> is_safe_component(
                (#[trigger] header_targets(ls)[i]).owner,
            ) && is_safe_component(header_targets(ls)[i].repository),
    decreases ls.len(),
{
    if ls.len() > 0 {
        lemma_headers_partition_lines(ls.drop_last());
        let rest_h = header_targets(ls.drop_last());
        let rest_n = non_header_lines(ls.drop_last());
        match spec_parse_sync_entry(ls.last()) {
            Some(r) => {
                let l = ls.last();
                crate::shared::lemma_parsed_repo_is_safe(l.skip(crate::sync_entry::PREFIX@.len() as int));
                assert forall|i: int| 0 <= i < header_targets(ls).len() implies is_safe_component(
                    (#[trigger] header_targets(ls)[i]).owner,
                ) && is_safe_component(header_targets(ls)[i].repository) by {
                    if i < rest_h.len() {
                        assert(header_targets(ls)[i] == rest_h[i]);
                    }
                }
            },
            None => {
                assert forall|i: int| 0 <= i < non_header_lines(ls).len() implies spec_parse_sync_entry(
                    #[trigger] non_header_lines(ls)[i],
                ) is None by {
                    if i < rest_n.len() {
                        assert(non_header_lines(ls)[i] == rest_n[i]);
                    }
                }
            },
        }
    }
}

/// A workflow with at least one target reaches its targets marked: its text starts with
/// the marker and the source file name on a line of their own.
pub proof fn lemma_synced_contents_marked(file_name: Seq<char>, contents: Seq<char>)
    ensures
        header_targets(lines(contents)).len() > 0 ==> starts_with(
            synced_contents(file_name, contents),
            MARKER_PREFIX@ + file_name + seq!['\n'],
        ) && starts_with(synced_contents(file_name, contents), MARKER_PREFIX@),
{
    if header_targets(lines(contents)).len() > 0 {
        let head = MARKER_PREFIX@ + file_name + seq!['\n'];
        let t = synced_contents(file_name, contents);
        assert(t.take(head.len() as int) =~= head);
        assert(t.take(MARKER_PREFIX@.len() as int) =~= MARKER_PREFIX@);
    }
}

} // verus!
