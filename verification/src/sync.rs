//! Target checkouts: which repositories are written, which synced files are orphans, and
//! the order and addresses the checkout phase uses.
use vstd::prelude::*;

use crate::order::{seq_views, sort_by, sort_by_key, chars_le, lemma_chars_le_antisym, lemma_chars_le_total, lemma_chars_le_trans, str_le, SortKey};
use crate::scan::MARKER_PREFIX;
use crate::shared::{
    repo_views, unique_repos, unique_repositories, workflow_views, Repo, RepoView,
    SyncWorkflow, SyncWorkflowView,
};
use crate::text::{
    chars_eq, from_chars, push_str, slice_chars, starts_with, starts_with_chars, to_chars,
};

verus! {

/// The sync targets of all workflows, in workflow order.
pub open spec fn all_targets(workflows: Seq<SyncWorkflowView>) -> Seq<RepoView>
    decreases workflows.len(),
{
    if workflows.len() == 0 {
        Seq::empty()
    } else {
        all_targets(workflows.drop_last()) + workflows.last().sync
    }
}

/// Collect every repository targeted by a workflow sync, each once, in order of first
/// appearance.
pub fn target_repositories(workflows: &[SyncWorkflow]) -> (r: Vec<Repo>)
    ensures
        repo_views(r@) == unique_repos(all_targets(workflow_views(workflows@))),
{
    let ghost ws = workflow_views(workflows@);
    let mut all: Vec<Repo> = Vec::new();
    let mut i: usize = 0;
    assert(ws.take(0) =~= Seq::<SyncWorkflowView>::empty());
    assert(repo_views(all@) =~= Seq::<RepoView>::empty());
    while i < workflows.len()
        invariant
            i <= workflows.len(),
            ws == workflow_views(workflows@),
            repo_views(all@) == all_targets(ws.take(i as int)),
        decreases workflows.len() - i,
    {
        assert(ws.take(i + 1).drop_last() =~= ws.take(i as int));
        assert(ws.take(i + 1).last() == workflows@[i as int]@);
        let sync = &workflows[i].sync;
        let ghost base = all@;
        let mut j: usize = 0;
        while j < sync.len()
            invariant
                j <= sync.len(),
                repo_views(all@) == repo_views(base) + repo_views(sync@).take(j as int),
            decreases sync.len() - j,
        {
            let ghost before = all@;
            let c = sync[j].clone();
            assert(c@ == sync@[j as int]@);
            all.push(c);
            assert(repo_views(all@) =~= repo_views(before).push(sync@[j as int]@));
            assert(repo_views(all@) =~= repo_views(base) + repo_views(sync@).take(j + 1));
            j = j + 1;
        }
        assert(repo_views(sync@).take(sync.len() as int) =~= repo_views(sync@));
        i = i + 1;
    }
    assert(ws.take(workflows.len() as int) =~= ws);
    unique_repositories(all)
}

/// A repository is a target exactly when some workflow syncs to it, and it is listed once.
pub proof fn lemma_target_repositories(workflows: Seq<SyncWorkflowView>, repository: RepoView)
    ensures
        unique_repos(all_targets(workflows)).contains(repository) <==> exists|i: int|
            0 <= i < workflows.len() && (#[trigger] workflows[i]).sync.contains(repository),
        forall|i: int, j: int|
            #![trigger unique_repos(all_targets(workflows))[i], unique_repos(all_targets(workflows))[j]]
            0 <= i < j < unique_repos(all_targets(workflows)).len() ==> unique_repos(
                all_targets(workflows),
            )[i] != unique_repos(all_targets(workflows))[j],
    decreases workflows.len(),
{
    crate::shared::lemma_unique_repos(all_targets(workflows));
    lemma_all_targets(workflows, repository);
}

proof fn lemma_all_targets(workflows: Seq<SyncWorkflowView>, repository: RepoView)
    ensures
        all_targets(workflows).contains(repository) <==> exists|i: int|
            0 <= i < workflows.len() && (#[trigger] workflows[i]).sync.contains(repository),
    decreases workflows.len(),
{
    if workflows.len() > 0 {
        let init = workflows.drop_last();
        lemma_all_targets(init, repository);
        let a = all_targets(init);
        let l = workflows.last().sync;
        if all_targets(workflows).contains(repository) {
            let k = choose|k: int| 0 <= k < (a + l).len() && (a + l)[k] == repository;
            if k < a.len() {
                assert(a[k] == repository);
                assert(a.contains(repository));
                let i = choose|i: int| 0 <= i < init.len() && (#[trigger] init[i]).sync.contains(repository);
                assert(workflows[i] == init[i]);
            } else {
                assert(l[k - a.len()] == repository);
                assert(workflows[workflows.len() - 1].sync.contains(repository));
            }
        }
        if exists|i: int| 0 <= i < workflows.len() && (#[trigger] workflows[i]).sync.contains(repository) {
            let i = choose|i: int| 0 <= i < workflows.len() && (#[trigger] workflows[i]).sync.contains(repository);
            if i < workflows.len() - 1 {
                assert(init[i] == workflows[i]);
                assert(a.contains(repository));
                let k = choose|k: int| 0 <= k < a.len() && a[k] == repository;
                assert((a + l)[k] == repository);
            } else {
                let k = choose|k: int| 0 <= k < l.len() && l[k] == repository;
                assert((a + l)[a.len() + k] == repository);
            }
        }
    }
}

/// Whether orphans are removed at all: only when there are source workflows. Without them
/// a run cannot tell "retired" from "never scanned", and removing every marked file would
/// wipe each target's synced workflows.
pub fn sweeps_orphans(workflows: &[SyncWorkflow]) -> (r: bool)
    ensures
        r == (workflows@.len() > 0),
{
    workflows.len() > 0
}

/// Whether a file name is among the expected names.
pub fn is_expected(name: &str, expected: &[String]) -> (r: bool)
    ensures
        r == seq_views(expected@).contains(name@),
{
    let chars = to_chars(name);
    let mut i: usize = 0;
    while i < expected.len()
        invariant
            i <= expected.len(),
            chars@ == name@,
            forall|j: int| 0 <= j < i ==> (#[trigger] expected@[j])@ != name@,
        decreases expected.len() - i,
    {
        let e = to_chars(expected[i].as_str());
        if chars_eq(&e, &chars) {
            assert(seq_views(expected@)[i as int] == name@);
            return true;
        }
        i = i + 1;
    }
    proof {
        if seq_views(expected@).contains(name@) {
            let k = choose|k: int| 0 <= k < expected@.len() && #[trigger] seq_views(expected@)[k] == name@;
            assert(expected@[k]@ == name@);
        }
    }
    false
}

/// Whether a file holds a workflow this tool generated: it starts with the marker.
pub fn is_generated(contents: &str) -> (r: bool)
    ensures
        r == starts_with(contents@, MARKER_PREFIX@),
{
    let chars = to_chars(contents);
    let marker = to_chars(MARKER_PREFIX);
    starts_with_chars(&chars, &marker)
}

/// Whether a file of a target's workflow directory is an orphan: a regular file whose name
/// the source no longer writes there, and which this tool generated. Files a target owns
/// itself carry no marker and are never orphans.
pub open spec fn is_orphan(name: Seq<char>, is_file: bool, contents: Seq<char>, expected: Seq<Seq<char>>) -> bool {
    &&& !expected.contains(name)
    &&& is_file
    &&& starts_with(contents, MARKER_PREFIX@)
}

/// Whether a target file is an orphan.
pub fn orphan(name: &str, is_file: bool, contents: &str, expected: &[String]) -> (r: bool)
    ensures
        r == is_orphan(name@, is_file, contents@, seq_views(expected@)),
{
    !is_expected(name, expected) && is_file && is_generated(contents)
}


/// Repositories in owner order, then name order.
pub open spec fn repo_le(a: RepoView, b: RepoView) -> bool {
    if a.owner == b.owner {
        chars_le(a.repository, b.repository)
    } else {
        chars_le(a.owner, b.owner)
    }
}

impl SortKey for Repo {
    open spec fn view_le(a: RepoView, b: RepoView) -> bool {
        repo_le(a, b)
    }

    proof fn lemma_view_le_total(a: RepoView, b: RepoView) {
        lemma_chars_le_total(a.owner, b.owner);
        lemma_chars_le_total(a.repository, b.repository);
    }

    proof fn lemma_view_le_trans(a: RepoView, b: RepoView, c: RepoView) {
        if a.owner == b.owner && b.owner == c.owner {
            lemma_chars_le_trans(a.repository, b.repository, c.repository);
        } else if a.owner != b.owner && b.owner != c.owner {
            lemma_chars_le_trans(a.owner, b.owner, c.owner);
            if a.owner == c.owner {
                lemma_chars_le_antisym(a.owner, b.owner);
            }
        }
    }

    fn le(&self, other: &Self) -> (r: bool) {
        if self.owner == other.owner {
            str_le(self.repository.as_str(), other.repository.as_str())
        } else {
            str_le(self.owner.as_str(), other.owner.as_str())
        }
    }
}

/// The repositories in the order the pull request phase visits them: by owner, then by
/// name.
pub fn sort_repositories(repositories: Vec<Repo>) -> (r: Vec<Repo>)
    ensures
        seq_views(r@) == sort_by_key::<Repo>(seq_views(repositories@)),
{
    sort_by(repositories)
}

/// The address a target repository is cloned from.
pub fn clone_url(repository: &Repo) -> (r: String)
    ensures
        r@ == "https://github.com/"@ + repository@.owner + seq!['/'] + repository@.repository
            + ".git"@,
{
    let mut out = to_chars("https://github.com/");
    push_str(&mut out, repository.owner.as_str());
    out.push('/');
    push_str(&mut out, repository.repository.as_str());
    push_str(&mut out, ".git");
    from_chars(&out)
}

/// The branch name in a remote's default reference, which has the form
/// `refs/heads/<branch>`; anything else has no branch name.
pub fn default_branch_name(reference: &str) -> (r: Option<String>)
    ensures
        match r {
            Some(b) => starts_with(reference@, "refs/heads/"@) && b@ == reference@.skip(
                "refs/heads/"@.len() as int,
            ),
            None => !starts_with(reference@, "refs/heads/"@),
        },
{
    let chars = to_chars(reference);
    let prefix = to_chars("refs/heads/");
    if starts_with_chars(&chars, &prefix) {
        let rest = slice_chars(&chars, prefix.len(), chars.len());
        assert(rest@ =~= chars@.skip(prefix@.len() as int));
        Some(from_chars(&rest))
    } else {
        None
    }
}

} // verus!
