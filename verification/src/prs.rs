//! Pull requests: their text, the summary of a run, and the changes they commit.
use vstd::prelude::*;

use base64::Engine;

use crate::order::{chars_le, seq_views, sort_by, sort_by_key, str_le, SortKey};
use crate::shared::{repo_name, Repo, RepoView};
use crate::order::{dedup, dedup_strings, lemma_dedup_sorted, lemma_sort_by_key};
use crate::text::{
    append_chars, chars_eq, decimal, extension, has_extension, slice_chars, starts_with,
    starts_with_chars, decimal_chars, from_chars, join, join_chars, push_str, to_chars,
    views,
};

verus! {

/// The label every pull request of this tool carries.
pub const LABEL: &'static str = "apix-action";

/// The title of every pull request, and the message of its commit.
pub const TITLE: &'static str = "ci: apix-action updates";

/// A pull request this tool opened.
#[derive(Debug, PartialEq, Eq)]
pub struct CreatedPullRequest {
    pub repository: String,
    pub url: String,
    pub files: Vec<String>,
}

/// A created pull request as plain values.
pub struct CreatedPullRequestView {
    pub repository: Seq<char>,
    pub url: Seq<char>,
    pub files: Seq<Seq<char>>,
}

impl View for CreatedPullRequest {
    type V = CreatedPullRequestView;

    open spec fn view(&self) -> CreatedPullRequestView {
        CreatedPullRequestView {
            repository: self.repository@,
            url: self.url@,
            files: self.files@.map_values(|f: String| f@),
        }
    }
}

impl SortKey for CreatedPullRequest {
    open spec fn view_le(a: CreatedPullRequestView, b: CreatedPullRequestView) -> bool {
        chars_le(a.repository, b.repository)
    }

    proof fn lemma_view_le_total(a: CreatedPullRequestView, b: CreatedPullRequestView) {
        crate::order::lemma_chars_le_total(a.repository, b.repository);
    }

    proof fn lemma_view_le_trans(
        a: CreatedPullRequestView,
        b: CreatedPullRequestView,
        c: CreatedPullRequestView,
    ) {
        crate::order::lemma_chars_le_trans(a.repository, b.repository, c.repository);
    }

    fn le(&self, other: &Self) -> (r: bool) {
        str_le(self.repository.as_str(), other.repository.as_str())
    }
}

/// Each string wrapped as `- \`name\``, one per line.
pub open spec fn action_items(actions: Seq<Seq<char>>) -> Seq<Seq<char>> {
    actions.map_values(|a: Seq<char>| "- `"@ + a + "`"@)
}

/// The text that opens every pull request description.
pub open spec fn description_intro() -> Seq<char> {
    "## 🤖 Automated sync\n\nThis pull request was autogenerated to sync this repository from `api-actions`.\n\n## Actions changed\n\n"@
}

/// Items `prefix + s + suffix` for each `s`.
fn wrap_each(items: &[String], prefix: &str, suffix: &str) -> (r: Vec<Vec<char>>)
    ensures
        views(r@) == items@.map_values(|s: String| s@).map_values(
            |a: Seq<char>| prefix@ + a + suffix@,
        ),
{
    let mut r: Vec<Vec<char>> = Vec::new();
    let mut i: usize = 0;
    while i < items.len()
        invariant
            i <= items.len(),
            views(r@) == items@.map_values(|s: String| s@).map_values(
                |a: Seq<char>| prefix@ + a + suffix@,
            ).take(i as int),
        decreases items.len() - i,
    {
        let mut item = to_chars(prefix);
        push_str(&mut item, items[i].as_str());
        push_str(&mut item, suffix);
        let ghost before = r@;
        assert(item@ == prefix@ + items@[i as int]@ + suffix@);
        r.push(item);
        assert(views(r@) =~= views(before).push(prefix@ + items@[i as int]@ + suffix@));
        assert(views(r@) =~= items@.map_values(|s: String| s@).map_values(
            |a: Seq<char>| prefix@ + a + suffix@,
        ).take(i + 1));
        i = i + 1;
    }
    assert(items@.map_values(|s: String| s@).map_values(|a: Seq<char>| prefix@ + a + suffix@).take(
        items.len() as int,
    ) =~= items@.map_values(|s: String| s@).map_values(|a: Seq<char>| prefix@ + a + suffix@));
    r
}

/// Build the Markdown body listing workflows changed for one repository.
pub fn description(actions: &[String]) -> (r: String)
    ensures
        r@ == description_intro() + join(
            action_items(actions@.map_values(|a: String| a@)),
            seq!['\n'],
        ),
{
    let items = wrap_each(actions, "- `", "`");
    let newline = vec!['\n'];
    assert(newline@ =~= seq!['\n']);
    let list = join_chars(&items, &newline);
    let mut out = to_chars(
        "## 🤖 Automated sync\n\nThis pull request was autogenerated to sync this repository from `api-actions`.\n\n## Actions changed\n\n",
    );
    append_chars(&mut out, &list);
    from_chars(&out)
}

/// The files of a pull request, each in backticks, separated by `, `.
pub open spec fn file_list(files: Seq<Seq<char>>) -> Seq<char> {
    join(files.map_values(|f: Seq<char>| "`"@ + f + "`"@), ", "@)
}

/// The summary line of one pull request: a link named after the repository, then the
/// changed files where there are any.
pub open spec fn summary_line(pr: CreatedPullRequestView) -> Seq<char> {
    "- [`"@ + pr.repository + "`]("@ + pr.url + ")"@ + (if pr.files.len() == 0 {
        Seq::empty()
    } else {
        ": "@ + file_list(pr.files)
    }) + "\n"@
}

/// The summary lines of `prs`, in order.
pub open spec fn summary_lines(prs: Seq<CreatedPullRequestView>) -> Seq<char>
    decreases prs.len(),
{
    if prs.len() == 0 {
        Seq::empty()
    } else {
        summary_lines(prs.drop_last()) + summary_line(prs.last())
    }
}

/// The Markdown summary of created pull requests: a heading, then one line per pull
/// request in repository order, or a note that there were none.
pub open spec fn spec_summary(prs: Seq<CreatedPullRequestView>) -> Seq<char> {
    "## Created pull requests\n\n"@ + if prs.len() == 0 {
        "No pull requests were created.\n"@
    } else {
        summary_lines(sort_by_key::<CreatedPullRequest>(prs))
    }
}

/// The summary line of one pull request.
fn render_line(pr: &CreatedPullRequest) -> (r: Vec<char>)
    ensures
        r@ == summary_line(pr@),
{
    let mut out = to_chars("- [`");
    push_str(&mut out, pr.repository.as_str());
    push_str(&mut out, "`](");
    push_str(&mut out, pr.url.as_str());
    push_str(&mut out, ")");
    if pr.files.len() > 0 {
        let items = wrap_each(pr.files.as_slice(), "`", "`");
        let sep = to_chars(", ");
        let list = join_chars(&items, &sep);
        push_str(&mut out, ": ");
        append_chars(&mut out, &list);
    }
    push_str(&mut out, "\n");
    out
}

/// Render created pull requests as one Markdown summary.
pub fn render_summary(pull_requests: Vec<CreatedPullRequest>) -> (r: String)
    ensures
        r@ == spec_summary(seq_views(pull_requests@)),
{
    let mut out = to_chars("## Created pull requests\n\n");
    if pull_requests.len() == 0 {
        push_str(&mut out, "No pull requests were created.\n");
        return from_chars(&out);
    }
    let sorted = sort_by(pull_requests);
    let ghost head = out@;
    let mut i: usize = 0;
    while i < sorted.len()
        invariant
            i <= sorted.len(),
            out@ == head + summary_lines(seq_views(sorted@).take(i as int)),
        decreases sorted.len() - i,
    {
        let line = render_line(&sorted[i]);
        append_chars(&mut out, &line);
        let ghost vs = seq_views(sorted@);
        assert(vs.take(i + 1).drop_last() =~= vs.take(i as int));
        assert(vs.take(i + 1).last() == sorted@[i as int]@);
        assert(out@ =~= head + summary_lines(vs.take(i + 1)));
        i = i + 1;
    }
    assert(seq_views(sorted@).take(sorted.len() as int) =~= seq_views(sorted@));
    from_chars(&out)
}


/// The names with extension `json`.
pub open spec fn json_names(names: Seq<Seq<char>>) -> Seq<Seq<char>>
    decreases names.len(),
{
    if names.len() == 0 {
        Seq::empty()
    } else {
        let rest = json_names(names.drop_last());
        if extension(names.last()) == Some(seq!['j', 's', 'o', 'n']) {
            rest.push(names.last())
        } else {
            rest
        }
    }
}

/// Of the entries of the summary directory, the result files to read, in name order: those
/// whose extension is `json`.
pub fn summary_files(names: Vec<String>) -> (r: Vec<String>)
    ensures
        seq_views(r@) == sort_by_key::<String>(json_names(seq_views(names@))),
{
    let json = vec!['j', 's', 'o', 'n'];
    assert(json@ =~= seq!['j', 's', 'o', 'n']);
    let ghost all = seq_views(names@);
    let mut names = names;
    let mut kept: Vec<String> = Vec::new();
    let ghost mut i: int = 0;
    assert(all.skip(0) =~= all);
    assert(all.take(0) =~= Seq::<Seq<char>>::empty());
    assert(seq_views(kept@) =~= Seq::<Seq<char>>::empty());
    while names.len() > 0
        invariant
            0 <= i <= all.len(),
            json@ == seq!['j', 's', 'o', 'n'],
            seq_views(names@) == all.skip(i),
            seq_views(kept@) == json_names(all.take(i)),
        decreases names.len(),
    {
        let ghost before = names@;
        let name = names.remove(0);
        proof {
            assert(seq_views(names@) =~= seq_views(before).drop_first());
            assert(all.skip(i).drop_first() =~= all.skip(i + 1));
            assert(all.take(i + 1).drop_last() =~= all.take(i));
            assert(all.take(i + 1).last() == name@) by {
                assert(all.skip(i)[0] == all[i]);
                assert(seq_views(before)[0] == before[0]@);
            }
        }
        let chars = to_chars(name.as_str());
        let ghost kept_before = kept@;
        if has_extension(&chars, &json) {
            kept.push(name);
            assert(seq_views(kept@) =~= seq_views(kept_before).push(name@));
        }
        proof {
            i = i + 1;
        }
    }
    assert(all.take(i) =~= all);
    sort_by(kept)
}

/// A result file of the summary directory: its name and the pull requests it lists.
pub struct ResultFile {
    pub name: String,
    pub pull_requests: Vec<CreatedPullRequest>,
}

impl View for ResultFile {
    type V = (Seq<char>, Seq<CreatedPullRequestView>);

    open spec fn view(&self) -> (Seq<char>, Seq<CreatedPullRequestView>) {
        (self.name@, seq_views(self.pull_requests@))
    }
}

impl SortKey for ResultFile {
    open spec fn view_le(
        a: (Seq<char>, Seq<CreatedPullRequestView>),
        b: (Seq<char>, Seq<CreatedPullRequestView>),
    ) -> bool {
        chars_le(a.0, b.0)
    }

    proof fn lemma_view_le_total(
        a: (Seq<char>, Seq<CreatedPullRequestView>),
        b: (Seq<char>, Seq<CreatedPullRequestView>),
    ) {
        crate::order::lemma_chars_le_total(a.0, b.0);
    }

    proof fn lemma_view_le_trans(
        a: (Seq<char>, Seq<CreatedPullRequestView>),
        b: (Seq<char>, Seq<CreatedPullRequestView>),
        c: (Seq<char>, Seq<CreatedPullRequestView>),
    ) {
        crate::order::lemma_chars_le_trans(a.0, b.0, c.0);
    }

    fn le(&self, other: &Self) -> (r: bool) {
        str_le(self.name.as_str(), other.name.as_str())
    }
}

/// The result files whose extension is `json`, in order.
pub open spec fn json_results(
    files: Seq<(Seq<char>, Seq<CreatedPullRequestView>)>,
) -> Seq<(Seq<char>, Seq<CreatedPullRequestView>)>
    decreases files.len(),
{
    if files.len() == 0 {
        Seq::empty()
    } else {
        let rest = json_results(files.drop_last());
        if extension(files.last().0) == Some(seq!['j', 's', 'o', 'n']) {
            rest.push(files.last())
        } else {
            rest
        }
    }
}

/// The pull requests of the result files, file after file.
pub open spec fn all_results(
    files: Seq<(Seq<char>, Seq<CreatedPullRequestView>)>,
) -> Seq<CreatedPullRequestView>
    decreases files.len(),
{
    if files.len() == 0 {
        Seq::empty()
    } else {
        all_results(files.drop_last()) + files.last().1
    }
}

/// The summary of a result directory: when it exists, the pull requests of its `json`
/// files, read in name order; a directory that does not exist lists none.
pub open spec fn spec_directory_summary(
    exists: bool,
    files: Seq<(Seq<char>, Seq<CreatedPullRequestView>)>,
) -> Seq<char> {
    if exists {
        spec_summary(all_results(sort_by_key::<ResultFile>(json_results(files))))
    } else {
        spec_summary(Seq::empty())
    }
}

/// Render the summary of a result directory from whether it exists and its entries with
/// the pull requests each lists (entries that are not `json` files are ignored).
pub fn summary_of_results(exists: bool, files: Vec<ResultFile>) -> (r: String)
    ensures
        r@ == spec_directory_summary(exists, seq_views(files@)),
{
    if !exists {
        let none: Vec<CreatedPullRequest> = Vec::new();
        assert(seq_views(none@) =~= Seq::<CreatedPullRequestView>::empty());
        return render_summary(none);
    }
    let json = vec!['j', 's', 'o', 'n'];
    assert(json@ =~= seq!['j', 's', 'o', 'n']);
    let ghost all = seq_views(files@);
    let mut files = files;
    let mut kept: Vec<ResultFile> = Vec::new();
    let ghost mut i: int = 0;
    assert(all.skip(0) =~= all);
    assert(all.take(0) =~= Seq::<(Seq<char>, Seq<CreatedPullRequestView>)>::empty());
    assert(seq_views(kept@) =~= Seq::<(Seq<char>, Seq<CreatedPullRequestView>)>::empty());
    while files.len() > 0
        invariant
            0 <= i <= all.len(),
            json@ == seq!['j', 's', 'o', 'n'],
            seq_views(files@) == all.skip(i),
            seq_views(kept@) == json_results(all.take(i)),
        decreases files.len(),
    {
        let ghost before = files@;
        let file = files.remove(0);
        proof {
            assert(seq_views(files@) =~= seq_views(before).drop_first());
            assert(all.skip(i).drop_first() =~= all.skip(i + 1));
            assert(all.take(i + 1).drop_last() =~= all.take(i));
            assert(all.take(i + 1).last() == file@) by {
                assert(all.skip(i)[0] == all[i]);
                assert(seq_views(before)[0] == before[0]@);
            }
        }
        let chars = to_chars(file.name.as_str());
        let ghost kept_before = kept@;
        if has_extension(&chars, &json) {
            let ghost v = file@;
            kept.push(file);
            assert(seq_views(kept@) =~= seq_views(kept_before).push(v));
        }
        proof {
            i = i + 1;
        }
    }
    assert(all.take(i) =~= all);
    let mut sorted = sort_by(kept);
    let ghost ordered = seq_views(sorted@);
    let mut pull_requests: Vec<CreatedPullRequest> = Vec::new();
    let ghost mut k: int = 0;
    assert(ordered.skip(0) =~= ordered);
    assert(ordered.take(0) =~= Seq::<(Seq<char>, Seq<CreatedPullRequestView>)>::empty());
    assert(seq_views(pull_requests@) =~= Seq::<CreatedPullRequestView>::empty());
    while sorted.len() > 0
        invariant
            0 <= k <= ordered.len(),
            seq_views(sorted@) == ordered.skip(k),
            seq_views(pull_requests@) == all_results(ordered.take(k)),
        decreases sorted.len(),
    {
        let ghost before = sorted@;
        let mut file = sorted.remove(0);
        proof {
            assert(seq_views(sorted@) =~= seq_views(before).drop_first());
            assert(ordered.skip(k).drop_first() =~= ordered.skip(k + 1));
            assert(ordered.take(k + 1).drop_last() =~= ordered.take(k));
            assert(ordered.take(k + 1).last() == file@) by {
                assert(ordered.skip(k)[0] == ordered[k]);
                assert(seq_views(before)[0] == before[0]@);
            }
        }
        let ghost prs_before = pull_requests@;
        let ghost added = file.pull_requests@;
        pull_requests.append(&mut file.pull_requests);
        assert(seq_views(pull_requests@) =~= seq_views(prs_before) + seq_views(added));
        proof {
            k = k + 1;
        }
    }
    assert(ordered.take(k) =~= ordered);
    render_summary(pull_requests)
}

/// The directory whose files the pull request lists.
pub open spec fn workflows_dir_prefix() -> Seq<char> {
    ".github/workflows/"@
}

/// The changed paths under the workflows directory, without that prefix, in order.
pub open spec fn workflow_paths(paths: Seq<Seq<char>>) -> Seq<Seq<char>>
    decreases paths.len(),
{
    if paths.len() == 0 {
        Seq::empty()
    } else {
        let rest = workflow_paths(paths.drop_last());
        if starts_with(paths.last(), workflows_dir_prefix()) {
            rest.push(paths.last().skip(workflows_dir_prefix().len() as int))
        } else {
            rest
        }
    }
}

/// The workflow files a pull request changes: the changed paths of a checkout that lie in
/// `.github/workflows/`, relative to it, sorted and without repeats.
pub open spec fn spec_changed_workflows(paths: Seq<Seq<char>>) -> Seq<Seq<char>> {
    dedup(sort_by_key::<String>(workflow_paths(paths)))
}

/// List the changed workflow files among the changed paths of a checkout.
pub fn changed_workflows(paths: Vec<String>) -> (r: Vec<String>)
    ensures
        seq_views(r@) == spec_changed_workflows(seq_views(paths@)),
{
    let prefix = to_chars(".github/workflows/");
    let mut found: Vec<String> = Vec::new();
    let ghost all = seq_views(paths@);
    let mut i: usize = 0;
    assert(all.take(0) =~= Seq::<Seq<char>>::empty());
    assert(seq_views(found@) =~= Seq::<Seq<char>>::empty());
    while i < paths.len()
        invariant
            i <= paths.len(),
            all == seq_views(paths@),
            prefix@ == workflows_dir_prefix(),
            seq_views(found@) == workflow_paths(all.take(i as int)),
        decreases paths.len() - i,
    {
        let ghost t = all.take(i + 1);
        assert(t.drop_last() =~= all.take(i as int));
        assert(t.last() == paths@[i as int]@);
        let chars = to_chars(paths[i].as_str());
        let ghost before = found@;
        if starts_with_chars(&chars, &prefix) {
            let rest = slice_chars(&chars, prefix.len(), chars.len());
            assert(rest@ =~= chars@.skip(workflows_dir_prefix().len() as int));
            found.push(from_chars(&rest));
            assert(seq_views(found@) =~= seq_views(before).push(rest@));
        }
        i = i + 1;
    }
    assert(all.take(paths.len() as int) =~= all);
    let sorted = sort_by(found);
    dedup_strings(sorted)
}

/// The changed workflow files are in order, with no repeats, and are exactly the changed
/// paths under `.github/workflows/` with that prefix removed.
pub proof fn lemma_changed_workflows(paths: Seq<Seq<char>>)
    ensures
        forall|i: int, j: int| #![trigger spec_changed_workflows(paths)[i], spec_changed_workflows(paths)[j]]
            0 <= i < j < spec_changed_workflows(paths).len() ==> chars_le(
                spec_changed_workflows(paths)[i],
                spec_changed_workflows(paths)[j],
            ) && spec_changed_workflows(paths)[i] != spec_changed_workflows(paths)[j],
        forall|x: Seq<char>|
            spec_changed_workflows(paths).contains(x) <==> workflow_paths(paths).contains(x),
{
    broadcast use vstd::seq_lib::to_multiset_contains;

    let w = workflow_paths(paths);
    let s = sort_by_key::<String>(w);
    lemma_sort_by_key::<String>(w);
    lemma_dedup_sorted(s);
    assert forall|x: Seq<char>| s.contains(x) <==> w.contains(x) by {
        assert(s.to_multiset().count(x) == w.to_multiset().count(x));
    }
}


proof fn lemma_workflow_paths_contains(paths: Seq<Seq<char>>, x: Seq<char>)
    ensures
        workflow_paths(paths).contains(x) <==> exists|i: int|
            0 <= i < paths.len() && #[trigger] paths[i] == workflows_dir_prefix() + x,
    decreases paths.len(),
{
    let pre = workflows_dir_prefix();
    if paths.len() > 0 {
        let init = paths.drop_last();
        lemma_workflow_paths_contains(init, x);
        let p = paths.last();
        let rest = workflow_paths(init);
        let here = starts_with(p, pre) && p.skip(pre.len() as int) == x;
        assert(here <==> p == pre + x) by {
            if here {
                assert(p =~= p.take(pre.len() as int) + p.skip(pre.len() as int));
            }
            if p == pre + x {
                assert((pre + x).take(pre.len() as int) =~= pre);
                assert((pre + x).skip(pre.len() as int) =~= x);
            }
        }
        if workflow_paths(paths).contains(x) {
            let k = choose|k: int| 0 <= k < workflow_paths(paths).len() && workflow_paths(paths)[k] == x;
            if k < rest.len() {
                assert(rest[k] == x);
                let i = choose|i: int| 0 <= i < init.len() && #[trigger] init[i] == pre + x;
                assert(paths[i] == init[i]);
            } else {
                assert(paths[paths.len() - 1] == pre + x);
            }
        }
        if exists|i: int| 0 <= i < paths.len() && #[trigger] paths[i] == pre + x {
            let i = choose|i: int| 0 <= i < paths.len() && #[trigger] paths[i] == pre + x;
            if i < paths.len() - 1 {
                assert(init[i] == paths[i]);
                let k = choose|k: int| 0 <= k < rest.len() && rest[k] == x;
                if starts_with(p, pre) {
                    assert(workflow_paths(paths)[k] == x);
                } else {
                    assert(workflow_paths(paths)[k] == x);
                }
            } else {
                let w = workflow_paths(paths);
                assert(w[w.len() - 1] == x);
            }
        }
    }
}

/// A name is among the changed workflows exactly when `.github/workflows/` followed by it is
/// one of the changed paths, whatever its extension; other changed paths add nothing.
pub proof fn lemma_changed_workflows_paths(paths: Seq<Seq<char>>, x: Seq<char>)
    ensures
        spec_changed_workflows(paths).contains(x) <==> exists|i: int|
            0 <= i < paths.len() && #[trigger] paths[i] == ".github/workflows/"@ + x,
{
    lemma_changed_workflows(paths);
    lemma_workflow_paths_contains(paths, x);
}

/// The standard Base64 encoding (with padding) of `bytes`, as the `base64` crate computes it.
pub uninterp spec fn base64_standard(bytes: Seq<u8>) -> Seq<char>;

/// The character of the standard Base64 alphabet (RFC 4648) for a six-bit value:
/// `A`-`Z`, `a`-`z`, `0`-`9`, `+`, `/`.
pub open spec fn base64_char(v: int) -> char {
    if v < 26 {
        (65 + v) as char
    } else if v < 52 {
        (71 + v) as char
    } else if v < 62 {
        (v - 4) as char
    } else if v == 62 {
        '+'
    } else {
        '/'
    }
}

/// Standard Base64 with `=` padding (RFC 4648): every three bytes become four characters of
/// the standard alphabet, and a last group of one or two bytes is padded with `=`.
pub open spec fn base64_encode(b: Seq<u8>) -> Seq<char>
    decreases b.len(),
{
    if b.len() == 0 {
        Seq::empty()
    } else if b.len() == 1 {
        seq![base64_char(b[0] as int / 4), base64_char((b[0] as int % 4) * 16), '=', '=']
    } else if b.len() == 2 {
        seq![
            base64_char(b[0] as int / 4),
            base64_char((b[0] as int % 4) * 16 + b[1] as int / 16),
            base64_char((b[1] as int % 16) * 4),
            '=',
        ]
    } else {
        seq![
            base64_char(b[0] as int / 4),
            base64_char((b[0] as int % 4) * 16 + b[1] as int / 16),
            base64_char((b[1] as int % 16) * 4 + b[2] as int / 64),
            base64_char(b[2] as int % 64),
        ] + base64_encode(b.skip(3))
    }
}

/// The value of a character of the standard Base64 alphabet (`-1` for any other).
pub open spec fn base64_value(c: char) -> int {
    let u = c as int;
    if 65 <= u <= 90 {
        u - 65
    } else if 97 <= u <= 122 {
        u - 71
    } else if 48 <= u <= 57 {
        u + 4
    } else if c == '+' {
        62
    } else if c == '/' {
        63
    } else {
        -1
    }
}

/// Whether `c` may stand in standard padded Base64: `A`-`Z`, `a`-`z`, `0`-`9`, `+`, `/`
/// or the padding `=`.
pub open spec fn is_standard_base64_char(c: char) -> bool {
    ||| 'A' <= c <= 'Z'
    ||| 'a' <= c <= 'z'
    ||| '0' <= c <= '9'
    ||| c == '+'
    ||| c == '/'
    ||| c == '='
}

/// Standard Base64 decoding of a padded text, four characters at a time.
pub open spec fn base64_decode(s: Seq<char>) -> Seq<u8>
    decreases s.len(),
{
    if s.len() < 4 {
        Seq::empty()
    } else {
        let v0 = base64_value(s[0]);
        let v1 = base64_value(s[1]);
        let v2 = base64_value(s[2]);
        let v3 = base64_value(s[3]);
        let b0 = (v0 * 4 + v1 / 16) as u8;
        if s[2] == '=' {
            seq![b0]
        } else if s[3] == '=' {
            seq![b0, ((v1 % 16) * 16 + v2 / 4) as u8]
        } else {
            seq![b0, ((v1 % 16) * 16 + v2 / 4) as u8, ((v2 % 4) * 64 + v3) as u8]
                + base64_decode(s.skip(4))
        }
    }
}

proof fn lemma_base64_char(v: int)
    requires
        0 <= v < 64,
    ensures
        base64_value(base64_char(v)) == v,
        is_standard_base64_char(base64_char(v)),
        base64_char(v) != '=',
{
    let c = base64_char(v);
    if v < 26 {
        assert(c as int == 65 + v);
    } else if v < 52 {
        assert(c as int == 71 + v);
    } else if v < 62 {
        assert(c as int == v - 4);
    }
}

/// Standard-decoding the encoding of any bytes gives the bytes back.
pub proof fn lemma_base64_roundtrip(b: Seq<u8>)
    ensures
        base64_decode(base64_encode(b)) == b,
    decreases b.len(),
{
    if b.len() == 0 {
        assert(base64_decode(base64_encode(b)) =~= b);
    } else {
        let x0 = b[0] as int;
        let v0 = x0 / 4;
        lemma_base64_char(v0);
        if b.len() == 1 {
            let v1 = (x0 % 4) * 16;
            lemma_base64_char(v1);
            assert(v0 * 4 + v1 / 16 == x0);
            assert(base64_decode(base64_encode(b)) =~= b);
        } else {
            let x1 = b[1] as int;
            let v1 = (x0 % 4) * 16 + x1 / 16;
            lemma_base64_char(v1);
            assert(v0 * 4 + v1 / 16 == x0);
            assert(v1 % 16 == x1 / 16);
            if b.len() == 2 {
                let v2 = (x1 % 16) * 4;
                lemma_base64_char(v2);
                assert((v1 % 16) * 16 + v2 / 4 == x1);
                assert(base64_decode(base64_encode(b)) =~= b);
            } else {
                let x2 = b[2] as int;
                let v2 = (x1 % 16) * 4 + x2 / 64;
                let v3 = x2 % 64;
                lemma_base64_char(v2);
                lemma_base64_char(v3);
                assert((v1 % 16) * 16 + v2 / 4 == x1);
                assert((v2 % 4) * 64 + v3 == x2);
                let e = base64_encode(b);
                let rest = base64_encode(b.skip(3));
                lemma_base64_roundtrip(b.skip(3));
                assert(e.skip(4) =~= rest);
                assert(b =~= seq![b[0], b[1], b[2]] + b.skip(3));
            }
        }
    }
}

/// The encoding of `n` bytes has `4 * ceil(n / 3)` characters, all of the standard
/// alphabet or `=`, and `=` stands only in its last two places.
pub proof fn lemma_base64_shape(b: Seq<u8>)
    ensures
        base64_encode(b).len() == 4 * ((b.len() + 2) / 3),
        forall|i: int|
            0 <= i < base64_encode(b).len() ==> is_standard_base64_char(
                #[trigger] base64_encode(b)[i],
            ),
        forall|i: int|
            0 <= i < base64_encode(b).len() - 2 ==> #[trigger] base64_encode(b)[i] != '=',
    decreases b.len(),
{
    if b.len() > 0 {
        let x0 = b[0] as int;
        lemma_base64_char(x0 / 4);
        if b.len() == 1 {
            lemma_base64_char((x0 % 4) * 16);
        } else {
            let x1 = b[1] as int;
            lemma_base64_char((x0 % 4) * 16 + x1 / 16);
            if b.len() == 2 {
                lemma_base64_char((x1 % 16) * 4);
            } else {
                let x2 = b[2] as int;
                lemma_base64_char((x1 % 16) * 4 + x2 / 64);
                lemma_base64_char(x2 % 64);
                lemma_base64_shape(b.skip(3));
                let e = base64_encode(b);
                let rest = base64_encode(b.skip(3));
                assert forall|i: int| 0 <= i < e.len() implies is_standard_base64_char(
                    #[trigger] e[i],
                ) by {
                    if i >= 4 {
                        assert(e[i] == rest[i - 4]);
                    }
                }
                assert forall|i: int| 0 <= i < e.len() - 2 implies #[trigger] e[i] != '=' by {
                    if i >= 4 {
                        assert(e[i] == rest[i - 4]);
                    }
                }
            }
        }
    }
}

/// Calls `Engine::encode` of `base64::engine::general_purpose::STANDARD`, the engine of the
/// standard alphabet with padding; its result is the standard Base64 encoding of exactly the
/// given bytes, which is also named [`base64_standard`].
#[verifier::external_body]
fn encode_base64(bytes: &[u8]) -> (r: String)
    ensures
        r@ == base64_standard(bytes@),
        r@ == base64_encode(bytes@),
{
    base64::engine::general_purpose::STANDARD.encode(bytes)
}

/// `git2::Status::WT_DELETED`: the file was deleted in the working tree.
pub const WT_DELETED: u32 = 512;

/// `git2::Status::INDEX_DELETED`: the file was deleted in the index.
pub const INDEX_DELETED: u32 = 4;

/// Whether a status (the bits of `git2::Status`) marks a deletion.
pub open spec fn is_deletion(status: u32) -> bool {
    status & (WT_DELETED | INDEX_DELETED) != 0
}

/// Whether a changed path of a checkout was deleted, in the working tree or the index.
pub fn is_deleted(status: u32) -> (r: bool)
    ensures
        r == is_deletion(status),
{
    status & (WT_DELETED | INDEX_DELETED) != 0
}

/// A changed path of a checkout, with its status bits and, unless it was deleted, the
/// bytes it now holds.
pub struct ChangedFile {
    pub path: String,
    pub status: u32,
    pub contents: Vec<u8>,
}

/// A file a commit adds or changes.
#[derive(Debug, PartialEq, Eq)]
pub struct FileAddition {
    pub path: String,
    /// Base64-encoded file contents, as required by the GraphQL schema.
    pub contents: String,
}

/// A file a commit deletes.
#[derive(Debug, PartialEq, Eq)]
pub struct FileDeletion {
    pub path: String,
}

/// Working tree changes, encoded the way `createCommitOnBranch` expects them.
#[derive(Debug, PartialEq, Eq)]
pub struct FileChanges {
    pub additions: Vec<FileAddition>,
    pub deletions: Vec<FileDeletion>,
}

impl View for FileAddition {
    type V = (Seq<char>, Seq<char>);

    open spec fn view(&self) -> (Seq<char>, Seq<char>) {
        (self.path@, self.contents@)
    }
}

impl View for FileDeletion {
    type V = Seq<char>;

    open spec fn view(&self) -> Seq<char> {
        self.path@
    }
}

impl SortKey for FileAddition {
    open spec fn view_le(a: (Seq<char>, Seq<char>), b: (Seq<char>, Seq<char>)) -> bool {
        chars_le(a.0, b.0)
    }

    proof fn lemma_view_le_total(a: (Seq<char>, Seq<char>), b: (Seq<char>, Seq<char>)) {
        crate::order::lemma_chars_le_total(a.0, b.0);
    }

    proof fn lemma_view_le_trans(
        a: (Seq<char>, Seq<char>),
        b: (Seq<char>, Seq<char>),
        c: (Seq<char>, Seq<char>),
    ) {
        crate::order::lemma_chars_le_trans(a.0, b.0, c.0);
    }

    fn le(&self, other: &Self) -> (r: bool) {
        str_le(self.path.as_str(), other.path.as_str())
    }
}

impl SortKey for FileDeletion {
    open spec fn view_le(a: Seq<char>, b: Seq<char>) -> bool {
        chars_le(a, b)
    }

    proof fn lemma_view_le_total(a: Seq<char>, b: Seq<char>) {
        crate::order::lemma_chars_le_total(a, b);
    }

    proof fn lemma_view_le_trans(a: Seq<char>, b: Seq<char>, c: Seq<char>) {
        crate::order::lemma_chars_le_trans(a, b, c);
    }

    fn le(&self, other: &Self) -> (r: bool) {
        str_le(self.path.as_str(), other.path.as_str())
    }
}

/// A changed path as plain values: path, status bits, contents.
pub open spec fn changed_views(files: Seq<ChangedFile>) -> Seq<(Seq<char>, u32, Seq<u8>)> {
    files.map_values(|f: ChangedFile| (f.path@, f.status, f.contents@))
}

/// The additions of a change set, in input order: each path not deleted, with its contents
/// encoded in Base64.
pub open spec fn additions_of(files: Seq<(Seq<char>, u32, Seq<u8>)>) -> Seq<(Seq<char>, Seq<char>)>
    decreases files.len(),
{
    if files.len() == 0 {
        Seq::empty()
    } else {
        let rest = additions_of(files.drop_last());
        let (path, status, contents) = files.last();
        if is_deletion(status) {
            rest
        } else {
            rest.push((path, base64_encode(contents)))
        }
    }
}

/// Every addition of a change set is a changed path that was not deleted, and
/// standard-decoding its contents gives that file's bytes back.
pub proof fn lemma_additions_decode(files: Seq<(Seq<char>, u32, Seq<u8>)>)
    ensures
        forall|i: int|
            0 <= i < additions_of(files).len() ==> exists|j: int|
                0 <= j < files.len() && files[j].0 == (#[trigger] additions_of(files)[i]).0
                    && !is_deletion(files[j].1) && base64_decode(additions_of(files)[i].1)
                    == files[j].2,
    decreases files.len(),
{
    if files.len() > 0 {
        let init = files.drop_last();
        lemma_additions_decode(init);
        let rest = additions_of(init);
        let a = additions_of(files);
        let (path, status, contents) = files.last();
        lemma_base64_roundtrip(contents);
        assert forall|i: int| 0 <= i < a.len() implies exists|j: int|
            0 <= j < files.len() && files[j].0 == (#[trigger] a[i]).0 && !is_deletion(files[j].1)
                && base64_decode(a[i].1) == files[j].2 by {
            if i < rest.len() {
                assert(a[i] == rest[i]);
                let j = choose|j: int|
                    0 <= j < init.len() && init[j].0 == (#[trigger] rest[i]).0 && !is_deletion(
                        init[j].1,
                    ) && base64_decode(rest[i].1) == init[j].2;
                assert(files[j] == init[j]);
            } else {
                assert(files[files.len() - 1] == files.last());
            }
        }
    }
}

/// The deleted paths of a change set, in input order.
pub open spec fn deletions_of(files: Seq<(Seq<char>, u32, Seq<u8>)>) -> Seq<Seq<char>>
    decreases files.len(),
{
    if files.len() == 0 {
        Seq::empty()
    } else {
        let rest = deletions_of(files.drop_last());
        let (path, status, contents) = files.last();
        if is_deletion(status) {
            rest.push(path)
        } else {
            rest
        }
    }
}

/// Turn the working tree changes into a GraphQL file change set: deleted paths become
/// deletions, every other path an addition with its Base64 contents; each list is sorted
/// by path.
pub fn file_changes(files: Vec<ChangedFile>) -> (r: FileChanges)
    ensures
        seq_views(r.additions@) == sort_by_key::<FileAddition>(additions_of(changed_views(files@))),
        seq_views(r.deletions@) == sort_by_key::<FileDeletion>(deletions_of(changed_views(files@))),
{
    let ghost all = changed_views(files@);
    let mut files = files;
    let mut additions: Vec<FileAddition> = Vec::new();
    let mut deletions: Vec<FileDeletion> = Vec::new();
    let ghost mut i: int = 0;
    assert(all.skip(0) =~= all);
    assert(all.take(0) =~= Seq::<(Seq<char>, u32, Seq<u8>)>::empty());
    assert(seq_views(additions@) =~= Seq::<(Seq<char>, Seq<char>)>::empty());
    assert(seq_views(deletions@) =~= Seq::<Seq<char>>::empty());
    while files.len() > 0
        invariant
            0 <= i <= all.len(),
            changed_views(files@) == all.skip(i),
            seq_views(additions@) == additions_of(all.take(i)),
            seq_views(deletions@) == deletions_of(all.take(i)),
        decreases files.len(),
    {
        let ghost before = files@;
        let file = files.remove(0);
        proof {
            assert(changed_views(files@) =~= changed_views(before).drop_first());
            assert(all.skip(i).drop_first() =~= all.skip(i + 1));
            assert(all.take(i + 1).drop_last() =~= all.take(i));
            assert(all.take(i + 1).last() == (file.path@, file.status, file.contents@)) by {
                assert(all.skip(i)[0] == all[i]);
                assert(changed_views(before)[0] == (before[0].path@, before[0].status, before[0].contents@));
            }
        }
        let ghost adds = additions@;
        let ghost dels = deletions@;
        if is_deleted(file.status) {
            let ghost p = file.path@;
            deletions.push(FileDeletion { path: file.path });
            assert(seq_views(deletions@) =~= seq_views(dels).push(p));
        } else {
            let contents = encode_base64(file.contents.as_slice());
            let ghost v = (file.path@, contents@);
            additions.push(FileAddition { path: file.path, contents });
            assert(seq_views(additions@) =~= seq_views(adds).push(v));
        }
        proof {
            i = i + 1;
        }
    }
    assert(all.take(i) =~= all);
    FileChanges { additions: sort_by(additions), deletions: sort_by(deletions) }
}

impl FileChanges {
    /// Whether there is nothing to commit.
    pub fn is_empty(&self) -> (r: bool)
        ensures
            r == (self.additions@.len() == 0 && self.deletions@.len() == 0),
    {
        self.additions.len() == 0 && self.deletions.len() == 0
    }
}

/// Whether a pull request carries the label of this tool.
pub fn has_sync_label(labels: &[String]) -> (r: bool)
    ensures
        r == exists|i: int| 0 <= i < labels@.len() && (#[trigger] labels@[i])@ == LABEL@,
{
    let label = to_chars(LABEL);
    let mut i: usize = 0;
    while i < labels.len()
        invariant
            i <= labels.len(),
            label@ == LABEL@,
            forall|j: int| 0 <= j < i ==> (#[trigger] labels@[j])@ != LABEL@,
        decreases labels.len() - i,
    {
        let name = to_chars(labels[i].as_str());
        if chars_eq(&name, &label) {
            return true;
        }
        i = i + 1;
    }
    false
}

/// Whether a created commit was signed by GitHub, which a verified commit needs.
pub fn is_signed_by_github(signature: Option<bool>) -> (r: bool)
    ensures
        r == (signature == Some(true)),
{
    match signature {
        Some(signed) => signed,
        None => false,
    }
}

/// The branch every target repository gets in one run, made unique by the time.
pub fn branch_name(nanos: u128) -> (r: String)
    ensures
        r@ == "ci/api-action-"@ + decimal(nanos as nat),
{
    let mut out = to_chars("ci/api-action-");
    let digits = decimal_chars(nanos);
    append_chars(&mut out, &digits);
    from_chars(&out)
}

/// The head of a pull request: `owner:branch`.
pub fn head_reference(repository: &Repo, branch: &str) -> (r: String)
    ensures
        r@ == repository@.owner + seq![':'] + branch@,
{
    let mut out = to_chars(repository.owner.as_str());
    out.push(':');
    push_str(&mut out, branch);
    from_chars(&out)
}

/// The web address of a pull request.
pub open spec fn pull_request_url(repository: RepoView, number: nat) -> Seq<char> {
    "https://github.com/"@ + repository.owner + seq!['/'] + repository.repository + "/pull/"@
        + decimal(number)
}

impl CreatedPullRequest {
    /// The record of pull request `number` opened in `repository`, changing `files`.
    pub fn new(repository: &Repo, number: u64, files: Vec<String>) -> (r: CreatedPullRequest)
        ensures
            r@.repository == repo_name(repository@),
            r@.url == pull_request_url(repository@, number as nat),
            r.files@ == files@,
    {
        let mut url = to_chars("https://github.com/");
        push_str(&mut url, repository.owner.as_str());
        url.push('/');
        push_str(&mut url, repository.repository.as_str());
        push_str(&mut url, "/pull/");
        let digits = decimal_chars(number as u128);
        append_chars(&mut url, &digits);
        CreatedPullRequest { repository: repository.full_name(), url: from_chars(&url), files }
    }
}

/// What the pull request phase does next for the repositories at hand, by index.
#[derive(Debug, Clone, Copy, PartialEq, Eq)]
pub enum PullRequestStep {
    /// Close the open pull requests of this tool in repository `i`.
    Close(usize),
    /// Publish the changes of repository `i` and open its pull request.
    Open(usize),
    /// Every repository is done.
    Done,
}

/// The progress of the pull request phase: old pull requests are closed in every repository
/// before any replacement is opened.
pub struct PullRequestRun {
    count: usize,
    closed: usize,
    opened: usize,
}

impl PullRequestRun {
    #[verifier::type_invariant]
    spec fn in_order(self) -> bool {
        &&& self.closed <= self.count
        &&& self.opened <= self.count
        &&& self.opened > 0 ==> self.closed == self.count
    }

    /// The number of repositories.
    pub closed spec fn spec_count(&self) -> nat {
        self.count as nat
    }

    /// The number of repositories whose old pull requests are closed.
    pub closed spec fn spec_closed(&self) -> nat {
        self.closed as nat
    }

    /// The number of repositories whose pull request is opened.
    pub closed spec fn spec_opened(&self) -> nat {
        self.opened as nat
    }

    /// The step that comes next: close in the first repository not yet closed; once all are
    /// closed, open in the first not yet opened; then done.
    pub open spec fn spec_next(&self) -> PullRequestStep {
        if self.spec_closed() < self.spec_count() {
            PullRequestStep::Close(self.spec_closed() as usize)
        } else if self.spec_opened() < self.spec_count() {
            PullRequestStep::Open(self.spec_opened() as usize)
        } else {
            PullRequestStep::Done
        }
    }

    /// Start the phase for `count` repositories, with nothing closed or opened.
    pub fn new(count: usize) -> (r: PullRequestRun)
        ensures
            r.spec_count() == count,
            r.spec_closed() == 0,
            r.spec_opened() == 0,
    {
        PullRequestRun { count, closed: 0, opened: 0 }
    }

    /// The step to take now. A pull request is only opened once every repository's old
    /// ones are closed.
    pub fn next(&self) -> (r: PullRequestStep)
        ensures
            r == self.spec_next(),
            r is Open ==> self.spec_closed() == self.spec_count(),
            self.spec_opened() > 0 ==> self.spec_closed() == self.spec_count(),
            self.spec_closed() <= self.spec_count() && self.spec_opened() <= self.spec_count(),
    {
        proof {
            use_type_invariant(self);
        }
        if self.closed < self.count {
            PullRequestStep::Close(self.closed)
        } else if self.opened < self.count {
            PullRequestStep::Open(self.opened)
        } else {
            PullRequestStep::Done
        }
    }

    /// Record that the step [`Self::next`] gave was taken.
    pub fn advance(&mut self)
        requires
            !(old(self).spec_next() is Done),
        ensures
            final(self).spec_count() == old(self).spec_count(),
            old(self).spec_next() is Close ==> final(self).spec_closed() == old(self).spec_closed() + 1
                && final(self).spec_opened() == old(self).spec_opened(),
            old(self).spec_next() is Open ==> final(self).spec_opened() == old(self).spec_opened() + 1
                && final(self).spec_closed() == old(self).spec_closed(),
    {
        proof {
            use_type_invariant(&*self);
        }
        if self.closed < self.count {
            self.closed = self.closed + 1;
        } else {
            self.opened = self.opened + 1;
        }
    }
}

} // verus!
