//! Local reusable workflow references (`uses: ./path`) rewritten into permalinks.
use vstd::prelude::*;

use crate::shared::{is_safe_char, is_safe_component, Repo, RepoView};
use crate::text::{
    append_chars, char_is_whitespace, ends_with, ends_with_chars, find, find_chars, first_word,
    first_word_chars, from_chars, is_whitespace, join, join_chars, lines, lines_of, slice_chars,
    starts_with, starts_with_chars, to_chars, trim_end_char, trim_end_char_chars, trim_start,
    views, no_crlf, lemma_lines_join_roundtrip, no_line_break, no_newline, is_bare_line, is_first_occurrence, occurs_at,
    lemma_first_occurrence_unique, is_word_end,
};

verus! {

/// Marks a reusable workflow reference as living in this repository.
pub const LOCAL_PREFIX: &'static str = "./";

/// The key that introduces a reference.
pub open spec fn uses_key() -> Seq<char> {
    seq!['u', 's', 'e', 's', ':']
}

/// A `uses: ./path` reference as plain values.
pub struct LocalReferenceView {
    /// Everything before `uses:`.
    pub prefix: Seq<char>,
    pub path: Seq<char>,
}

/// A `uses: ./path` reference split into the parts needed to rebuild the line.
pub struct LocalReference {
    /// Everything before `uses:`, preserving indentation and any sequence dash.
    pub prefix: String,
    pub path: String,
}

impl View for LocalReference {
    type V = LocalReferenceView;

    open spec fn view(&self) -> LocalReferenceView {
        LocalReferenceView { prefix: self.prefix@, path: self.path@ }
    }
}

/// Only whitespace and `-` stand before the key.
pub open spec fn is_key_prefix(p: Seq<char>) -> bool {
    forall|i: int| 0 <= i < p.len() ==> is_whitespace(#[trigger] p[i]) || p[i] == '-'
}

/// The local reference a line holds, if any: the first `uses:` of the line, preceded only
/// by whitespace and dashes, followed (after whitespace) by `./` and a path. The path is
/// the first whitespace-separated word after `./`, without trailing slashes, and must not
/// be empty.
pub open spec fn spec_parse_local_reference(line: Seq<char>) -> Option<LocalReferenceView> {
    match find(line, uses_key()) {
        None => None,
        Some(k) => {
            let prefix = line.take(k);
            let value = trim_start(line.skip(k + uses_key().len()));
            if !is_key_prefix(prefix) || !starts_with(value, LOCAL_PREFIX@) {
                None
            } else {
                match first_word(value.skip(LOCAL_PREFIX@.len() as int)) {
                    None => None,
                    Some(word) => {
                        let path = trim_end_char(word, '/');
                        if path.len() == 0 {
                            None
                        } else {
                            Some(LocalReferenceView { prefix, path })
                        }
                    },
                }
            }
        },
    }
}

/// The reference held by a line of characters.
pub fn parse_local_reference_chars(line: &Vec<char>) -> (r: Option<LocalReference>)
    ensures
        match r {
            Some(reference) => spec_parse_local_reference(line@) == Some(reference@),
            None => spec_parse_local_reference(line@) is None,
        },
{
    let key = vec!['u', 's', 'e', 's', ':'];
    assert(key@ =~= uses_key());
    let k = match find_chars(line, &key) {
        Some(k) => k,
        None => return None,
    };
    let mut i: usize = 0;
    while i < k
        invariant
            i <= k,
            k + 5 <= line.len(),
            find(line@, uses_key()) == Some(k as int),
            forall|j: int| 0 <= j < i ==> is_whitespace(#[trigger] line@[j]) || line@[j] == '-',
        decreases k - i,
    {
        if !(char_is_whitespace(line[i]) || line[i] == '-') {
            proof {
                let p = line@.take(k as int);
                assert(!(is_whitespace(p[i as int]) || p[i as int] == '-'));
                assert(!is_key_prefix(p));
            }
            return None;
        }
        i = i + 1;
    }
    let prefix = slice_chars(line, 0, k);
    assert(prefix@ =~= line@.take(k as int));
    let after = slice_chars(line, k + 5, line.len());
    assert(after@ =~= line@.skip(k + uses_key().len()));
    let value = trim_start_chars(&after);
    let local = to_chars(LOCAL_PREFIX);
    if !starts_with_chars(&value, &local) {
        return None;
    }
    let rest = slice_chars(&value, local.len(), value.len());
    assert(rest@ =~= value@.skip(LOCAL_PREFIX@.len() as int));
    let word = match first_word_chars(&rest) {
        Some(w) => w,
        None => return None,
    };
    let path = trim_end_char_chars(&word, '/');
    if path.len() == 0 {
        return None;
    }
    Some(LocalReference { prefix: from_chars(&prefix), path: from_chars(&path) })
}

/// `s` without its leading whitespace.
pub fn trim_start_chars(s: &Vec<char>) -> (r: Vec<char>)
    ensures
        r@ == trim_start(s@),
{
    let mut a: usize = 0;
    while a < s.len() && char_is_whitespace(s[a])
        invariant
            a <= s.len(),
            forall|j: int| 0 <= j < a ==> is_whitespace(s@[j]),
        decreases s.len() - a,
    {
        a = a + 1;
    }
    proof {
        crate::text::lemma_trim_start_skip(s@, a as int);
        assert(s@.skip(a as int) =~= s@.subrange(a as int, s.len() as int));
    }
    slice_chars(s, a, s.len())
}

/// Recognize `uses: ./path`, ignoring any trailing comment the source line carried.
pub fn parse_local_reference(line: &str) -> (r: Option<LocalReference>)
    ensures
        match r {
            Some(reference) => spec_parse_local_reference(line@) == Some(reference@),
            None => spec_parse_local_reference(line@) is None,
        },
{
    let chars = to_chars(line);
    parse_local_reference_chars(&chars)
}


/// The line a reference becomes: its prefix, then `uses: owner/name/path@sha`.
pub open spec fn rewritten_reference(source: RepoView, sha: Seq<char>, r: LocalReferenceView) -> Seq<
    char,
> {
    r.prefix + seq!['u', 's', 'e', 's', ':', ' '] + source.owner + seq!['/'] + source.repository
        + seq!['/'] + r.path + seq!['@'] + sha
}

/// A line after rewriting: references are rebuilt, other lines stay as they are.
pub open spec fn rewritten_line(source: RepoView, sha: Seq<char>, line: Seq<char>) -> Seq<char> {
    match spec_parse_local_reference(line) {
        Some(r) => rewritten_reference(source, sha, r),
        None => line,
    }
}

/// Lines after rewriting.
pub open spec fn rewritten_lines(source: RepoView, sha: Seq<char>, ls: Seq<Seq<char>>) -> Seq<
    Seq<char>,
> {
    ls.map_values(|l: Seq<char>| rewritten_line(source, sha, l))
}

/// `contents` with every reference rewritten; the lines are joined by `'\n'`, and a final
/// `'\n'` of the source is kept.
pub open spec fn spec_rewrite(source: RepoView, sha: Seq<char>, contents: Seq<char>) -> Seq<char> {
    join(rewritten_lines(source, sha, lines(contents)), seq!['\n']) + if ends_with(
        contents,
        seq!['\n'],
    ) {
        seq!['\n']
    } else {
        Seq::empty()
    }
}

/// The paths of the references among `ls`, in order.
pub open spec fn reference_paths(ls: Seq<Seq<char>>) -> Seq<Seq<char>>
    decreases ls.len(),
{
    if ls.len() == 0 {
        Seq::empty()
    } else {
        let rest = reference_paths(ls.drop_last());
        match spec_parse_local_reference(ls.last()) {
            Some(r) => rest.push(r.path),
            None => rest,
        }
    }
}

/// The paths of the local references in `contents`, in line order.
pub open spec fn local_reference_paths(contents: Seq<char>) -> Seq<Seq<char>> {
    reference_paths(lines(contents))
}

pub proof fn lemma_reference_paths_prefix(ls: Seq<Seq<char>>, i: int, j: int)
    requires
        0 <= i <= j <= ls.len(),
    ensures
        reference_paths(ls.take(i)).len() <= reference_paths(ls.take(j)).len(),
        reference_paths(ls.take(j)).take(reference_paths(ls.take(i)).len() as int)
            == reference_paths(ls.take(i)),
    decreases j - i,
{
    if i == j {
        assert(reference_paths(ls.take(j)).take(reference_paths(ls.take(j)).len() as int)
            =~= reference_paths(ls.take(j)));
    } else {
        lemma_reference_paths_prefix(ls, i, j - 1);
        assert(ls.take(j).drop_last() =~= ls.take(j - 1));
        let a = reference_paths(ls.take(i));
        let b = reference_paths(ls.take(j - 1));
        let c = reference_paths(ls.take(j));
        assert(c.take(a.len() as int) =~= b.take(a.len() as int));
    }
}

/// The paths of the local references in `contents`, in line order: the paths that must
/// resolve under the checkout root before [`Rewriter::rewrite`] is called.
pub fn local_references(contents: &str) -> (r: Vec<String>)
    ensures
        r@.map_values(|p: String| p@) == local_reference_paths(contents@),
{
    let chars = to_chars(contents);
    let ls = lines_of(&chars);
    let mut r: Vec<String> = Vec::new();
    let mut i: usize = 0;
    while i < ls.len()
        invariant
            i <= ls.len(),
            views(ls@) == lines(contents@),
            r@.map_values(|p: String| p@) == reference_paths(views(ls@).take(i as int)),
        decreases ls.len() - i,
    {
        let ghost vs = views(ls@);
        assert(vs.take(i + 1).drop_last() =~= vs.take(i as int));
        assert(vs.take(i + 1).last() == ls@[i as int]@);
        let ghost before = r@;
        match parse_local_reference_chars(&ls[i]) {
            Some(reference) => {
                let ghost path = reference.path@;
                r.push(reference.path);
                assert(r@.map_values(|p: String| p@) =~= before.map_values(|p: String| p@).push(
                    path,
                ));
            },
            None => {},
        }
        i = i + 1;
    }
    assert(views(ls@).take(ls.len() as int) =~= views(ls@));
    r
}

/// A local reference that does not resolve under the checkout root.
#[derive(Debug, PartialEq, Eq)]
pub struct RewriteError {
    /// The path of the reference, without `./`.
    pub path: String,
    /// The checkout root it was looked up under.
    pub root: String,
}

impl RewriteError {
    /// The message the error displays.
    pub fn message(&self) -> (r: String)
        ensures
            r@ == "local workflow reference '"@ + LOCAL_PREFIX@ + self.path@
                + "' does not exist under "@ + self.root@,
    {
        let mut m = String::from_str("local workflow reference '");
        m.append(LOCAL_PREFIX);
        m.append(self.path.as_str());
        m.append("' does not exist under ");
        m.append(self.root.as_str());
        m
    }
}

/// Rewrites local reusable workflow references into permalinks into the source repository.
pub struct Rewriter {
    pub source: Repo,
    /// The checkout the references resolve under.
    pub root: String,
    /// Commit every rewritten reference is pinned to, shared by all files in a run.
    pub sha: String,
}

impl Rewriter {
    /// Build a rewriter for workflows checked out under `root`, pinning to `sha`.
    pub fn new(source: Repo, root: String, sha: String) -> (r: Rewriter)
        ensures
            r.source@ == source@,
            r.root@ == root@,
            r.sha@ == sha@,
    {
        Rewriter { source, root, sha }
    }

    /// Replace every `uses: ./path` with `owner/name/path@sha`.
    ///
    /// `resolved[i]` tells whether the `i`-th path of [`local_references`] exists under
    /// the root. A reference that does not resolve is an error rather than a passthrough:
    /// the unrewritten `./` form is valid YAML but resolves against the *target*
    /// repository, so shipping it would silently point every target at a workflow it does
    /// not have. The error names the first such reference.
    pub fn rewrite(&self, contents: &str, resolved: &[bool]) -> (r: Result<String, RewriteError>)
        requires
            resolved@.len() == local_reference_paths(contents@).len(),
        ensures
            r is Ok <==> forall|i: int| 0 <= i < resolved@.len() ==> #[trigger] resolved@[i],
            r matches Ok(s) ==> s@ == spec_rewrite(self.source@, self.sha@, contents@),
            r matches Err(e) ==> exists|i: int|
                0 <= i < resolved@.len() && !resolved@[i] && (forall|j: int|
                    0 <= j < i ==> #[trigger] resolved@[j]) && e.path@
                    == local_reference_paths(contents@)[i] && e.root@ == self.root@,
    {
        let chars = to_chars(contents);
        let ls = lines_of(&chars);
        let ghost vs = views(ls@);
        let mut out: Vec<Vec<char>> = Vec::new();
        let mut count: usize = 0;
        let mut i: usize = 0;
        while i < ls.len()
            invariant
                i <= ls.len(),
                vs == views(ls@),
                vs == lines(contents@),
                resolved@.len() == reference_paths(vs).len(),
                count == reference_paths(vs.take(i as int)).len(),
                count <= resolved@.len(),
                forall|j: int| 0 <= j < count ==> #[trigger] resolved@[j],
                views(out@) == rewritten_lines(self.source@, self.sha@, vs.take(i as int)),
            decreases ls.len() - i,
        {
            assert(vs.take(i + 1).drop_last() =~= vs.take(i as int));
            assert(vs.take(i + 1).last() == ls@[i as int]@);
            proof {
                lemma_reference_paths_prefix(vs, i + 1, vs.len() as int);
                assert(vs.take(vs.len() as int) =~= vs);
            }
            let ghost before = out@;
            match parse_local_reference_chars(&ls[i]) {
                Some(reference) => {
                    proof {
                        assert(reference_paths(vs.take(i + 1)) == reference_paths(
                            vs.take(i as int),
                        ).push(reference.path@));
                        assert(reference_paths(vs)[count as int] == reference.path@) by {
                            assert(reference_paths(vs).take(count + 1)[count as int]
                                == reference_paths(vs)[count as int]);
                        }
                    }
                    if !resolved[count] {
                        return Err(
                            RewriteError { path: reference.path, root: self.root.clone() },
                        );
                    }
                    let mut line = to_chars(reference.prefix.as_str());
                    let key = vec!['u', 's', 'e', 's', ':', ' '];
                    append_chars(&mut line, &key);
                    let owner = to_chars(self.source.owner.as_str());
                    append_chars(&mut line, &owner);
                    line.push('/');
                    let name = to_chars(self.source.repository.as_str());
                    append_chars(&mut line, &name);
                    line.push('/');
                    let path = to_chars(reference.path.as_str());
                    append_chars(&mut line, &path);
                    line.push('@');
                    let sha = to_chars(self.sha.as_str());
                    append_chars(&mut line, &sha);
                    assert(line@ =~= rewritten_reference(self.source@, self.sha@, reference@));
                    out.push(line);
                    assert(views(out@) =~= views(before).push(
                        rewritten_line(self.source@, self.sha@, ls@[i as int]@),
                    ));
                    count = count + 1;
                },
                None => {
                    let line = slice_chars(&ls[i], 0, ls[i].len());
                    assert(line@ =~= ls@[i as int]@);
                    out.push(line);
                    assert(views(out@) =~= views(before).push(
                        rewritten_line(self.source@, self.sha@, ls@[i as int]@),
                    ));
                },
            }
            assert(rewritten_lines(self.source@, self.sha@, vs.take(i + 1)) =~= rewritten_lines(
                self.source@,
                self.sha@,
                vs.take(i as int),
            ).push(rewritten_line(self.source@, self.sha@, vs[i as int])));
            i = i + 1;
        }
        assert(vs.take(ls.len() as int) =~= vs);
        let newline = vec!['\n'];
        assert(newline@ =~= seq!['\n']);
        let mut text = join_chars(&out, &newline);
        if ends_with_chars(&chars, &newline) {
            text.push('\n');
        }
        proof {
            let tail: Seq<char> = if ends_with(contents@, seq!['\n']) {
                seq!['\n']
            } else {
                Seq::empty()
            };
            assert(text@ =~= join(rewritten_lines(self.source@, self.sha@, vs), seq!['\n']) + tail);
        }
        Ok(from_chars(&text))
    }
}


proof fn lemma_no_paths_no_references(ls: Seq<Seq<char>>)
    requires
        reference_paths(ls).len() == 0,
    ensures
        forall|i: int| 0 <= i < ls.len() ==> spec_parse_local_reference(#[trigger] ls[i]) is None,
    decreases ls.len(),
{
    if ls.len() > 0 {
        lemma_no_paths_no_references(ls.drop_last());
        assert forall|i: int| 0 <= i < ls.len() implies spec_parse_local_reference(
            #[trigger] ls[i],
        ) is None by {
            if i < ls.len() - 1 {
                assert(ls[i] == ls.drop_last()[i]);
            }
        }
    }
}

/// Rewriting a workflow that holds no local reference, and no `"\r\n"` line ending, gives
/// it back unchanged, whatever the source repository and commit.
pub proof fn lemma_rewrite_without_references(source: RepoView, sha: Seq<char>, contents: Seq<char>)
    requires
        local_reference_paths(contents).len() == 0,
        no_crlf(contents),
    ensures
        spec_rewrite(source, sha, contents) == contents,
{
    let ls = lines(contents);
    lemma_no_paths_no_references(ls);
    assert(rewritten_lines(source, sha, ls) =~= ls);
    lemma_lines_join_roundtrip(contents);
}

/// Every reference of a workflow is pinned to the one commit of the rewriter: each line
/// that held a reference becomes the reference rebuilt with `sha`, and every other line is
/// kept; the number of lines does not change.
pub proof fn lemma_rewrite_pins_every_reference(source: RepoView, sha: Seq<char>, contents: Seq<char>)
    ensures
        rewritten_lines(source, sha, lines(contents)).len() == lines(contents).len(),
        forall|i: int|
            0 <= i < lines(contents).len() ==> match spec_parse_local_reference(
                #[trigger] lines(contents)[i],
            ) {
                Some(r) => rewritten_lines(source, sha, lines(contents))[i] == r.prefix + seq![
                    'u',
                    's',
                    'e',
                    's',
                    ':',
                    ' ',
                ] + source.owner + seq!['/'] + source.repository + seq!['/'] + r.path + seq!['@']
                    + sha,
                None => rewritten_lines(source, sha, lines(contents))[i] == lines(contents)[i],
            },
{
}

proof fn lemma_trim_start_no_break(s: Seq<char>)
    requires
        no_line_break(s),
    ensures
        no_line_break(trim_start(s)),
    decreases s.len(),
{
    if s.len() > 0 && is_whitespace(s[0]) {
        let t = s.drop_first();
        assert forall|i: int| 0 <= i < t.len() implies #[trigger] t[i] != '\n' && t[i] != '\r' by {
            assert(t[i] == s[i + 1]);
        }
        lemma_trim_start_no_break(t);
    }
}

proof fn lemma_trim_end_char_no_break(s: Seq<char>, c: char)
    requires
        no_line_break(s),
    ensures
        no_line_break(trim_end_char(s, c)),
    decreases s.len(),
{
    if s.len() > 0 && s.last() == c {
        let t = s.drop_last();
        assert forall|i: int| 0 <= i < t.len() implies #[trigger] t[i] != '\n' && t[i] != '\r' by {
            assert(t[i] == s[i]);
        }
        lemma_trim_end_char_no_break(t, c);
    }
}

proof fn lemma_subrange_no_break(s: Seq<char>, a: int, b: int)
    requires
        no_line_break(s),
        0 <= a <= b <= s.len(),
    ensures
        no_line_break(s.subrange(a, b)),
{
    assert forall|i: int| 0 <= i < b - a implies #[trigger] s.subrange(a, b)[i] != '\n'
        && s.subrange(a, b)[i] != '\r' by {
        assert(s.subrange(a, b)[i] == s[a + i]);
    }
}

proof fn lemma_word_end_exists(t: Seq<char>)
    ensures
        exists|k: int| is_word_end(t, k),
    decreases t.len(),
{
    if t.len() == 0 || is_whitespace(t[0]) {
        assert(is_word_end(t, 0));
    } else {
        let u = t.drop_first();
        lemma_word_end_exists(u);
        let k = choose|k: int| is_word_end(u, k);
        assert forall|j: int| 0 <= j < k + 1 implies !is_whitespace(t[j]) by {
            if j > 0 {
                assert(t[j] == u[j - 1]);
            }
        }
        if k + 1 < t.len() {
            assert(t[k + 1] == u[k]);
        }
        assert(is_word_end(t, k + 1));
    }
}

/// The parts of a reference found on a line without line breaks hold none either, and its
/// prefix is made of whitespace and dashes.
proof fn lemma_reference_parts(line: Seq<char>)
    requires
        no_line_break(line),
        spec_parse_local_reference(line) is Some,
    ensures
        no_line_break(spec_parse_local_reference(line)->0.prefix),
        no_line_break(spec_parse_local_reference(line)->0.path),
        is_key_prefix(spec_parse_local_reference(line)->0.prefix),
        spec_parse_local_reference(line)->0.path.len() > 0,
{
    let k = find(line, uses_key())->0;
    let kk = choose|i: int| is_first_occurrence(line, uses_key(), i);
    assert(is_first_occurrence(line, uses_key(), kk));
    lemma_subrange_no_break(line, 0, k);
    assert(line.take(k) =~= line.subrange(0, k));
    let after = line.skip(k + uses_key().len());
    lemma_subrange_no_break(line, k + uses_key().len(), line.len() as int);
    assert(after =~= line.subrange(k + uses_key().len(), line.len() as int));
    let value = trim_start(after);
    lemma_trim_start_no_break(after);
    let rest = value.skip(LOCAL_PREFIX@.len() as int);
    lemma_subrange_no_break(value, LOCAL_PREFIX@.len() as int, value.len() as int);
    assert(rest =~= value.subrange(LOCAL_PREFIX@.len() as int, value.len() as int));
    let t = trim_start(rest);
    lemma_trim_start_no_break(rest);
    lemma_word_end_exists(t);
    let w = choose|w: int| is_word_end(t, w);
    let word = first_word(rest)->0;
    assert(word == t.take(w));
    lemma_subrange_no_break(t, 0, w);
    assert(t.take(w) =~= t.subrange(0, w));
    lemma_trim_end_char_no_break(word, '/');
}

proof fn lemma_concat_no_newline(a: Seq<char>, b: Seq<char>)
    requires
        no_newline(a),
        no_newline(b),
    ensures
        no_newline(a + b),
{
    assert forall|i: int| 0 <= i < (a + b).len() implies #[trigger] (a + b)[i] != '\n' by {
        if i < a.len() {
            assert((a + b)[i] == a[i]);
        } else {
            assert((a + b)[i] == b[i - a.len()]);
        }
    }
}

proof fn lemma_find_key_after_prefix(prefix: Seq<char>, rest: Seq<char>)
    requires
        is_key_prefix(prefix),
    ensures
        find(prefix + uses_key() + rest, uses_key()) == Some(prefix.len() as int),
{
    let s = prefix + uses_key() + rest;
    let k = prefix.len() as int;
    assert(s.subrange(k, k + 5) =~= uses_key());
    assert forall|j: int| 0 <= j < k implies !occurs_at(s, uses_key(), j) by {
        assert(s[j] == prefix[j]);
        assert(is_whitespace(prefix[j]) || prefix[j] == '-');
        if occurs_at(s, uses_key(), j) {
            assert(s.subrange(j, j + 5)[0] == s[j]);
        }
    }
    assert(is_first_occurrence(s, uses_key(), k));
    let kk = choose|i: int| is_first_occurrence(s, uses_key(), i);
    lemma_first_occurrence_unique(s, uses_key(), k, kk);
}

proof fn lemma_owner_value_not_local(owner: Seq<char>, more: Seq<char>)
    requires
        is_safe_component(owner),
    ensures
        !starts_with(trim_start(seq![' '] + owner + more), LOCAL_PREFIX@),
{
    let tail = seq![' '] + owner + more;
    assert(is_safe_char(owner[0]));
    assert(tail[1] == owner[0]);
    crate::text::lemma_trim_start_skip(tail, 1);
    let value = tail.skip(1);
    reveal_strlit("./");
    if starts_with(value, LOCAL_PREFIX@) {
        assert(value.take(2)[0] == value[0] && value.take(2)[1] == value[1]);
        assert(value[0] == owner[0]);
        if owner.len() >= 2 {
            assert(value[1] == owner[1]);
            assert(is_safe_char(owner[1]));
        } else {
            assert(owner =~= seq!['.']);
        }
    }
}

/// A rebuilt reference line is no local reference: its `uses:` value starts with the
/// source owner, which is a safe name and so never `.`.
proof fn lemma_rewritten_reference_not_local(source: RepoView, sha: Seq<char>, r: LocalReferenceView)
    requires
        is_key_prefix(r.prefix),
        is_safe_component(source.owner),
    ensures
        spec_parse_local_reference(rewritten_reference(source, sha, r)) is None,
{
    let s = rewritten_reference(source, sha, r);
    let k = r.prefix.len() as int;
    let more = seq!['/'] + source.repository + seq!['/'] + r.path + seq!['@'] + sha;
    let tail = seq![' '] + source.owner + more;
    assert(s =~= r.prefix + uses_key() + tail);
    lemma_find_key_after_prefix(r.prefix, tail);
    assert(s.skip(k + uses_key().len()) =~= tail);
    lemma_owner_value_not_local(source.owner, more);
}

proof fn lemma_no_references_no_paths(ls: Seq<Seq<char>>)
    requires
        forall|i: int| 0 <= i < ls.len() ==> spec_parse_local_reference(#[trigger] ls[i]) is None,
    ensures
        reference_paths(ls).len() == 0,
    decreases ls.len(),
{
    if ls.len() > 0 {
        assert forall|i: int| 0 <= i < ls.len() - 1 implies spec_parse_local_reference(
            #[trigger] ls.drop_last()[i],
        ) is None by {
            assert(ls.drop_last()[i] == ls[i]);
        }
        lemma_no_references_no_paths(ls.drop_last());
        assert(spec_parse_local_reference(ls[ls.len() - 1]) is None);
    }
}

/// Rewriting is idempotent: the rewritten text holds no local reference, so a second pass
/// needs no path to resolve and gives the text back unchanged. This holds for a source
/// whose owner is a safe name, a repository name and commit without `'\n'`, a commit that
/// does not end with `'\r'`, and a text without `'\r'`.
pub proof fn lemma_rewrite_idempotent(source: RepoView, sha: Seq<char>, contents: Seq<char>)
    requires
        is_safe_component(source.owner),
        no_newline(source.repository),
        no_newline(sha),
        !(sha.len() > 0 && sha.last() == '\r'),
        !contents.contains('\r'),
    ensures
        local_reference_paths(spec_rewrite(source, sha, contents)).len() == 0,
        spec_rewrite(source, sha, spec_rewrite(source, sha, contents)) == spec_rewrite(
            source,
            sha,
            contents,
        ),
{
    let ls = lines(contents);
    crate::text::lemma_lines_shape(contents);
    let rs = rewritten_lines(source, sha, ls);
    let ended = ends_with(contents, seq!['\n']);
    assert(no_newline(source.owner)) by {
        assert forall|i: int| 0 <= i < source.owner.len() implies #[trigger] source.owner[i]
            != '\n' by {
            assert(is_safe_char(source.owner[i]));
        }
    }
    let key = seq!['u', 's', 'e', 's', ':', ' '];
    assert(no_newline(key));
    assert(no_newline(seq!['/']));
    assert(no_newline(seq!['@']));
    assert forall|i: int| 0 <= i < rs.len() implies is_bare_line(#[trigger] rs[i])
        && spec_parse_local_reference(rs[i]) is None && (rs[i].len() == 0 ==> ls[i].len() == 0) by {
        assert(no_line_break(ls[i]));
        match spec_parse_local_reference(ls[i]) {
            Some(r) => {
                lemma_reference_parts(ls[i]);
                let x = r.prefix + key + source.owner + seq!['/'] + source.repository + seq!['/']
                    + r.path + seq!['@'];
                assert(no_newline(r.prefix));
                assert(no_newline(r.path));
                lemma_concat_no_newline(r.prefix, key);
                lemma_concat_no_newline(r.prefix + key, source.owner);
                lemma_concat_no_newline(r.prefix + key + source.owner, seq!['/']);
                lemma_concat_no_newline(r.prefix + key + source.owner + seq!['/'], source.repository);
                lemma_concat_no_newline(
                    r.prefix + key + source.owner + seq!['/'] + source.repository,
                    seq!['/'],
                );
                lemma_concat_no_newline(
                    r.prefix + key + source.owner + seq!['/'] + source.repository + seq!['/'],
                    r.path,
                );
                lemma_concat_no_newline(
                    r.prefix + key + source.owner + seq!['/'] + source.repository + seq!['/']
                        + r.path,
                    seq!['@'],
                );
                lemma_concat_no_newline(x, sha);
                assert(rs[i] == rewritten_reference(source, sha, r));
                assert(rewritten_reference(source, sha, r) =~= x + sha);
                if sha.len() > 0 {
                    assert((x + sha).last() == sha.last());
                } else {
                    assert(x + sha =~= x);
                    assert(x.last() == '@');
                }
                lemma_rewritten_reference_not_local(source, sha, r);
            },
            None => {
                assert(rs[i] == ls[i]);
                if ls[i].len() > 0 {
                    assert(ls[i][ls[i].len() - 1] != '\r');
                }
            },
        }
    }
    if !ended && rs.len() > 0 {
        assert(rs.last() == rs[rs.len() - 1]);
        assert(ls.last().len() > 0);
    }
    let tail: Seq<char> = if ended { seq!['\n'] } else { Seq::empty() };
    crate::text::lemma_lines_of_join(rs, ended);
    let out = spec_rewrite(source, sha, contents);
    assert(out == join(rs, seq!['\n']) + tail);
    assert(lines(out) == rs);
    assert(ends_with(out, seq!['\n']) == ended);
    lemma_no_references_no_paths(rs);
    assert(rewritten_lines(source, sha, rs) =~= rs);
}

} // verus!
