//! Repositories, secrets and synced workflows shared by the whole crate.
use vstd::prelude::*;

use crate::text::{from_chars, push_str, slice_chars, to_chars};
use vstd::utf8::encode_utf8;

verus! {

/// A character allowed in an owner or repository name: an ASCII letter or digit, `-`, `_`
/// or `.`. Any other character, non-ASCII ones included, has a UTF-8 byte outside this set.
pub open spec fn is_safe_char(c: char) -> bool {
    let u = c as u32;
    ||| 0x30 <= u <= 0x39
    ||| 0x41 <= u <= 0x5a
    ||| 0x61 <= u <= 0x7a
    ||| u == 0x2d
    ||| u == 0x5f
    ||| u == 0x2e
}

/// A path component that cannot escape or reshape a checkout path: not empty, not `.`
/// or `..`, and made only of safe characters (so it never holds a `/`).
pub open spec fn is_safe_component(s: Seq<char>) -> bool {
    &&& s.len() > 0
    &&& s != seq!['.']
    &&& s != seq!['.', '.']
    &&& forall|i: int| 0 <= i < s.len() ==> is_safe_char(#[trigger] s[i])
}

/// `i` is the position of the first `c` in `s`.
pub open spec fn is_first_index(s: Seq<char>, c: char, i: int) -> bool {
    &&& 0 <= i < s.len()
    &&& s[i] == c
    &&& forall|j: int| 0 <= j < i ==> s[j] != c
}

/// `s` split around its first `c`, as `str::split_once`.
pub open spec fn split_once(s: Seq<char>, c: char) -> Option<(Seq<char>, Seq<char>)> {
    if exists|i: int| is_first_index(s, c, i) {
        let i = choose|i: int| is_first_index(s, c, i);
        Some((s.take(i), s.skip(i + 1)))
    } else {
        None
    }
}

/// A repository as plain values: its owner and its name.
pub struct RepoView {
    pub owner: Seq<char>,
    pub repository: Seq<char>,
}

/// `owner/name` parsed into a repository: split at the first `/`, both sides safe.
pub open spec fn spec_parse_repo(s: Seq<char>) -> Option<RepoView> {
    match split_once(s, '/') {
        Some((owner, name)) => if is_safe_component(owner) && is_safe_component(name) {
            Some(RepoView { owner, repository: name })
        } else {
            None
        },
        None => None,
    }
}

pub proof fn lemma_first_index_unique(s: Seq<char>, c: char, i: int, k: int)
    requires
        is_first_index(s, c, i),
        is_first_index(s, c, k),
    ensures
        i == k,
{
    if i < k {
        assert(s[i] != c);
    } else if k < i {
        assert(s[k] != c);
    }
}

/// `s` split around its first `c`.
pub fn split_once_chars(s: &Vec<char>, c: char) -> (r: Option<(Vec<char>, Vec<char>)>)
    ensures
        match r {
            Some((a, b)) => split_once(s@, c) == Some((a@, b@)),
            None => split_once(s@, c) is None,
        },
{
    let mut i: usize = 0;
    while i < s.len()
        invariant
            i <= s.len(),
            forall|j: int| 0 <= j < i ==> s@[j] != c,
        decreases s.len() - i,
    {
        if s[i] == c {
            proof {
                assert(is_first_index(s@, c, i as int));
                let k = choose|k: int| is_first_index(s@, c, k);
                lemma_first_index_unique(s@, c, i as int, k);
            }
            let a = slice_chars(s, 0, i);
            let b = slice_chars(s, i + 1, s.len());
            assert(a@ =~= s@.take(i as int));
            assert(b@ =~= s@.skip(i + 1));
            return Some((a, b));
        }
        i = i + 1;
    }
    None
}

/// Whether `value` is a safe path component.
pub fn is_safe_component_chars(value: &Vec<char>) -> (r: bool)
    ensures
        r == is_safe_component(value@),
{
    let n = value.len();
    if n == 0 {
        return false;
    }
    if n == 1 && value[0] == '.' {
        assert(value@ =~= seq!['.']);
        return false;
    }
    if n == 2 && value[0] == '.' && value[1] == '.' {
        assert(value@ =~= seq!['.', '.']);
        return false;
    }
    let mut i: usize = 0;
    while i < n
        invariant
            i <= n == value.len(),
            forall|j: int| 0 <= j < i ==> is_safe_char(#[trigger] value@[j]),
        decreases n - i,
    {
        let u = value[i] as u32;
        let ok = (0x30 <= u && u <= 0x39) || (0x41 <= u && u <= 0x5a) || (0x61 <= u && u <= 0x7a)
            || u == 0x2d || u == 0x5f || u == 0x2e;
        if !ok {
            return false;
        }
        i = i + 1;
    }
    proof {
        if n == 1 {
            assert(value@ != seq!['.']) by {
                if value@ == seq!['.'] {
                    assert(value@[0] == '.');
                }
            }
        }
        if n == 2 {
            assert(value@ != seq!['.', '.']) by {
                if value@ == seq!['.', '.'] {
                    assert(value@[0] == '.' && value@[1] == '.');
                }
            }
        }
    }
    true
}

/// Reject path traversal and characters that could produce unsafe checkout paths.
pub fn is_safe_path_component(value: &str) -> (r: bool)
    ensures
        r == is_safe_component(value@),
{
    let chars = to_chars(value);
    is_safe_component_chars(&chars)
}


/// A repository, `owner/name`. Both parts are non-empty.
#[derive(Debug, PartialEq, Eq, Hash)]
pub struct Repo {
    pub owner: String,
    pub repository: String,
}

impl View for Repo {
    type V = RepoView;

    open spec fn view(&self) -> RepoView {
        RepoView { owner: self.owner@, repository: self.repository@ }
    }
}

impl Clone for Repo {
    fn clone(&self) -> (r: Self)
        ensures
            r@ == self@,
    {
        Repo { owner: self.owner.clone(), repository: self.repository.clone() }
    }
}

/// The error of [`Repo::parse`]: the input that is not `owner/name`.
#[derive(Debug, PartialEq, Eq)]
pub struct ParseRepoError(pub String);

impl ParseRepoError {
    /// The message the error displays.
    pub fn message(&self) -> (r: String)
        ensures
            r@ == "invalid repository '"@ + self.0@ + "', expecting format: 'owner/name'"@,
    {
        let mut m = String::from_str("invalid repository '");
        m.append(self.0.as_str());
        m.append("', expecting format: 'owner/name'");
        m
    }
}

impl Repo {
    /// Both parts are non-empty, as the owner and name of a repository are.
    pub open spec fn wf(&self) -> bool {
        self.owner@.len() > 0 && self.repository@.len() > 0
    }

    /// Create a repository identifier from validated owner and name components.
    pub fn new(owner: String, repository: String) -> (r: Repo)
        requires
            owner@.len() > 0,
            repository@.len() > 0,
        ensures
            r.owner@ == owner@,
            r.repository@ == repository@,
            r.wf(),
    {
        Repo { owner, repository }
    }

    /// Parse `owner/name` into a repository identifier.
    pub fn parse(s: &str) -> (r: Result<Repo, ParseRepoError>)
        ensures
            match r {
                Ok(repo) => spec_parse_repo(s@) == Some(repo@) && repo.wf(),
                Err(e) => spec_parse_repo(s@) is None && e.0@ == s@,
            },
    {
        let chars = to_chars(s);
        match parse_repo_chars(&chars) {
            Some(repo) => Ok(repo),
            None => Err(ParseRepoError(String::from_str(s))),
        }
    }
}

/// `owner/name` parsed into a repository.
pub fn parse_repo_chars(s: &Vec<char>) -> (r: Option<Repo>)
    ensures
        match r {
            Some(repo) => spec_parse_repo(s@) == Some(repo@) && repo.wf(),
            None => spec_parse_repo(s@) is None,
        },
{
    match split_once_chars(s, '/') {
        Some((owner, name)) => {
            if is_safe_component_chars(&owner) && is_safe_component_chars(&name) {
                Some(Repo { owner: from_chars(&owner), repository: from_chars(&name) })
            } else {
                None
            }
        },
        None => None,
    }
}

/// Whether two repositories are the same.
pub fn repo_eq(a: &Repo, b: &Repo) -> (r: bool)
    ensures
        r == (a@ == b@),
{
    a.owner == b.owner && a.repository == b.repository
}


impl core::str::FromStr for Repo {
    type Err = ParseRepoError;

    /// Parse `owner/name` into a repository identifier.
    fn from_str(s: &str) -> (r: Result<Repo, ParseRepoError>)
        ensures
            match r {
                Ok(repo) => spec_parse_repo(s@) == Some(repo@) && repo.wf(),
                Err(e) => spec_parse_repo(s@) is None && e.0@ == s@,
            },
    {
        Repo::parse(s)
    }
}

/// The error of creating a secret from an empty value.
#[derive(Debug, Clone, Copy, PartialEq, Eq)]
pub enum GithubTokenError {
    NotEmptyViolated,
}

/// A GitHub token: a non-empty secret.
pub struct GithubToken {
    value: String,
}

impl View for GithubToken {
    type V = Seq<char>;

    closed spec fn view(&self) -> Seq<char> {
        self.value@
    }
}

impl GithubToken {
    #[verifier::type_invariant]
    spec fn not_empty(self) -> bool {
        self.value@.len() > 0
    }

    /// A token holding `value`, which must not be empty.
    pub fn try_new(value: String) -> (r: Result<GithubToken, GithubTokenError>)
        ensures
            match r {
                Ok(token) => value@.len() > 0 && token@ == value@,
                Err(e) => value@.len() == 0 && e == GithubTokenError::NotEmptyViolated,
            },
    {
        if value.as_str().is_empty() {
            Err(GithubTokenError::NotEmptyViolated)
        } else {
            Ok(GithubToken { value })
        }
    }

    /// Expose token only at authentication boundaries that require its raw value.
    pub fn expose_secret(&self) -> (r: &str)
        ensures
            r@ == self@,
            r@.len() > 0,
    {
        proof {
            use_type_invariant(self);
        }
        self.value.as_str()
    }
}

impl Clone for GithubToken {
    fn clone(&self) -> (r: Self)
        ensures
            r@ == self@,
    {
        proof {
            use_type_invariant(self);
        }
        GithubToken { value: self.value.clone() }
    }
}

impl core::str::FromStr for GithubToken {
    type Err = GithubTokenError;

    fn from_str(s: &str) -> (r: Result<GithubToken, GithubTokenError>)
        ensures
            match r {
                Ok(token) => s@.len() > 0 && token@ == s@,
                Err(e) => s@.len() == 0 && e == GithubTokenError::NotEmptyViolated,
            },
    {
        GithubToken::try_new(s.to_owned())
    }
}

impl AsRef<[u8]> for GithubToken {
    /// Return token bytes for libraries that accept byte slices.
    fn as_ref(&self) -> (r: &[u8])
        ensures
            r@ == encode_utf8(self@),
    {
        self.value.as_str().as_bytes()
    }
}


/// The error of creating an app private key from an empty value.
#[derive(Debug, Clone, Copy, PartialEq, Eq)]
pub enum AppPrivateKeyError {
    NotEmptyViolated,
}

/// A GitHub App private key in PEM form: a non-empty secret.
pub struct AppPrivateKey {
    value: String,
}

impl View for AppPrivateKey {
    type V = Seq<char>;

    closed spec fn view(&self) -> Seq<char> {
        self.value@
    }
}

impl AppPrivateKey {
    #[verifier::type_invariant]
    spec fn not_empty(self) -> bool {
        self.value@.len() > 0
    }

    /// A key holding `value`, which must not be empty.
    pub fn try_new(value: String) -> (r: Result<AppPrivateKey, AppPrivateKeyError>)
        ensures
            match r {
                Ok(key) => value@.len() > 0 && key@ == value@,
                Err(e) => value@.len() == 0 && e == AppPrivateKeyError::NotEmptyViolated,
            },
    {
        if value.as_str().is_empty() {
            Err(AppPrivateKeyError::NotEmptyViolated)
        } else {
            Ok(AppPrivateKey { value })
        }
    }

    /// Expose the key only where it is handed to the signing library.
    pub fn expose_secret(&self) -> (r: &str)
        ensures
            r@ == self@,
            r@.len() > 0,
    {
        proof {
            use_type_invariant(self);
        }
        self.value.as_str()
    }
}

impl Clone for AppPrivateKey {
    fn clone(&self) -> (r: Self)
        ensures
            r@ == self@,
    {
        proof {
            use_type_invariant(self);
        }
        AppPrivateKey { value: self.value.clone() }
    }
}

impl core::str::FromStr for AppPrivateKey {
    type Err = AppPrivateKeyError;

    fn from_str(s: &str) -> (r: Result<AppPrivateKey, AppPrivateKeyError>)
        ensures
            match r {
                Ok(key) => s@.len() > 0 && key@ == s@,
                Err(e) => s@.len() == 0 && e == AppPrivateKeyError::NotEmptyViolated,
            },
    {
        AppPrivateKey::try_new(s.to_owned())
    }
}

impl AsRef<[u8]> for AppPrivateKey {
    /// Return key bytes for libraries that accept byte slices.
    fn as_ref(&self) -> (r: &[u8])
        ensures
            r@ == encode_utf8(self@),
    {
        self.value.as_str().as_bytes()
    }
}

/// A workflow as plain values.
pub struct SyncWorkflowView {
    pub file_name: Seq<char>,
    pub sync: Seq<RepoView>,
    pub contents: Seq<char>,
}

/// Workflow that has to be synced.
pub struct SyncWorkflow {
    /// Source file name retained in target repositories.
    pub file_name: String,
    /// Sync targets.
    pub sync: Vec<Repo>,
    /// Workflow contents without sync headers.
    pub contents: String,
}

/// The views of a sequence of repositories.
pub open spec fn repo_views(v: Seq<Repo>) -> Seq<RepoView> {
    v.map_values(|r: Repo| r@)
}

impl View for SyncWorkflow {
    type V = SyncWorkflowView;

    open spec fn view(&self) -> SyncWorkflowView {
        SyncWorkflowView {
            file_name: self.file_name@,
            sync: repo_views(self.sync@),
            contents: self.contents@,
        }
    }
}

/// The views of a sequence of workflows.
pub open spec fn workflow_views(v: Seq<SyncWorkflow>) -> Seq<SyncWorkflowView> {
    v.map_values(|w: SyncWorkflow| w@)
}

/// The file names, in order, of the workflows that sync to `repository`.
pub open spec fn expected_names(workflows: Seq<SyncWorkflowView>, repository: RepoView) -> Seq<
    Seq<char>,
>
    decreases workflows.len(),
{
    if workflows.len() == 0 {
        Seq::empty()
    } else {
        let rest = expected_names(workflows.drop_last(), repository);
        if workflows.last().sync.contains(repository) {
            rest.push(workflows.last().file_name)
        } else {
            rest
        }
    }
}

/// Whether `repositories` holds `repository`.
pub fn contains_repo(repositories: &Vec<Repo>, repository: &Repo) -> (r: bool)
    ensures
        r == repo_views(repositories@).contains(repository@),
{
    let mut i: usize = 0;
    while i < repositories.len()
        invariant
            i <= repositories.len(),
            forall|j: int| 0 <= j < i ==> repositories@[j]@ != repository@,
        decreases repositories.len() - i,
    {
        if repo_eq(&repositories[i], repository) {
            assert(repo_views(repositories@)[i as int] == repository@);
            return true;
        }
        i = i + 1;
    }
    proof {
        if repo_views(repositories@).contains(repository@) {
            let k = choose|k: int|
                0 <= k < repo_views(repositories@).len() && repo_views(repositories@)[k]
                    == repository@;
            assert(repositories@[k]@ == repository@);
        }
    }
    false
}

/// Workflow file names the source writes to one repository.
pub fn expected_workflows(workflows: &[SyncWorkflow], repository: &Repo) -> (r: Vec<String>)
    ensures
        r@.map_values(|s: String| s@) == expected_names(workflow_views(workflows@), repository@),
{
    let mut r: Vec<String> = Vec::new();
    let mut i: usize = 0;
    while i < workflows.len()
        invariant
            i <= workflows.len(),
            r@.map_values(|s: String| s@) == expected_names(
                workflow_views(workflows@).take(i as int),
                repository@,
            ),
        decreases workflows.len() - i,
    {
        let ghost ws = workflow_views(workflows@);
        assert(ws.take(i + 1).drop_last() =~= ws.take(i as int));
        assert(ws.take(i + 1).last() == workflows@[i as int]@);
        let ghost before = r@;
        if contains_repo(&workflows[i].sync, repository) {
            r.push(workflows[i].file_name.clone());
            assert(r@.map_values(|s: String| s@) =~= before.map_values(|s: String| s@).push(
                workflows@[i as int].file_name@,
            ));
        }
        i = i + 1;
    }
    assert(workflow_views(workflows@).take(workflows.len() as int) =~= workflow_views(
        workflows@,
    ));
    r
}

/// A file name is expected for `repository` exactly when some workflow with that name
/// syncs to it.
pub proof fn lemma_expected_names(
    workflows: Seq<SyncWorkflowView>,
    repository: RepoView,
    name: Seq<char>,
)
    ensures
        expected_names(workflows, repository).contains(name) <==> exists|i: int|
            0 <= i < workflows.len() && #[trigger] workflows[i].file_name == name
                && workflows[i].sync.contains(repository),
    decreases workflows.len(),
{
    if workflows.len() > 0 {
        let init = workflows.drop_last();
        lemma_expected_names(init, repository, name);
        let rest = expected_names(init, repository);
        if expected_names(workflows, repository).contains(name) {
            if rest.contains(name) {
                let i = choose|i: int|
                    0 <= i < init.len() && #[trigger] init[i].file_name == name
                        && init[i].sync.contains(repository);
                assert(workflows[i] == init[i]);
            } else {
                let k = choose|k: int|
                    0 <= k < expected_names(workflows, repository).len()
                        && expected_names(workflows, repository)[k] == name;
                assert(workflows[workflows.len() - 1].file_name == name);
            }
        }
        if exists|i: int|
            0 <= i < workflows.len() && #[trigger] workflows[i].file_name == name
                && workflows[i].sync.contains(repository) {
            let i = choose|i: int|
                0 <= i < workflows.len() && #[trigger] workflows[i].file_name == name
                    && workflows[i].sync.contains(repository);
            if i < workflows.len() - 1 {
                assert(init[i] == workflows[i]);
                assert(rest.contains(name));
                let k = choose|k: int| 0 <= k < rest.len() && rest[k] == name;
                if workflows.last().sync.contains(repository) {
                    assert(expected_names(workflows, repository)[k] == name);
                }
            } else {
                let e = expected_names(workflows, repository);
                assert(e[e.len() - 1] == name);
            }
        }
    }
}


/// Writing a repository as `owner/name` and parsing it gives the repository back, for
/// every pair of safe components.
pub proof fn lemma_parse_repo_roundtrip(owner: Seq<char>, name: Seq<char>)
    requires
        is_safe_component(owner),
        is_safe_component(name),
    ensures
        spec_parse_repo(owner + seq!['/'] + name) == Some(RepoView { owner, repository: name }),
{
    let s = owner + seq!['/'] + name;
    let i = owner.len() as int;
    assert forall|j: int| 0 <= j < i implies s[j] != '/' by {
        assert(s[j] == owner[j]);
        assert(is_safe_char(owner[j]));
    }
    assert(is_first_index(s, '/', i));
    let k = choose|k: int| is_first_index(s, '/', k);
    lemma_first_index_unique(s, '/', i, k);
    assert(s.take(i) =~= owner);
    assert(s.skip(i + 1) =~= name);
}

/// A parsed repository can only name a safe checkout path: both parts are safe components,
/// so neither holds a `/` nor is `.` or `..`.
pub proof fn lemma_parsed_repo_is_safe(s: Seq<char>)
    ensures
        spec_parse_repo(s) matches Some(r) ==> {
            &&& is_safe_component(r.owner)
            &&& is_safe_component(r.repository)
            &&& !r.owner.contains('/')
            &&& !r.repository.contains('/')
        },
{
    if let Some(r) = spec_parse_repo(s) {
        assert(!r.owner.contains('/')) by {
            if r.owner.contains('/') {
                let k = choose|k: int| 0 <= k < r.owner.len() && r.owner[k] == '/';
                assert(is_safe_char(r.owner[k]));
            }
        }
        assert(!r.repository.contains('/')) by {
            if r.repository.contains('/') {
                let k = choose|k: int| 0 <= k < r.repository.len() && r.repository[k] == '/';
                assert(is_safe_char(r.repository[k]));
            }
        }
    }
}


/// `owner/name`, the way a repository is written.
pub open spec fn repo_name(r: RepoView) -> Seq<char> {
    r.owner + seq!['/'] + r.repository
}

impl Repo {
    /// `owner/name`.
    pub fn full_name(&self) -> (r: String)
        ensures
            r@ == repo_name(self@),
    {
        let mut out = to_chars(self.owner.as_str());
        out.push('/');
        push_str(&mut out, self.repository.as_str());
        from_chars(&out)
    }
}


/// `s` with every repeat of an earlier element left out.
pub open spec fn unique_repos(s: Seq<RepoView>) -> Seq<RepoView>
    decreases s.len(),
{
    if s.len() == 0 {
        s
    } else if s.drop_last().contains(s.last()) {
        unique_repos(s.drop_last())
    } else {
        unique_repos(s.drop_last()).push(s.last())
    }
}

/// Leaving out repeats keeps every repository once and nothing else.
pub proof fn lemma_unique_repos(s: Seq<RepoView>)
    ensures
        forall|r: RepoView| unique_repos(s).contains(r) <==> s.contains(r),
        forall|i: int, j: int| #![trigger unique_repos(s)[i], unique_repos(s)[j]]
            0 <= i < j < unique_repos(s).len() ==> unique_repos(s)[i] != unique_repos(s)[j],
    decreases s.len(),
{
    if s.len() > 0 {
        let t = s.drop_last();
        lemma_unique_repos(t);
        let u = unique_repos(t);
        assert forall|r: RepoView| unique_repos(s).contains(r) <==> s.contains(r) by {
            if s.contains(r) {
                let k = choose|k: int| 0 <= k < s.len() && s[k] == r;
                if k < t.len() || t.contains(r) {
                    if k < t.len() {
                        assert(t[k] == r);
                    }
                    assert(t.contains(r));
                    assert(u.contains(r));
                    let j = choose|j: int| 0 <= j < u.len() && u[j] == r;
                    assert(unique_repos(s)[j] == r);
                } else {
                    assert(unique_repos(s)[unique_repos(s).len() - 1] == r);
                }
            }
            if unique_repos(s).contains(r) {
                let k = choose|k: int| 0 <= k < unique_repos(s).len() && unique_repos(s)[k] == r;
                if k < u.len() {
                    assert(unique_repos(s)[k] == u[k]);
                    assert(u.contains(r));
                    assert(t.contains(r));
                    let m = choose|m: int| 0 <= m < t.len() && t[m] == r;
                    assert(s[m] == t[m]);
                } else {
                    assert(s[s.len() - 1] == r);
                }
            }
        }
        if !t.contains(s.last()) {
            let e = u.push(s.last());
            assert forall|i: int, j: int| #![trigger e[i], e[j]]
                0 <= i < j < e.len() implies e[i] != e[j] by {
                if j == e.len() - 1 {
                    assert(e[i] == u[i]);
                    if e[i] == e[j] {
                        assert(u.contains(s.last()));
                    }
                } else {
                    assert(e[i] == u[i] && e[j] == u[j]);
                }
            }
        }
    }
}

/// The repositories of `v`, each once, in order of first appearance.
pub fn unique_repositories(v: Vec<Repo>) -> (r: Vec<Repo>)
    ensures
        repo_views(r@) == unique_repos(repo_views(v@)),
{
    let ghost all = repo_views(v@);
    let mut out: Vec<Repo> = Vec::new();
    let mut i: usize = 0;
    assert(all.take(0) =~= Seq::<RepoView>::empty());
    assert(repo_views(out@) =~= Seq::<RepoView>::empty());
    while i < v.len()
        invariant
            i <= v.len(),
            all == repo_views(v@),
            repo_views(out@) == unique_repos(all.take(i as int)),
        decreases v.len() - i,
    {
        let ghost t = all.take(i + 1);
        assert(t.drop_last() =~= all.take(i as int));
        assert(t.last() == v@[i as int]@);
        proof {
            lemma_unique_repos(all.take(i as int));
        }
        let ghost before = out@;
        if !contains_repo(&out, &v[i]) {
            out.push(v[i].clone());
            assert(repo_views(out@) =~= repo_views(before).push(v@[i as int]@));
        }
        i = i + 1;
    }
    assert(all.take(v.len() as int) =~= all);
    out
}

} // verus!
