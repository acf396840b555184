//! The app installation: its owners, the repositories it reaches, and which of those hold
//! synced workflows the source no longer sends them.
use vstd::prelude::*;

use crate::order::{dedup, dedup_strings, lemma_dedup_sorted, lemma_sort_by_key, seq_views, sort_by, sort_by_key, chars_le};
use crate::shared::{parse_repo_chars, repo_views, spec_parse_repo, Repo, RepoView};
use crate::sync::is_expected;
use crate::text::{chars_eq, ends_with, ends_with_chars, to_chars};

verus! {

broadcast use vstd::seq_lib::to_multiset_contains;

/// The workflow directory of a repository.
pub const WORKFLOWS_PATH: &'static str = ".github/workflows";

/// Repositories requested per page.
pub const PER_PAGE: u8 = 100;

/// The owners the app is installed on, from the login of each installation's account:
/// sorted and without repeats.
pub fn owners_from_logins(logins: Vec<String>) -> (r: Vec<String>)
    ensures
        seq_views(r@) == dedup(sort_by_key::<String>(seq_views(logins@))),
{
    dedup_strings(sort_by(logins))
}

/// The owners are in strict order and are exactly the logins.
pub proof fn lemma_owners(logins: Seq<Seq<char>>)
    ensures
        forall|i: int, j: int|
            #![trigger dedup(sort_by_key::<String>(logins))[i], dedup(sort_by_key::<String>(logins))[j]]
            0 <= i < j < dedup(sort_by_key::<String>(logins)).len() ==> chars_le(
                dedup(sort_by_key::<String>(logins))[i],
                dedup(sort_by_key::<String>(logins))[j],
            ) && dedup(sort_by_key::<String>(logins))[i] != dedup(sort_by_key::<String>(logins))[j],
        forall|x: Seq<char>| dedup(sort_by_key::<String>(logins)).contains(x) <==> logins.contains(x),
{
    let s = sort_by_key::<String>(logins);
    lemma_sort_by_key::<String>(logins);
    lemma_dedup_sorted(s);
    assert forall|x: Seq<char>| s.contains(x) <==> logins.contains(x) by {
        assert(s.to_multiset().count(x) == logins.to_multiset().count(x));
    }
}

/// A repository in the installation listing: its name and its owner's login.
pub struct InstallationRepository {
    pub name: String,
    pub owner_login: String,
}

/// The repositories a listing page contributes: those of the wanted owner (of any owner
/// when none is wanted) whose `login/name` parses as a repository, in order.
pub open spec fn page_repositories(items: Seq<(Seq<char>, Seq<char>)>, owner: Option<Seq<char>>) -> Seq<RepoView>
    decreases items.len(),
{
    if items.len() == 0 {
        Seq::empty()
    } else {
        let rest = page_repositories(items.drop_last(), owner);
        let (login, name) = items.last();
        if owner matches Some(o) && login != o {
            rest
        } else {
            match spec_parse_repo(login + seq!['/'] + name) {
                Some(r) => rest.push(r),
                None => rest,
            }
        }
    }
}

/// The views of listing items: `(login, name)`.
pub open spec fn item_views(items: Seq<InstallationRepository>) -> Seq<(Seq<char>, Seq<char>)> {
    items.map_values(|i: InstallationRepository| (i.owner_login@, i.name@))
}

/// The state of listing the installation's repositories page by page: the page to request
/// next, what was kept so far, and whether the last page was seen.
pub struct RepositoryPager {
    owner: Option<String>,
    page: u32,
    repositories: Vec<Repo>,
    done: bool,
}

impl RepositoryPager {
    pub closed spec fn spec_owner(&self) -> Option<Seq<char>> {
        match self.owner {
            Some(o) => Some(o@),
            None => None,
        }
    }

    pub closed spec fn spec_page(&self) -> u32 {
        self.page
    }

    pub closed spec fn spec_done(&self) -> bool {
        self.done
    }

    pub closed spec fn spec_repositories(&self) -> Seq<RepoView> {
        repo_views(self.repositories@)
    }

    /// Start listing at page 1, keeping repositories of `owner` only when it is given.
    pub fn new(owner: Option<String>) -> (r: RepositoryPager)
        ensures
            r.spec_owner() == match owner {
                Some(o) => Some(o@),
                None => None::<Seq<char>>,
            },
            r.spec_page() == 1,
            !r.spec_done(),
            r.spec_repositories() == Seq::<RepoView>::empty(),
    {
        let r = RepositoryPager { owner, page: 1, repositories: Vec::new(), done: false };
        assert(repo_views(r.repositories@) =~= Seq::<RepoView>::empty());
        r
    }

    /// The page to request next.
    pub fn page(&self) -> (r: u32)
        ensures
            r == self.spec_page(),
    {
        self.page
    }

    /// Whether the last page was seen.
    pub fn is_done(&self) -> (r: bool)
        ensures
            r == self.spec_done(),
    {
        self.done
    }

    /// Take in the page just requested. A page shorter than [`PER_PAGE`] is the last one;
    /// after a full page the next is requested.
    pub fn accept(&mut self, items: Vec<InstallationRepository>)
        requires
            !old(self).spec_done(),
            items@.len() >= PER_PAGE ==> old(self).spec_page() < u32::MAX,
        ensures
            final(self).spec_owner() == old(self).spec_owner(),
            final(self).spec_repositories() == old(self).spec_repositories() + page_repositories(
                item_views(items@),
                old(self).spec_owner(),
            ),
            final(self).spec_done() == (items@.len() < PER_PAGE),
            final(self).spec_page() == if items@.len() < PER_PAGE {
                old(self).spec_page()
            } else {
                (old(self).spec_page() + 1) as u32
            },
    {
        let ghost all = item_views(items@);
        let ghost base = repo_views(self.repositories@);
        let count = items.len();
        let mut items = items;
        let ghost mut i: int = 0;
        assert(all.skip(0) =~= all);
        assert(all.take(0) =~= Seq::<(Seq<char>, Seq<char>)>::empty());
        assert(base + page_repositories(all.take(0), self.spec_owner()) =~= base);
        while items.len() > 0
            invariant
                0 <= i <= all.len(),
                item_views(items@) == all.skip(i),
                repo_views(self.repositories@) == base + page_repositories(all.take(i), self.spec_owner()),
                self.owner == old(self).owner,
                self.page == old(self).page,
                self.done == old(self).done,
            decreases items.len(),
        {
            let ghost before = items@;
            let item = items.remove(0);
            proof {
                assert(item_views(items@) =~= item_views(before).drop_first());
                assert(all.skip(i).drop_first() =~= all.skip(i + 1));
                assert(all.take(i + 1).drop_last() =~= all.take(i));
                assert(all.take(i + 1).last() == (item.owner_login@, item.name@)) by {
                    assert(all.skip(i)[0] == all[i]);
                    assert(item_views(before)[0] == (before[0].owner_login@, before[0].name@));
                }
            }
            let login = to_chars(item.owner_login.as_str());
            let wanted = match &self.owner {
                Some(o) => {
                    let o = to_chars(o.as_str());
                    chars_eq(&login, &o)
                },
                None => true,
            };
            let ghost kept = self.repositories@;
            if wanted {
                let mut full = login;
                full.push('/');
                let name = to_chars(item.name.as_str());
                crate::text::append_chars(&mut full, &name);
                assert(full@ == item.owner_login@ + seq!['/'] + item.name@);
                match parse_repo_chars(&full) {
                    Some(repo) => {
                        self.repositories.push(repo);
                        assert(repo_views(self.repositories@) =~= repo_views(kept).push(repo@));
                    },
                    None => {},
                }
            }
            assert(repo_views(self.repositories@) =~= base + page_repositories(all.take(i + 1), self.spec_owner()));
            proof {
                i = i + 1;
            }
        }
        assert(all.take(i) =~= all);
        if count < 100 {
            self.done = true;
        } else {
            self.page = self.page + 1;
        }
    }

    /// The repositories kept over all pages.
    pub fn finish(self) -> (r: Vec<Repo>)
        ensures
            repo_views(r@) == self.spec_repositories(),
    {
        self.repositories
    }
}

/// Whether an entry of a repository's workflow directory may be an orphan, so that its
/// contents are fetched: a file, not among the expected names, named `*.yaml` or `*.yml`.
pub open spec fn is_orphan_candidate(item_type: Seq<char>, name: Seq<char>, expected: Seq<Seq<char>>) -> bool {
    &&& item_type == "file"@
    &&& !expected.contains(name)
    &&& (ends_with(name, ".yaml"@) || ends_with(name, ".yml"@))
}

/// Whether an entry of a repository's workflow directory may be an orphan.
pub fn orphan_candidate(item_type: &str, name: &str, expected: &[String]) -> (r: bool)
    ensures
        r == is_orphan_candidate(item_type@, name@, seq_views(expected@)),
{
    let t = to_chars(item_type);
    let file = to_chars("file");
    if !chars_eq(&t, &file) || is_expected(name, expected) {
        return false;
    }
    let n = to_chars(name);
    let yaml = to_chars(".yaml");
    let yml = to_chars(".yml");
    ends_with_chars(&n, &yaml) || ends_with_chars(&n, &yml)
}

/// An entry of a repository's workflow directory is fetched as a possible orphan exactly
/// when it is a file whose name the source does not write there and whose last five
/// characters are `.yaml` or last four are `.yml`.
pub proof fn lemma_orphan_candidate(item_type: Seq<char>, name: Seq<char>, expected: Seq<Seq<char>>)
    ensures
        is_orphan_candidate(item_type, name, expected) <==> {
            &&& item_type == seq!['f', 'i', 'l', 'e']
            &&& forall|i: int| 0 <= i < expected.len() ==> expected[i] != name
            &&& {
                ||| name.len() >= 5 && name.subrange(name.len() - 5, name.len() as int) == seq![
                    '.',
                    'y',
                    'a',
                    'm',
                    'l',
                ]
                ||| name.len() >= 4 && name.subrange(name.len() - 4, name.len() as int) == seq![
                    '.',
                    'y',
                    'm',
                    'l',
                ]
            }
        },
{
    reveal_strlit("file");
    reveal_strlit(".yaml");
    reveal_strlit(".yml");
    assert(".yaml"@ =~= seq!['.', 'y', 'a', 'm', 'l']);
    assert(".yml"@ =~= seq!['.', 'y', 'm', 'l']);
    assert("file"@ =~= seq!['f', 'i', 'l', 'e']);
    if name.len() >= 5 {
        assert(name.skip(name.len() - 5) =~= name.subrange(name.len() - 5, name.len() as int));
    }
    if name.len() >= 4 {
        assert(name.skip(name.len() - 4) =~= name.subrange(name.len() - 4, name.len() as int));
    }
    if expected.contains(name) {
        let k = choose|k: int| 0 <= k < expected.len() && expected[k] == name;
        assert(expected[k] == name);
    }
}

} // verus!
