use vstd::prelude::*;

use crate::commit::{commit_to_erl_commit, proj_matches, Commit};
use crate::errors::{LoadError, QueryError};
use crate::revset::{alias_plan, table_matches_plan, AliasTable};
use crate::settings::{av_views, EffectiveSettings};

verus! {

/// One commit of the loaded snapshot, as plain values. Parents are indices
/// into the snapshot's commit list; a parent always has a smaller index than
/// its child, so the list order is a topological order, oldest first.
#[derive(Debug)]
pub struct CommitRecord {
    pub commit_id: String,
    pub change_id: String,
    pub parents: Vec<usize>,
    pub description: String,
    pub author_name: String,
    pub author_email: String,
    pub timestamp: i64,
}

pub struct CommitView {
    pub commit_id: Seq<char>,
    pub change_id: Seq<char>,
    pub parents: Seq<usize>,
    pub description: Seq<char>,
    pub author_name: Seq<char>,
    pub author_email: Seq<char>,
    pub timestamp: int,
}

impl View for CommitRecord {
    type V = CommitView;

    open spec fn view(&self) -> CommitView {
        CommitView {
            commit_id: self.commit_id@,
            change_id: self.change_id@,
            parents: self.parents@,
            description: self.description@,
            author_name: self.author_name@,
            author_email: self.author_email@,
            timestamp: self.timestamp as int,
        }
    }
}

/// A named pointer into the commit list: bookmarks and tags alike, as the
/// storage collaborator hands the name table over.
#[derive(Debug)]
pub struct Bookmark {
    pub name: String,
    pub target: usize,
}

pub struct BookmarkView {
    pub name: Seq<char>,
    pub target: usize,
}

impl View for Bookmark {
    type V = BookmarkView;

    open spec fn view(&self) -> BookmarkView {
        BookmarkView { name: self.name@, target: self.target }
    }
}

/// The readonly repository snapshot: an immutable view of the commit graph
/// as of load time, with its bookmark table and the working-copy commit.
#[derive(Debug)]
pub struct RepoSnapshot {
    pub commits: Vec<CommitRecord>,
    pub bookmarks: Vec<Bookmark>,
    pub working_copy: Option<usize>,
}

pub struct SnapView {
    pub commits: Seq<CommitView>,
    pub bookmarks: Seq<BookmarkView>,
    pub working_copy: Option<usize>,
}

impl View for RepoSnapshot {
    type V = SnapView;

    open spec fn view(&self) -> SnapView {
        SnapView {
            commits: self.commits@.map_values(|c: CommitRecord| c@),
            bookmarks: self.bookmarks@.map_values(|b: Bookmark| b@),
            working_copy: self.working_copy,
        }
    }
}

impl SnapView {
    pub open spec fn n(self) -> int {
        self.commits.len() as int
    }

    pub open spec fn parents_of(self, i: int) -> Seq<usize> {
        self.commits[i].parents
    }

    /// Every parent of commit `i` stands earlier in the list.
    pub open spec fn parent_ok(self, i: int) -> bool {
        forall|k: int|
            0 <= k < self.parents_of(i).len() ==> (#[trigger] self.parents_of(i)[k] as int) < i
    }

    pub open spec fn parents_wf(self) -> bool {
        forall|i: int| 0 <= i < self.n() ==> #[trigger] self.parent_ok(i)
    }

    pub open spec fn bookmarks_wf(self) -> bool {
        &&& forall|b: int|
            0 <= b < self.bookmarks.len() ==> (#[trigger] self.bookmarks[b].target as int)
                < self.n()
        &&& match self.working_copy {
            Some(w) => (w as int) < self.n(),
            None => true,
        }
    }

    /// Identifiers are pairwise distinct, so shortest unique prefixes exist.
    pub open spec fn ids_wf(self) -> bool {
        forall|i: int, j: int|
            0 <= i < j < self.n() ==> (#[trigger] self.commits[i].commit_id) != (
            #[trigger] self.commits[j].commit_id) && self.commits[i].change_id
                != self.commits[j].change_id
    }

    pub open spec fn wf(self) -> bool {
        self.parents_wf() && self.bookmarks_wf() && self.ids_wf()
    }

    /// The commits reachable from `d` along parent links, `d` included.
    pub open spec fn reach(self, d: int) -> Set<int>
        decreases d, self.parents_of(d).len() + 1,
    {
        if !(0 <= d < self.n()) {
            Set::empty()
        } else {
            Set::empty().insert(d).union(self.reach_par(d, self.parents_of(d).len() as int))
        }
    }

    /// The union of what the first `k` parents of `d` reach.
    pub open spec fn reach_par(self, d: int, k: int) -> Set<int>
        decreases d, k,
    {
        if k <= 0 {
            Set::empty()
        } else {
            let rest = self.reach_par(d, k - 1);
            let p = self.parents_of(d)[k - 1] as int;
            if 0 <= p < d {
                rest.union(self.reach(p))
            } else {
                rest
            }
        }
    }

    /// Ancestors (inclusive) of a set of commits.
    pub open spec fn anc_of(self, xs: Set<int>) -> Set<int> {
        Set::new(|t: int| exists|d: int| xs.contains(d) && #[trigger] self.reach(d).contains(t))
    }

    /// Descendants (inclusive) of a set of commits.
    pub open spec fn desc_of(self, xs: Set<int>) -> Set<int> {
        Set::new(
            |t: int|
                0 <= t < self.n() && exists|d: int| xs.contains(d) && #[trigger] self.reach(
                    t,
                ).contains(d),
        )
    }

    /// The walk from commit `i` along first parents, newest first.
    pub open spec fn fp_chain(self, i: int) -> Seq<int>
        decreases i,
    {
        if !(0 <= i < self.n()) {
            Seq::empty()
        } else if self.parents_of(i).len() == 0 {
            seq![i]
        } else {
            let p = self.parents_of(i)[0] as int;
            if p < i {
                seq![i] + self.fp_chain(p)
            } else {
                seq![i]
            }
        }
    }
}

/// What the first `k1` parents reach, the first `k2` reach too.
proof fn lemma_reach_par_mono(s: SnapView, d: int, t: int, k1: int, k2: int)
    requires
        k1 <= k2,
        s.reach_par(d, k1).contains(t),
    ensures
        s.reach_par(d, k2).contains(t),
    decreases k2 - k1,
{
    if k1 < k2 {
        lemma_reach_par_mono(s, d, t, k1, k2 - 1);
    }
}

/// Whether commit `t` is an ancestor (inclusive) of commit `d`.
pub fn reaches(repo: &RepoSnapshot, d: usize, t: usize) -> (r: bool)
    requires
        repo@.wf(),
        d < repo@.n(),
        t < repo@.n(),
    ensures
        r == repo@.reach(d as int).contains(t as int),
    decreases d,
{
    if d == t {
        return true;
    }
    let parents = &repo.commits[d].parents;
    let ghost s = repo@;
    proof {
        assert(s.parents_of(d as int) == parents@);
        assert(s.parent_ok(d as int));
    }
    let mut k: usize = 0;
    while k < parents.len()
        invariant
            k <= parents@.len(),
            !s.reach_par(d as int, k as int).contains(t as int),
        decreases parents@.len() - k,
    {
        let p = parents[k];
        proof {
            assert((s.parents_of(d as int)[k as int] as int) < d as int);
        }
        if reaches(repo, p, t) {
            proof {
                assert(s.reach_par(d as int, k + 1).contains(t as int));
                lemma_reach_par_mono(
                    s,
                    d as int,
                    t as int,
                    k + 1,
                    s.parents_of(d as int).len() as int,
                );
                assert(s.reach(d as int).contains(t as int));
            }
            return true;
        }
        proof {
            assert(!s.reach_par(d as int, k + 1).contains(t as int));
        }
        k += 1;
    }
    proof {
        assert(!s.reach(d as int).contains(t as int));
    }
    false
}

/// The loaded session: the effective settings, the readonly snapshot, and
/// the alias table built eagerly from the settings, all held together so one
/// snapshot generation is queried as a unit.
pub struct WorkspaceSettings {
    pub settings: EffectiveSettings,
    pub repo_readonly: RepoSnapshot,
    pub revset_aliases_map: AliasTable,
    pub generation: u64,
}

impl WorkspaceSettings {
    pub open spec fn wf(self) -> bool {
        self.repo_readonly@.wf()
    }
}

fn check_parents(repo: &RepoSnapshot) -> (r: bool)
    ensures
        r == repo@.parents_wf(),
{
    let ghost s = repo@;
    let n = repo.commits.len();
    let mut i: usize = 0;
    while i < n
        invariant
            i <= n,
            n == s.n(),
            s == repo@,
            forall|a: int| 0 <= a < i ==> #[trigger] s.parent_ok(a),
        decreases n - i,
    {
        let parents = &repo.commits[i].parents;
        proof {
            assert(s.parents_of(i as int) == parents@);
        }
        let mut k: usize = 0;
        while k < parents.len()
            invariant
                k <= parents@.len(),
                i < n,
                n == s.n(),
                s == repo@,
                parents@ == s.parents_of(i as int),
                forall|b: int| 0 <= b < k ==> (#[trigger] parents@[b] as int) < i as int,
            decreases parents@.len() - k,
        {
            if parents[k] >= i {
                proof {
                    assert((s.parents_of(i as int)[k as int] as int) >= i as int);
                    assert(!s.parent_ok(i as int));
                    assert(!s.parents_wf());
                }
                return false;
            }
            k += 1;
        }
        proof {
            assert(s.parent_ok(i as int));
        }
        i += 1;
    }
    true
}

fn check_bookmarks(repo: &RepoSnapshot) -> (r: bool)
    ensures
        r == repo@.bookmarks_wf(),
{
    let ghost s = repo@;
    let n = repo.commits.len();
    let mut b: usize = 0;
    while b < repo.bookmarks.len()
        invariant
            b <= repo.bookmarks@.len(),
            n == s.n(),
            s == repo@,
            forall|a: int| 0 <= a < b ==> (#[trigger] s.bookmarks[a].target as int) < s.n(),
        decreases repo.bookmarks@.len() - b,
    {
        proof {
            assert(s.bookmarks[b as int] == repo.bookmarks@[b as int]@);
        }
        if repo.bookmarks[b].target >= n {
            proof {
                assert((s.bookmarks[b as int].target as int) >= s.n());
                assert(!s.bookmarks_wf());
            }
            return false;
        }
        b += 1;
    }
    match repo.working_copy {
        Some(w) => w < n,
        None => true,
    }
}

/// The pairs with first index under `upto` are distinct in both identifier
/// kinds.
pub open spec fn distinct_upto(s: SnapView, upto: int, fringe: int) -> bool {
    forall|a: int, c: int|
        0 <= a < c < s.n() && (a < upto || (a == upto && c < fringe)) ==> (
        #[trigger] s.commits[a].commit_id) != (#[trigger] s.commits[c].commit_id) && s.commits[
            a
        ].change_id != s.commits[c].change_id
}

fn check_ids(repo: &RepoSnapshot) -> (r: bool)
    ensures
        r == repo@.ids_wf(),
{
    let ghost s = repo@;
    let n = repo.commits.len();
    let mut i: usize = 0;
    while i < n
        invariant
            i <= n,
            n == s.n(),
            s == repo@,
            distinct_upto(s, i as int, 0),
        decreases n - i,
    {
        let mut j: usize = i + 1;
        proof {
            assert(distinct_upto(s, i as int, j as int));
        }
        while j < n
            invariant
                i < j <= n,
                i < n,
                n == s.n(),
                s == repo@,
                distinct_upto(s, i as int, j as int),
            decreases n - j,
        {
            proof {
                assert(s.commits[i as int] == repo.commits@[i as int]@);
                assert(s.commits[j as int] == repo.commits@[j as int]@);
            }
            if repo.commits[i].commit_id == repo.commits[j].commit_id {
                proof {
                    assert(s.commits[i as int].commit_id == s.commits[j as int].commit_id);
                    assert(!s.ids_wf());
                }
                return false;
            }
            if repo.commits[i].change_id == repo.commits[j].change_id {
                proof {
                    assert(s.commits[i as int].change_id == s.commits[j as int].change_id);
                    assert(!s.ids_wf());
                }
                return false;
            }
            proof {
                assert forall|a: int, c: int|
                    0 <= a < c < s.n() && (a < i || (a == i && c < j + 1)) implies (
                #[trigger] s.commits[a].commit_id) != (#[trigger] s.commits[c].commit_id)
                    && s.commits[a].change_id != s.commits[c].change_id by {
                    if !(a < i || (a == i && c < j)) {
                        assert(a == i as int && c == j as int);
                    }
                }
                assert(distinct_upto(s, i as int, j + 1));
            }
            j += 1;
        }
        proof {
            assert(j == n);
            assert forall|a: int, c: int|
                0 <= a < c < s.n() && (a < i + 1 || (a == i + 1 && c < 0)) implies (
            #[trigger] s.commits[a].commit_id) != (#[trigger] s.commits[c].commit_id)
                && s.commits[a].change_id != s.commits[c].change_id by {
                if a == i as int {
                    assert(c < j);
                } else {
                    assert(a < i);
                }
                assert(a < i || (a == i && c < j));
            }
            assert(distinct_upto(s, i + 1, 0));
        }
        i += 1;
    }
    proof {
        assert forall|a: int, c: int|
            0 <= a < c < s.n() implies (#[trigger] s.commits[a].commit_id) != (
        #[trigger] s.commits[c].commit_id) && s.commits[a].change_id != s.commits[c].change_id
            by {
            assert(a < i || (a == i && c < 0));
        }
    }
    true
}

/// Assembles a loaded session from what the storage collaborator handed
/// over: validates the snapshot's internal consistency and builds the alias
/// table eagerly from the settings' revset-alias section. The workspace
/// discovery, store opening and head loading themselves are the storage
/// engine's work and happen before this step.
pub fn get_workspace_settings(
    settings: EffectiveSettings,
    repo: RepoSnapshot,
    generation: u64,
) -> (r: Result<WorkspaceSettings, LoadError>)
    ensures
        (r is Ok) == (repo@.wf() && alias_plan(
            av_views(settings.values@),
            settings.values@.len() as int,
        ) is Ok),
        r matches Ok(ws) ==> {
            &&& ws.wf()
            &&& ws.repo_readonly@ == repo@
            &&& ws.settings == settings
            &&& ws.generation == generation
            &&& (alias_plan(av_views(settings.values@), settings.values@.len() as int)
                matches Ok(plan) && table_matches_plan(ws.revset_aliases_map.entries@, plan))
        },
        r matches Err(er) ==> match er {
            LoadError::StoreOpen { .. } => !repo@.wf(),
            LoadError::AliasSyntax { name, cause: _ } => repo@.wf() && (alias_plan(
                av_views(settings.values@),
                settings.values@.len() as int,
            ) matches Err(n) && name@ == n),
            _ => false,
        },
{
    if !(check_parents(&repo) && check_bookmarks(&repo) && check_ids(&repo)) {
        return Err(
            LoadError::StoreOpen {
                cause: String::from_str("snapshot handed over by the store is not consistent"),
            },
        );
    }
    let aliases = match crate::revset::build_alias_table(&settings) {
        Ok(t) => t,
        Err(e) => {
            return Err(e);
        },
    };
    Ok(
        WorkspaceSettings {
            settings,
            repo_readonly: repo,
            revset_aliases_map: aliases,
            generation,
        },
    )
}

/// The convenience walk from the working-copy commit along first parents:
/// exactly `min(limit, chain length)` projections, newest first.
#[verifier::loop_isolation(true)]
pub fn head_chain(ws: &WorkspaceSettings, limit: usize) -> (r: Result<Vec<Commit>, QueryError>)
    requires
        ws.wf(),
    ensures
        match r {
            Ok(v) => {
                &&& ws.repo_readonly@.working_copy is Some
                &&& {
                    let chain = ws.repo_readonly@.fp_chain(
                        ws.repo_readonly@.working_copy->Some_0 as int,
                    );
                    &&& v@.len() == if chain.len() <= limit {
                        chain.len()
                    } else {
                        limit as nat
                    }
                    &&& forall|k: int|
                        0 <= k < v@.len() ==> #[trigger] proj_matches(
                            ws.repo_readonly@,
                            chain[k],
                            v@[k],
                        )
                }
            },
            Err(e) => e matches QueryError::Evaluate { .. }
                && ws.repo_readonly@.working_copy is None,
        },
{
    let repo = &ws.repo_readonly;
    let ghost s = repo@;
    let wc = match repo.working_copy {
        Some(w) => w,
        None => {
            return Err(
                QueryError::Evaluate {
                    cause: String::from_str("the workspace has no working-copy commit"),
                },
            );
        },
    };
    let ghost chain = s.fp_chain(wc as int);
    let mut out: Vec<Commit> = Vec::new();
    if limit == 0 {
        return Ok(out);
    }
    let mut cur = wc;
    proof {
        assert(chain.skip(0) =~= chain);
        assert(chain[0] == wc as int);
    }
    loop
        invariant_except_break
            out@.len() < limit,
            out@.len() < chain.len(),
            s.fp_chain(cur as int) == chain.skip(out@.len() as int),
        invariant
            ws.wf(),
            s == ws.repo_readonly@,
            0 < limit,
            cur < s.n(),
            chain == s.fp_chain(wc as int),
            out@.len() <= limit,
            out@.len() <= chain.len(),
            forall|k: int| 0 <= k < out@.len() ==> #[trigger] proj_matches(s, chain[k], out@[k]),
        ensures
            out@.len() == if chain.len() <= limit {
                chain.len()
            } else {
                limit as nat
            },
            forall|k: int| 0 <= k < out@.len() ==> #[trigger] proj_matches(s, chain[k], out@[k]),
        decreases chain.len() - out@.len(),
    {
        let ghost l0 = out@.len() as int;
        proof {
            assert(s.fp_chain(cur as int)[0] == cur as int);
            assert(chain.skip(l0)[0] == chain[l0]);
            assert(chain[l0] == cur as int);
        }
        let c = commit_to_erl_commit(&ws.repo_readonly, cur);
        out.push(c);
        if out.len() == limit {
            proof {
                assert(out@.len() <= chain.len());
                assert(out@.len() == if chain.len() <= limit {
                    chain.len()
                } else {
                    limit as nat
                });
            }
            break;
        }
        let parents = &ws.repo_readonly.commits[cur].parents;
        proof {
            assert(s.parents_of(cur as int) == parents@);
            assert(s.parent_ok(cur as int));
        }
        if parents.len() == 0 {
            proof {
                assert(s.fp_chain(cur as int) == seq![cur as int]);
                assert(chain.skip(l0).len() == 1);
                assert(chain.len() == l0 + 1);
                assert(chain.len() == out@.len());
                assert(out@.len() == if chain.len() <= limit {
                    chain.len()
                } else {
                    limit as nat
                });
            }
            break;
        }
        let p = parents[0];
        proof {
            assert((s.parents_of(cur as int)[0] as int) < cur as int);
            assert(s.fp_chain(cur as int) == seq![cur as int] + s.fp_chain(p as int));
            assert forall|m: int| 0 <= m < s.fp_chain(p as int).len() implies s.fp_chain(
                p as int,
            )[m] == chain.skip(l0 + 1)[m] by {
                assert(s.fp_chain(cur as int)[m + 1] == s.fp_chain(p as int)[m]);
                assert(chain.skip(l0)[m + 1] == chain[l0 + 1 + m]);
                assert(chain.skip(l0 + 1)[m] == chain[l0 + 1 + m]);
            }
            assert(s.fp_chain(p as int) =~= chain.skip(l0 + 1));
            assert(s.fp_chain(p as int).len() >= 1);
            assert(out@.len() < chain.len());
        }
        cur = p;
    }
    Ok(out)
}

} // verus!
