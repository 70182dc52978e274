use vstd::prelude::*;

use crate::workspace::{RepoSnapshot, SnapView};

verus! {

/// The first `k` characters of an identifier, or all of it when shorter.
pub open spec fn take_k(s: Seq<char>, k: int) -> Seq<char> {
    if k <= s.len() {
        s.take(k)
    } else {
        s
    }
}

/// No other identifier in the list shares the first `k` characters with the
/// one at `i`.
pub open spec fn shares_none(ids: Seq<Seq<char>>, i: int, k: int) -> bool {
    forall|j: int|
        0 <= j < ids.len() && j != i ==> take_k(#[trigger] ids[j], k) != take_k(ids[i], k)
}

/// `k` is the smallest prefix length that distinguishes the identifier at
/// `i` from every other one in the list.
pub open spec fn is_min_plen(ids: Seq<Seq<char>>, i: int, k: int) -> bool {
    &&& 0 <= k
    &&& shares_none(ids, i, k)
    &&& forall|k2: int| 0 <= k2 < k ==> !shares_none(ids, i, k2)
}

/// The commit identifiers of a snapshot, in list order.
pub open spec fn commit_ids(s: SnapView) -> Seq<Seq<char>> {
    Seq::new(s.commits.len(), |j: int| s.commits[j].commit_id)
}

/// The change identifiers of a snapshot, in list order.
pub open spec fn change_ids(s: SnapView) -> Seq<Seq<char>> {
    Seq::new(s.commits.len(), |j: int| s.commits[j].change_id)
}

pub open spec fn sel_ids(s: SnapView, use_change: bool) -> Seq<Seq<char>> {
    if use_change {
        change_ids(s)
    } else {
        commit_ids(s)
    }
}

/// Whether two identifiers agree on their first `k` characters.
fn prefix_eq_k(a: &str, b: &str, k: usize) -> (r: bool)
    ensures
        r == (take_k(a@, k as int) == take_k(b@, k as int)),
{
    let la = a.unicode_len();
    let lb = b.unicode_len();
    let ea = if k <= la {
        k
    } else {
        la
    };
    let eb = if k <= lb {
        k
    } else {
        lb
    };
    proof {
        assert(take_k(a@, k as int).len() == ea);
        assert(take_k(b@, k as int).len() == eb);
    }
    if ea != eb {
        return false;
    }
    let mut idx: usize = 0;
    while idx < ea
        invariant
            idx <= ea,
            ea == eb,
            la == a@.len(),
            lb == b@.len(),
            ea == if k <= la {
                k as int
            } else {
                la as int
            },
            eb == if k <= lb {
                k as int
            } else {
                lb as int
            },
            forall|m: int| 0 <= m < idx ==> a@[m] == b@[m],
        decreases ea - idx,
    {
        let ca = a.get_char(idx);
        let cb = b.get_char(idx);
        if ca != cb {
            proof {
                assert(take_k(a@, k as int)[idx as int] == a@[idx as int]);
                assert(take_k(b@, k as int)[idx as int] == b@[idx as int]);
            }
            return false;
        }
        idx += 1;
    }
    proof {
        assert forall|m: int| 0 <= m < ea implies take_k(a@, k as int)[m] == take_k(
            b@,
            k as int,
        )[m] by {
            assert(take_k(a@, k as int)[m] == a@[m]);
            assert(take_k(b@, k as int)[m] == b@[m]);
        }
        assert(take_k(a@, k as int) =~= take_k(b@, k as int));
    }
    true
}

/// Whether no other identifier of the snapshot shares the first `k`
/// characters with commit `i`'s identifier of the chosen kind.
fn none_shares(repo: &RepoSnapshot, i: usize, k: usize, use_change: bool) -> (r: bool)
    requires
        i < repo@.n(),
    ensures
        r == shares_none(sel_ids(repo@, use_change), i as int, k as int),
{
    let ghost ids = sel_ids(repo@, use_change);
    let n = repo.commits.len();
    let idi = if use_change {
        repo.commits[i].change_id.as_str()
    } else {
        repo.commits[i].commit_id.as_str()
    };
    proof {
        assert(repo@.commits[i as int] == repo.commits@[i as int]@);
        assert(ids[i as int] == idi@);
    }
    let mut j: usize = 0;
    while j < n
        invariant
            j <= n,
            n == repo@.n(),
            i < n,
            ids == sel_ids(repo@, use_change),
            idi@ == ids[i as int],
            forall|a: int|
                0 <= a < j && a != i ==> take_k(#[trigger] ids[a], k as int) != take_k(
                    ids[i as int],
                    k as int,
                ),
        decreases n - j,
    {
        if j != i {
            let idj = if use_change {
                repo.commits[j].change_id.as_str()
            } else {
                repo.commits[j].commit_id.as_str()
            };
            proof {
                assert(repo@.commits[j as int] == repo.commits@[j as int]@);
                assert(ids[j as int] == idj@);
            }
            if prefix_eq_k(idj, idi, k) {
                return false;
            }
        }
        j += 1;
    }
    true
}

/// The shortest-unique-prefix length of commit `i`'s identifier of the
/// chosen kind, relative to every identifier the snapshot knows. The search
/// scans the snapshot's identifiers on each call; a session could cache one
/// index per snapshot generation without changing what is computed.
#[verifier::loop_isolation(true)]
pub fn shortest_unique_prefix_len(repo: &RepoSnapshot, i: usize, use_change: bool) -> (r: usize)
    requires
        repo@.wf(),
        i < repo@.n(),
    ensures
        is_min_plen(sel_ids(repo@, use_change), i as int, r as int),
{
    let ghost ids = sel_ids(repo@, use_change);
    let n = repo.commits.len();
    let mut ml: usize = 0;
    let mut j: usize = 0;
    while j < n
        invariant
            j <= n,
            n == repo@.n(),
            i < n,
            repo@.wf(),
            ids == sel_ids(repo@, use_change),
            forall|a: int| 0 <= a < j ==> (#[trigger] ids[a]).len() <= ml,
        decreases n - j,
    {
        let idj = if use_change {
            repo.commits[j].change_id.as_str()
        } else {
            repo.commits[j].commit_id.as_str()
        };
        proof {
            assert(repo@.commits[j as int] == repo.commits@[j as int]@);
            assert(ids[j as int] == idj@);
        }
        let l = idj.unicode_len();
        if l > ml {
            ml = l;
        }
        j += 1;
    }
    proof {
        assert forall|a: int|
            0 <= a < n && a != i as int implies take_k(#[trigger] ids[a], ml as int) != take_k(
            ids[i as int],
            ml as int,
        ) by {
            assert(take_k(ids[a], ml as int) == ids[a]);
            assert(take_k(ids[i as int], ml as int) == ids[i as int]);
            if a < i as int {
                assert(repo@.commits[a].commit_id != repo@.commits[i as int].commit_id && repo@
                    .commits[a].change_id != repo@.commits[i as int].change_id);
            } else {
                assert(repo@.commits[i as int].commit_id != repo@.commits[a].commit_id && repo@
                    .commits[i as int].change_id != repo@.commits[a].change_id);
            }
            if use_change {
                assert(ids[a] == repo@.commits[a].change_id);
                assert(ids[i as int] == repo@.commits[i as int].change_id);
            } else {
                assert(ids[a] == repo@.commits[a].commit_id);
                assert(ids[i as int] == repo@.commits[i as int].commit_id);
            }
        }
        assert(shares_none(ids, i as int, ml as int));
    }
    let mut k: usize = 0;
    loop
        invariant
            k <= ml,
            n == repo@.n(),
            i < n,
            repo@.wf(),
            ids == sel_ids(repo@, use_change),
            shares_none(ids, i as int, ml as int),
            forall|k2: int| 0 <= k2 < k ==> !shares_none(ids, i as int, k2),
        ensures
            is_min_plen(ids, i as int, k as int),
        decreases ml - k,
    {
        if none_shares(repo, i, k, use_change) {
            break;
        }
        proof {
            assert(k < ml);
        }
        k += 1;
    }
    k
}

/// The position of the first line feed at or after `i`, or the length when
/// there is none.
pub open spec fn first_nl_from(s: Seq<char>, i: int) -> int
    decreases s.len() - i,
{
    if i >= s.len() {
        s.len() as int
    } else if s[i] == '\n' {
        i
    } else {
        first_nl_from(s, i + 1)
    }
}

/// The first line of a description: everything before the first line feed,
/// with a carriage return directly before it stripped; the empty sequence
/// for an empty description.
pub open spec fn first_line(s: Seq<char>) -> Seq<char> {
    let j = first_nl_from(s, 0);
    let e = if j > 0 && j < s.len() && s[j - 1] == '\r' {
        j - 1
    } else {
        j
    };
    s.take(e)
}

/// Extracts the first line of a description.
pub fn first_line_of(s: &str) -> (r: String)
    ensures
        r@ == first_line(s@),
{
    let n = s.unicode_len();
    let mut i: usize = 0;
    while i < n
        invariant
            i <= n,
            n == s@.len(),
            first_nl_from(s@, 0) == first_nl_from(s@, i as int),
            forall|m: int| 0 <= m < i ==> s@[m] != '\n',
        decreases n - i,
    {
        if s.get_char(i) == '\n' {
            break;
        }
        i += 1;
    }
    proof {
        assert(first_nl_from(s@, 0) == i as int);
    }
    let e = if i > 0 && i < n {
        if s.get_char(i - 1) == '\r' {
            i - 1
        } else {
            i
        }
    } else {
        i
    };
    let part = s.substring_char(0, e);
    proof {
        assert(part@ == s@.subrange(0, e as int));
        assert(s@.take(e as int) == s@.subrange(0, e as int));
    }
    part.to_owned()
}

/// The externally visible projection of one commit: identifiers with their
/// shortest-unique-prefix lengths, the message's first line, and the author
/// fields.
#[derive(Debug)]
pub struct Commit {
    pub change_id: String,
    pub change_id_short_len: u8,
    pub commit_id: String,
    pub commit_id_short_len: u8,
    pub message_first_line: String,
    pub author_name: String,
    pub author_email: String,
    pub timestamp: i64,
}

/// A prefix length squeezed into the boundary's byte-sized field: lengths
/// above 255 project to 0.
pub open spec fn clamp_u8(k: int) -> int {
    if k <= 255 {
        k
    } else {
        0
    }
}

/// What the projection of commit `i` must hold.
pub open spec fn proj_matches(s: SnapView, i: int, c: Commit) -> bool {
    &&& c.change_id@ == s.commits[i].change_id
    &&& c.commit_id@ == s.commits[i].commit_id
    &&& exists|k: int|
        #[trigger] is_min_plen(change_ids(s), i, k) && c.change_id_short_len as int == clamp_u8(k)
    &&& exists|k: int|
        #[trigger] is_min_plen(commit_ids(s), i, k) && c.commit_id_short_len as int == clamp_u8(k)
    &&& c.message_first_line@ == first_line(s.commits[i].description)
    &&& c.author_name@ == s.commits[i].author_name
    &&& c.author_email@ == s.commits[i].author_email
    &&& c.timestamp as int == s.commits[i].timestamp
}

/// Projects one commit of the snapshot into the external record. The caller
/// guarantees that `i` belongs to the snapshot; identifiers coming from the
/// pipeline or the head walk always do.
pub fn commit_to_erl_commit(repo: &RepoSnapshot, i: usize) -> (c: Commit)
    requires
        repo@.wf(),
        i < repo@.n(),
    ensures
        proj_matches(repo@, i as int, c),
{
    let cplen = shortest_unique_prefix_len(repo, i, true);
    let iplen = shortest_unique_prefix_len(repo, i, false);
    let change_id_short_len: u8 = if cplen <= 255 {
        cplen as u8
    } else {
        0
    };
    let commit_id_short_len: u8 = if iplen <= 255 {
        iplen as u8
    } else {
        0
    };
    let rec = &repo.commits[i];
    proof {
        assert(repo@.commits[i as int] == repo.commits@[i as int]@);
    }
    let c = Commit {
        change_id: rec.change_id.clone(),
        change_id_short_len,
        commit_id: rec.commit_id.clone(),
        commit_id_short_len,
        message_first_line: first_line_of(rec.description.as_str()),
        author_name: rec.author_name.clone(),
        author_email: rec.author_email.clone(),
        timestamp: rec.timestamp,
    };
    proof {
        assert(is_min_plen(change_ids(repo@), i as int, cplen as int) && c.change_id_short_len
            as int == clamp_u8(cplen as int));
        assert(is_min_plen(commit_ids(repo@), i as int, iplen as int) && c.commit_id_short_len
            as int == clamp_u8(iplen as int));
    }
    c
}

/// The shortest-unique-prefix length is unique: two lengths that are both
/// minimal are equal.
pub proof fn lemma_min_plen_unique(ids: Seq<Seq<char>>, i: int, k1: int, k2: int)
    requires
        is_min_plen(ids, i, k1),
        is_min_plen(ids, i, k2),
    ensures
        k1 == k2,
{
}

/// Re-projecting a commit within one snapshot generation yields the same
/// record: every pair of projections of the same commit agrees on all
/// fields, the prefix lengths included.
pub proof fn lemma_projection_deterministic(s: SnapView, i: int, c1: Commit, c2: Commit)
    requires
        proj_matches(s, i, c1),
        proj_matches(s, i, c2),
    ensures
        c1.change_id@ == c2.change_id@,
        c1.change_id_short_len == c2.change_id_short_len,
        c1.commit_id@ == c2.commit_id@,
        c1.commit_id_short_len == c2.commit_id_short_len,
        c1.message_first_line@ == c2.message_first_line@,
        c1.author_name@ == c2.author_name@,
        c1.author_email@ == c2.author_email@,
        c1.timestamp == c2.timestamp,
{
    let k1 = choose|k: int|
        #[trigger] is_min_plen(change_ids(s), i, k) && c1.change_id_short_len as int == clamp_u8(k);
    let k2 = choose|k: int|
        #[trigger] is_min_plen(change_ids(s), i, k) && c2.change_id_short_len as int == clamp_u8(k);
    lemma_min_plen_unique(change_ids(s), i, k1, k2);
    let k3 = choose|k: int|
        #[trigger] is_min_plen(commit_ids(s), i, k) && c1.commit_id_short_len as int == clamp_u8(k);
    let k4 = choose|k: int|
        #[trigger] is_min_plen(commit_ids(s), i, k) && c2.commit_id_short_len as int == clamp_u8(k);
    lemma_min_plen_unique(commit_ids(s), i, k3, k4);
}

} // verus!
