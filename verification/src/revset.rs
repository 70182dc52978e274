use vstd::prelude::*;

use crate::commit::{change_ids, commit_ids, sel_ids};
use crate::errors::{LoadError, QueryError, ResolveReason};
use crate::settings::{ConfigValue, EffectiveSettings};
use crate::workspace::{reaches, RepoSnapshot, SnapView, WorkspaceSettings};

verus! {

/// A parsed revset expression. Symbols are kept as written; the resolution
/// phase turns them into commit sets. The operator set is a fixed tree
/// here: a new operator is added as a variant together with its semantics,
/// so the evaluator and the proofs stay in step.
#[derive(Debug)]
pub enum RevsetExpression {
    All,
    Nothing,
    WorkingCopy,
    Symbol(String),
    Ancestors(Box<RevsetExpression>),
    Descendants(Box<RevsetExpression>),
    Range(Box<RevsetExpression>, Box<RevsetExpression>),
    Union(Box<RevsetExpression>, Box<RevsetExpression>),
    Intersection(Box<RevsetExpression>, Box<RevsetExpression>),
    Difference(Box<RevsetExpression>, Box<RevsetExpression>),
}

/// A resolved expression: every symbol replaced by concrete commit indices,
/// ranges lowered to an intersection of descendants and ancestors.
#[derive(Debug)]
pub enum ResolvedExpression {
    All,
    Nothing,
    Commits(Vec<usize>),
    Ancestors(Box<ResolvedExpression>),
    Descendants(Box<ResolvedExpression>),
    Union(Box<ResolvedExpression>, Box<ResolvedExpression>),
    Intersection(Box<ResolvedExpression>, Box<ResolvedExpression>),
    Difference(Box<ResolvedExpression>, Box<ResolvedExpression>),
}

/// One user-defined alias: a name and its parsed body.
#[derive(Debug)]
pub struct AliasDef {
    pub name: String,
    pub body: RevsetExpression,
}

/// The session's alias table, built eagerly at load time.
#[derive(Debug)]
pub struct AliasTable {
    pub entries: Vec<AliasDef>,
}

// ---------------------------------------------------------------------------
// the mathematical shape of an unresolved expression
// ---------------------------------------------------------------------------

/// Mathematical shape of a parsed expression: symbols as character
/// sequences, the tree structure kept. Contracts about what a query text
/// means speak of this shape.
pub enum ExprV {
    All,
    Nothing,
    WorkingCopy,
    Symbol(Seq<char>),
    Ancestors(Box<ExprV>),
    Descendants(Box<ExprV>),
    Range(Box<ExprV>, Box<ExprV>),
    Union(Box<ExprV>, Box<ExprV>),
    Intersection(Box<ExprV>, Box<ExprV>),
    Difference(Box<ExprV>, Box<ExprV>),
}

pub open spec fn expr_v(e: RevsetExpression) -> ExprV
    decreases e,
{
    match e {
        RevsetExpression::All => ExprV::All,
        RevsetExpression::Nothing => ExprV::Nothing,
        RevsetExpression::WorkingCopy => ExprV::WorkingCopy,
        RevsetExpression::Symbol(name) => ExprV::Symbol(name@),
        RevsetExpression::Ancestors(sub) => ExprV::Ancestors(Box::new(expr_v(*sub))),
        RevsetExpression::Descendants(sub) => ExprV::Descendants(Box::new(expr_v(*sub))),
        RevsetExpression::Range(a, b) => ExprV::Range(
            Box::new(expr_v(*a)),
            Box::new(expr_v(*b)),
        ),
        RevsetExpression::Union(a, b) => ExprV::Union(
            Box::new(expr_v(*a)),
            Box::new(expr_v(*b)),
        ),
        RevsetExpression::Intersection(a, b) => ExprV::Intersection(
            Box::new(expr_v(*a)),
            Box::new(expr_v(*b)),
        ),
        RevsetExpression::Difference(a, b) => ExprV::Difference(
            Box::new(expr_v(*a)),
            Box::new(expr_v(*b)),
        ),
    }
}

// ---------------------------------------------------------------------------
// semantics of resolved expressions
// ---------------------------------------------------------------------------

pub open spec fn in_list(v: Seq<usize>, t: int) -> bool {
    exists|k: int| 0 <= k < v.len() && (#[trigger] v[k]) as int == t
}

/// The set of commit indices a resolved expression selects.
pub open spec fn sem(s: SnapView, e: ResolvedExpression) -> Set<int>
    decreases e,
{
    match e {
        ResolvedExpression::All => Set::new(|t: int| 0 <= t < s.n()),
        ResolvedExpression::Nothing => Set::empty(),
        ResolvedExpression::Commits(v) => Set::new(|t: int| 0 <= t < s.n() && in_list(v@, t)),
        ResolvedExpression::Ancestors(sub) => s.anc_of(sem(s, *sub)),
        ResolvedExpression::Descendants(sub) => s.desc_of(sem(s, *sub)),
        ResolvedExpression::Union(a, b) => sem(s, *a).union(sem(s, *b)),
        ResolvedExpression::Intersection(a, b) => sem(s, *a).intersect(sem(s, *b)),
        ResolvedExpression::Difference(a, b) => sem(s, *a).difference(sem(s, *b)),
    }
}

/// Everything reachable from `d` lies between 0 and `d`.
pub proof fn lemma_reach_bounds(s: SnapView, d: int)
    ensures
        forall|t: int| #[trigger] s.reach(d).contains(t) ==> 0 <= t <= d && t < s.n(),
    decreases d, s.parents_of(d).len() + 1,
{
    if 0 <= d < s.n() {
        lemma_reach_par_bounds(s, d, s.parents_of(d).len() as int);
        assert forall|t: int| #[trigger] s.reach(d).contains(t) implies 0 <= t <= d && t < s.n()
            by {
            if t != d {
                assert(s.reach_par(d, s.parents_of(d).len() as int).contains(t));
            }
        }
    } else {
        assert(s.reach(d) == Set::<int>::empty());
    }
}

pub proof fn lemma_reach_par_bounds(s: SnapView, d: int, k: int)
    requires
        0 <= d < s.n(),
    ensures
        forall|t: int| #[trigger] s.reach_par(d, k).contains(t) ==> 0 <= t < d && t < s.n(),
    decreases d, k,
{
    if k > 0 {
        lemma_reach_par_bounds(s, d, k - 1);
        let p = s.parents_of(d)[k - 1] as int;
        if 0 <= p < d {
            lemma_reach_bounds(s, p);
        }
        assert forall|t: int| #[trigger] s.reach_par(d, k).contains(t) implies 0 <= t < d && t
            < s.n() by {
            if !s.reach_par(d, k - 1).contains(t) {
                assert(0 <= p < d && s.reach(p).contains(t));
            }
        }
    } else {
        assert(s.reach_par(d, k) == Set::<int>::empty());
    }
}

/// Reachability is transitive: an ancestor of an ancestor is an ancestor.
pub proof fn lemma_reach_trans(s: SnapView, a: int, b: int, c: int)
    requires
        s.reach(a).contains(b),
        s.reach(b).contains(c),
    ensures
        s.reach(a).contains(c),
    decreases a, s.parents_of(a).len() + 1,
{
    if 0 <= a < s.n() {
        if b != a {
            assert(s.reach_par(a, s.parents_of(a).len() as int).contains(b));
            lemma_reach_par_trans(s, a, s.parents_of(a).len() as int, b, c);
        }
    }
}

proof fn lemma_reach_par_trans(s: SnapView, a: int, k: int, b: int, c: int)
    requires
        0 <= a < s.n(),
        s.reach_par(a, k).contains(b),
        s.reach(b).contains(c),
    ensures
        s.reach_par(a, k).contains(c),
    decreases a, k,
{
    if k > 0 {
        let p = s.parents_of(a)[k - 1] as int;
        if s.reach_par(a, k - 1).contains(b) {
            lemma_reach_par_trans(s, a, k - 1, b, c);
        } else {
            assert(0 <= p < a && s.reach(p).contains(b));
            lemma_reach_trans(s, p, b, c);
        }
    }
}

/// Taking ancestors twice adds nothing.
pub proof fn lemma_anc_idempotent(s: SnapView, xs: Set<int>)
    ensures
        s.anc_of(s.anc_of(xs)) == s.anc_of(xs),
{
    assert forall|t: int|
        s.anc_of(s.anc_of(xs)).contains(t) == s.anc_of(xs).contains(t) by {
        if s.anc_of(s.anc_of(xs)).contains(t) {
            let d = choose|d: int|
                s.anc_of(xs).contains(d) && #[trigger] s.reach(d).contains(t);
            let e = choose|e: int| xs.contains(e) && #[trigger] s.reach(e).contains(d);
            lemma_reach_trans(s, e, d, t);
            assert(s.anc_of(xs).contains(t));
        }
        if s.anc_of(xs).contains(t) {
            let e = choose|e: int| xs.contains(e) && #[trigger] s.reach(e).contains(t);
            lemma_reach_bounds(s, e);
            assert(s.reach(t).contains(t));
            assert(s.anc_of(s.anc_of(xs)).contains(t));
        }
    }
    assert(s.anc_of(s.anc_of(xs)) =~= s.anc_of(xs));
}

/// Taking descendants twice adds nothing.
pub proof fn lemma_desc_idempotent(s: SnapView, xs: Set<int>)
    ensures
        s.desc_of(s.desc_of(xs)) == s.desc_of(xs),
{
    assert forall|t: int|
        s.desc_of(s.desc_of(xs)).contains(t) == s.desc_of(xs).contains(t) by {
        if s.desc_of(s.desc_of(xs)).contains(t) {
            let d = choose|d: int|
                s.desc_of(xs).contains(d) && #[trigger] s.reach(t).contains(d);
            let e = choose|e: int| xs.contains(e) && #[trigger] s.reach(d).contains(e);
            lemma_reach_trans(s, t, d, e);
            assert(s.desc_of(xs).contains(t));
        }
        if s.desc_of(xs).contains(t) {
            assert(s.reach(t).contains(t));
            assert(s.desc_of(s.desc_of(xs)).contains(t));
        }
    }
    assert(s.desc_of(s.desc_of(xs)) =~= s.desc_of(xs));
}

/// The selected set always lies inside the snapshot.
pub proof fn lemma_sem_bounded(s: SnapView, e: ResolvedExpression)
    ensures
        forall|t: int| #[trigger] sem(s, e).contains(t) ==> 0 <= t < s.n(),
{
    assert forall|t: int| #[trigger] sem(s, e).contains(t) implies 0 <= t < s.n() by {
        lemma_sem_bounded_at(s, e, t);
    }
}

proof fn lemma_sem_bounded_at(s: SnapView, e: ResolvedExpression, t: int)
    requires
        sem(s, e).contains(t),
    ensures
        0 <= t < s.n(),
    decreases e,
{
    match e {
        ResolvedExpression::Ancestors(sub) => {
            let d = choose|d: int| sem(s, *sub).contains(d) && #[trigger] s.reach(d).contains(t);
            lemma_reach_bounds(s, d);
        },
        ResolvedExpression::Descendants(_) => {},
        ResolvedExpression::Union(a, b) => {
            if sem(s, *a).contains(t) {
                lemma_sem_bounded_at(s, *a, t);
            } else {
                assert(sem(s, *b).contains(t));
                lemma_sem_bounded_at(s, *b, t);
            }
        },
        ResolvedExpression::Intersection(a, b) => {
            assert(sem(s, *a).contains(t));
            lemma_sem_bounded_at(s, *a, t);
        },
        ResolvedExpression::Difference(a, b) => {
            assert(sem(s, *a).contains(t));
            lemma_sem_bounded_at(s, *a, t);
        },
        _ => {},
    }
}

// ---------------------------------------------------------------------------
// symbol resolution
// ---------------------------------------------------------------------------

/// `p` starts `s`.
pub open spec fn is_prefix(p: Seq<char>, s: Seq<char>) -> bool {
    p.len() <= s.len() && s.take(p.len() as int) == p
}

/// The first bookmark index at or after `b` whose name matches, or the table
/// length.
pub open spec fn bm_from(s: SnapView, name: Seq<char>, b: int) -> int
    decreases s.bookmarks.len() - b,
{
    if !(0 <= b < s.bookmarks.len()) {
        s.bookmarks.len() as int
    } else if s.bookmarks[b].name == name {
        b
    } else {
        bm_from(s, name, b + 1)
    }
}

/// The first identifier index at or after `j` that equals `name`, or the
/// list length.
pub open spec fn exact_from(ids: Seq<Seq<char>>, name: Seq<char>, j: int) -> int
    decreases ids.len() - j,
{
    if !(0 <= j < ids.len()) {
        ids.len() as int
    } else if ids[j] == name {
        j
    } else {
        exact_from(ids, name, j + 1)
    }
}

/// The first identifier index at or after `j` that `name` starts, or the
/// list length.
pub open spec fn pref_from(ids: Seq<Seq<char>>, name: Seq<char>, j: int) -> int
    decreases ids.len() - j,
{
    if !(0 <= j < ids.len()) {
        ids.len() as int
    } else if is_prefix(name, ids[j]) {
        j
    } else {
        pref_from(ids, name, j + 1)
    }
}

/// How many of the first `upto` identifiers `name` starts.
pub open spec fn count_pref(ids: Seq<Seq<char>>, name: Seq<char>, upto: int) -> int
    decreases upto,
{
    if upto <= 0 {
        0
    } else {
        count_pref(ids, name, upto - 1) + if is_prefix(name, ids[upto - 1]) {
            1int
        } else {
            0int
        }
    }
}

/// The outcome of looking one symbol up against a snapshot.
pub enum SymbolLookup {
    Found(int),
    Missing,
    Ambi(int),
}

/// Resolves a symbol: first an exact bookmark name, then an exact commit or
/// change identifier, then a unique commit-identifier prefix, then a unique
/// change-identifier prefix. A prefix matching several identifiers is
/// ambiguous; anything else is missing.
pub open spec fn lookup_symbol(s: SnapView, name: Seq<char>) -> SymbolLookup {
    let nb = s.bookmarks.len() as int;
    let n = s.n();
    if bm_from(s, name, 0) < nb {
        SymbolLookup::Found(s.bookmarks[bm_from(s, name, 0)].target as int)
    } else if exact_from(commit_ids(s), name, 0) < n {
        SymbolLookup::Found(exact_from(commit_ids(s), name, 0))
    } else if exact_from(change_ids(s), name, 0) < n {
        SymbolLookup::Found(exact_from(change_ids(s), name, 0))
    } else if count_pref(commit_ids(s), name, n) == 1 {
        SymbolLookup::Found(pref_from(commit_ids(s), name, 0))
    } else if count_pref(commit_ids(s), name, n) >= 2 {
        SymbolLookup::Ambi(count_pref(commit_ids(s), name, n))
    } else if count_pref(change_ids(s), name, n) == 1 {
        SymbolLookup::Found(pref_from(change_ids(s), name, 0))
    } else if count_pref(change_ids(s), name, n) >= 2 {
        SymbolLookup::Ambi(count_pref(change_ids(s), name, n))
    } else {
        SymbolLookup::Missing
    }
}

/// Whether `p` starts `s`, on character level.
fn has_prefix(s: &str, p: &str) -> (r: bool)
    ensures
        r == is_prefix(p@, s@),
{
    let ls = s.unicode_len();
    let lp = p.unicode_len();
    if lp > ls {
        return false;
    }
    let mut idx: usize = 0;
    while idx < lp
        invariant
            idx <= lp,
            lp <= ls,
            ls == s@.len(),
            lp == p@.len(),
            forall|m: int| 0 <= m < idx ==> s@[m] == p@[m],
        decreases lp - idx,
    {
        if s.get_char(idx) != p.get_char(idx) {
            proof {
                assert(s@.take(lp as int)[idx as int] == s@[idx as int]);
            }
            return false;
        }
        idx += 1;
    }
    proof {
        assert forall|m: int| 0 <= m < lp implies s@.take(lp as int)[m] == p@[m] by {
            assert(s@.take(lp as int)[m] == s@[m]);
        }
        assert(s@.take(lp as int) =~= p@);
    }
    true
}

/// Compares two character sequences.
fn str_eq(a: &str, b: &str) -> (r: bool)
    ensures
        r == (a@ == b@),
{
    let la = a.unicode_len();
    let lb = b.unicode_len();
    if la != lb {
        return false;
    }
    let mut idx: usize = 0;
    while idx < la
        invariant
            idx <= la,
            la == lb,
            la == a@.len(),
            lb == b@.len(),
            forall|m: int| 0 <= m < idx ==> a@[m] == b@[m],
        decreases la - idx,
    {
        if a.get_char(idx) != b.get_char(idx) {
            return false;
        }
        idx += 1;
    }
    proof {
        assert(a@ =~= b@);
    }
    true
}

/// The first bookmark whose name matches, or the table length.
fn find_bookmark(repo: &RepoSnapshot, name: &str) -> (r: usize)
    ensures
        r as int == bm_from(repo@, name@, 0),
        r <= repo@.bookmarks.len(),
{
    let nb = repo.bookmarks.len();
    let mut b: usize = 0;
    while b < nb
        invariant
            b <= nb,
            nb == repo@.bookmarks.len(),
            bm_from(repo@, name@, 0) == bm_from(repo@, name@, b as int),
        decreases nb - b,
    {
        proof {
            assert(repo@.bookmarks[b as int] == repo.bookmarks@[b as int]@);
        }
        if str_eq(repo.bookmarks[b].name.as_str(), name) {
            return b;
        }
        b += 1;
    }
    nb
}

/// The identifier of the chosen kind of commit `j`.
fn id_of(repo: &RepoSnapshot, j: usize, use_change: bool) -> (r: &str)
    requires
        j < repo@.n(),
    ensures
        use_change ==> r@ == change_ids(repo@)[j as int],
        !use_change ==> r@ == commit_ids(repo@)[j as int],
{
    proof {
        assert(repo@.commits[j as int] == repo.commits@[j as int]@);
    }
    if use_change {
        repo.commits[j].change_id.as_str()
    } else {
        repo.commits[j].commit_id.as_str()
    }
}

/// The first commit whose identifier of the chosen kind equals the symbol,
/// or the commit count.
fn find_exact(repo: &RepoSnapshot, name: &str, use_change: bool) -> (r: usize)
    ensures
        r as int == exact_from(sel_ids(repo@, use_change), name@, 0),
        r <= repo@.n(),
{
    let ghost ids = sel_ids(repo@, use_change);
    let n = repo.commits.len();
    let mut j: usize = 0;
    while j < n
        invariant
            j <= n,
            n == repo@.n(),
            ids == sel_ids(repo@, use_change),
            ids.len() == n,
            exact_from(ids, name@, 0) == exact_from(ids, name@, j as int),
        decreases n - j,
    {
        let idj = id_of(repo, j, use_change);
        if str_eq(idj, name) {
            return j;
        }
        j += 1;
    }
    n
}

/// Counts the commits whose identifier of the chosen kind the symbol
/// starts, and finds the first of them.
fn count_prefix_matches(repo: &RepoSnapshot, name: &str, use_change: bool) -> (r: (usize, usize))
    ensures
        r.0 as int == count_pref(sel_ids(repo@, use_change), name@, repo@.n()),
        r.0 >= 1 ==> r.1 as int == pref_from(sel_ids(repo@, use_change), name@, 0) && (
        r.1 as int) < repo@.n(),
{
    let ghost ids = sel_ids(repo@, use_change);
    let n = repo.commits.len();
    let mut j: usize = 0;
    let mut cnt: usize = 0;
    let mut first: usize = 0;
    while j < n
        invariant
            j <= n,
            cnt <= j,
            n == repo@.n(),
            ids == sel_ids(repo@, use_change),
            ids.len() == n,
            cnt as int == count_pref(ids, name@, j as int),
            cnt == 0 ==> pref_from(ids, name@, 0) == pref_from(ids, name@, j as int),
            cnt >= 1 ==> first as int == pref_from(ids, name@, 0) && first < n,
        decreases n - j,
    {
        let idj = id_of(repo, j, use_change);
        if has_prefix(idj, name) {
            if cnt == 0 {
                first = j;
                proof {
                    assert(pref_from(ids, name@, j as int) == j as int);
                }
            }
            cnt += 1;
        }
        j += 1;
    }
    (cnt, first)
}

/// Looks one symbol up against the snapshot, with the failure taxonomy of
/// the resolve stage.
fn lookup_symbol_exec(repo: &RepoSnapshot, name: &String) -> (r: Result<usize, QueryError>)
    requires
        repo@.wf(),
    ensures
        match lookup_symbol(repo@, name@) {
            SymbolLookup::Found(t) => r matches Ok(u) && u as int == t && (u as int) < repo@.n(),
            SymbolLookup::Missing => r matches Err(QueryError::Resolve { symbol, reason })
                && symbol@ == name@ && reason is NotFound,
            SymbolLookup::Ambi(c) => r matches Err(QueryError::Resolve { symbol, reason })
                && symbol@ == name@ && (reason matches ResolveReason::Ambiguous { count } && count
                as int == c),
        },
{
    let nb = repo.bookmarks.len();
    let b = find_bookmark(repo, name.as_str());
    if b < nb {
        proof {
            assert(repo@.bookmarks[b as int] == repo.bookmarks@[b as int]@);
        }
        return Ok(repo.bookmarks[b].target);
    }
    let n = repo.commits.len();
    let e1 = find_exact(repo, name.as_str(), false);
    if e1 < n {
        return Ok(e1);
    }
    let e2 = find_exact(repo, name.as_str(), true);
    if e2 < n {
        return Ok(e2);
    }
    let (c1, f1) = count_prefix_matches(repo, name.as_str(), false);
    if c1 == 1 {
        return Ok(f1);
    }
    if c1 >= 2 {
        return Err(
            QueryError::Resolve {
                symbol: name.clone(),
                reason: ResolveReason::Ambiguous { count: c1 },
            },
        );
    }
    let (c2, f2) = count_prefix_matches(repo, name.as_str(), true);
    if c2 == 1 {
        return Ok(f2);
    }
    if c2 >= 2 {
        return Err(
            QueryError::Resolve {
                symbol: name.clone(),
                reason: ResolveReason::Ambiguous { count: c2 },
            },
        );
    }
    Err(QueryError::Resolve { symbol: name.clone(), reason: ResolveReason::NotFound })
}

// ---------------------------------------------------------------------------
// alias expansion and symbol resolution over expressions
// ---------------------------------------------------------------------------

pub open spec fn stack_view(st: Seq<String>) -> Seq<Seq<char>> {
    st.map_values(|x: String| x@)
}

/// The first alias at or after `a` whose name matches, or the table length.
pub open spec fn alias_from(tbl: Seq<AliasDef>, name: Seq<char>, a: int) -> int
    decreases tbl.len() - a,
{
    if !(0 <= a < tbl.len()) {
        tbl.len() as int
    } else if tbl[a].name@ == name {
        a
    } else {
        alias_from(tbl, name, a + 1)
    }
}

/// The set of commits an unresolved expression selects, under an alias
/// table and an expansion stack. An alias whose expansion would exceed the
/// table's size, or revisit a name on the stack, selects nothing (the
/// resolver reports it as a cycle instead).
pub open spec fn presem_set(
    s: SnapView,
    tbl: Seq<AliasDef>,
    stack: Seq<Seq<char>>,
    e: ExprV,
) -> Set<int>
    decreases tbl.len() - stack.len(), e,
{
    match e {
        ExprV::All => Set::new(|t: int| 0 <= t < s.n()),
        ExprV::Nothing => Set::empty(),
        ExprV::WorkingCopy => match s.working_copy {
            Some(w) => Set::empty().insert(w as int),
            None => Set::empty(),
        },
        ExprV::Symbol(name) => {
            let ai = alias_from(tbl, name, 0);
            if ai < tbl.len() {
                if stack.contains(name) || stack.len() >= tbl.len() {
                    Set::empty()
                } else {
                    presem_set(s, tbl, stack.push(name), expr_v(tbl[ai].body))
                }
            } else {
                match lookup_symbol(s, name) {
                    SymbolLookup::Found(t) => Set::empty().insert(t),
                    SymbolLookup::Missing => Set::empty(),
                    SymbolLookup::Ambi(_) => Set::empty(),
                }
            }
        },
        ExprV::Ancestors(sub) => s.anc_of(presem_set(s, tbl, stack, *sub)),
        ExprV::Descendants(sub) => s.desc_of(presem_set(s, tbl, stack, *sub)),
        ExprV::Range(a, b) => s.desc_of(presem_set(s, tbl, stack, *a)).intersect(
            s.anc_of(presem_set(s, tbl, stack, *b)),
        ),
        ExprV::Union(a, b) => presem_set(s, tbl, stack, *a).union(presem_set(s, tbl, stack, *b)),
        ExprV::Intersection(a, b) => presem_set(s, tbl, stack, *a).intersect(
            presem_set(s, tbl, stack, *b),
        ),
        ExprV::Difference(a, b) => presem_set(s, tbl, stack, *a).difference(
            presem_set(s, tbl, stack, *b),
        ),
    }
}

/// What resolving an unresolved expression reports first, scanning the
/// tree left to right: an alias chain that revisits a name on the stack or
/// would exceed the table's size (a cycle), a missing symbol, an ambiguous
/// prefix with its candidate count, or nothing when every symbol resolves.
/// The working copy is the symbol `@`.
pub enum ResolveFailV {
    Cycle(Seq<char>),
    Missing(Seq<char>),
    Ambig(Seq<char>, int),
}

pub open spec fn presem_err(
    s: SnapView,
    tbl: Seq<AliasDef>,
    stack: Seq<Seq<char>>,
    e: ExprV,
) -> Option<ResolveFailV>
    decreases tbl.len() - stack.len(), e,
{
    match e {
        ExprV::All => None,
        ExprV::Nothing => None,
        ExprV::WorkingCopy => if s.working_copy is Some {
            None
        } else {
            Some(ResolveFailV::Missing("@"@))
        },
        ExprV::Symbol(name) => {
            let ai = alias_from(tbl, name, 0);
            if ai < tbl.len() {
                if stack.contains(name) || stack.len() >= tbl.len() {
                    Some(ResolveFailV::Cycle(name))
                } else {
                    presem_err(s, tbl, stack.push(name), expr_v(tbl[ai].body))
                }
            } else {
                match lookup_symbol(s, name) {
                    SymbolLookup::Found(_) => None,
                    SymbolLookup::Missing => Some(ResolveFailV::Missing(name)),
                    SymbolLookup::Ambi(c) => Some(ResolveFailV::Ambig(name, c)),
                }
            }
        },
        ExprV::Ancestors(sub) => presem_err(s, tbl, stack, *sub),
        ExprV::Descendants(sub) => presem_err(s, tbl, stack, *sub),
        ExprV::Range(a, b) => match presem_err(s, tbl, stack, *a) {
            Some(f) => Some(f),
            None => presem_err(s, tbl, stack, *b),
        },
        ExprV::Union(a, b) => match presem_err(s, tbl, stack, *a) {
            Some(f) => Some(f),
            None => presem_err(s, tbl, stack, *b),
        },
        ExprV::Intersection(a, b) => match presem_err(s, tbl, stack, *a) {
            Some(f) => Some(f),
            None => presem_err(s, tbl, stack, *b),
        },
        ExprV::Difference(a, b) => match presem_err(s, tbl, stack, *a) {
            Some(f) => Some(f),
            None => presem_err(s, tbl, stack, *b),
        },
    }
}

/// Resolution succeeds exactly when it reports no failure.
pub open spec fn presem_ok(
    s: SnapView,
    tbl: Seq<AliasDef>,
    stack: Seq<Seq<char>>,
    e: ExprV,
) -> bool {
    presem_err(s, tbl, stack, e) is None
}

/// A query error carries exactly the reported resolution failure: the same
/// kind, the same symbol or alias name, the same candidate count.
pub open spec fn err_matches(er: QueryError, o: Option<ResolveFailV>) -> bool {
    match er {
        QueryError::AliasCycle { name } => o == Some(ResolveFailV::Cycle(name@)),
        QueryError::Resolve { symbol, reason } => match reason {
            ResolveReason::NotFound => o == Some(ResolveFailV::Missing(symbol@)),
            ResolveReason::Ambiguous { count } => o == Some(
                ResolveFailV::Ambig(symbol@, count as int),
            ),
        },
        _ => false,
    }
}

/// The first alias whose name matches, or the table length.
fn find_alias(tbl: &AliasTable, name: &str) -> (r: usize)
    ensures
        r as int == alias_from(tbl.entries@, name@, 0),
        r <= tbl.entries@.len(),
{
    let na = tbl.entries.len();
    let mut a: usize = 0;
    while a < na
        invariant
            a <= na,
            na == tbl.entries@.len(),
            alias_from(tbl.entries@, name@, 0) == alias_from(tbl.entries@, name@, a as int),
        decreases na - a,
    {
        if str_eq(tbl.entries[a].name.as_str(), name) {
            return a;
        }
        a += 1;
    }
    na
}

/// Whether the expansion stack already holds the name.
fn stack_contains(stack: &Vec<String>, name: &str) -> (r: bool)
    ensures
        r == stack_view(stack@).contains(name@),
{
    let mut i: usize = 0;
    while i < stack.len()
        invariant
            i <= stack@.len(),
            forall|m: int| 0 <= m < i ==> #[trigger] stack_view(stack@)[m] != name@,
        decreases stack@.len() - i,
    {
        proof {
            assert(stack_view(stack@)[i as int] == stack@[i as int]@);
        }
        if str_eq(stack[i].as_str(), name) {
            return true;
        }
        i += 1;
    }
    proof {
        if stack_view(stack@).contains(name@) {
            let m = choose|m: int|
                0 <= m < stack_view(stack@).len() && #[trigger] stack_view(stack@)[m] == name@;
            assert(false);
        }
    }
    false
}

/// Resolves an expression against the session: expands aliases (detecting
/// cycles), resolves symbols through the snapshot's lookup order, and lowers
/// ranges. The result selects exactly what the unresolved expression means.
fn resolve_rec(
    repo: &RepoSnapshot,
    tbl: &AliasTable,
    stack: &Vec<String>,
    e: &RevsetExpression,
) -> (r: Result<ResolvedExpression, QueryError>)
    requires
        repo@.wf(),
        stack@.len() <= tbl.entries@.len(),
    ensures
        (r is Ok) == presem_ok(repo@, tbl.entries@, stack_view(stack@), expr_v(*e)),
        r matches Ok(re) ==> forall|t: int|
            #[trigger] sem(repo@, re).contains(t) == presem_set(
                repo@,
                tbl.entries@,
                stack_view(stack@),
                expr_v(*e),
            ).contains(t),
        r matches Err(er) ==> err_matches(
            er,
            presem_err(repo@, tbl.entries@, stack_view(stack@), expr_v(*e)),
        ),
    decreases tbl.entries@.len() - stack@.len(), *e,
{
    let ghost s = repo@;
    let ghost gt = tbl.entries@;
    let ghost sv = stack_view(stack@);
    match e {
        RevsetExpression::All => {
            let rr = ResolvedExpression::All;
            proof {
                assert forall|t: int|
                    #[trigger] sem(s, rr).contains(t) == presem_set(s, gt, sv, expr_v(*e)).contains(t)
                    by {}
            }
            Ok(rr)
        },
        RevsetExpression::Nothing => {
            let rr = ResolvedExpression::Nothing;
            proof {
                assert forall|t: int|
                    #[trigger] sem(s, rr).contains(t) == presem_set(s, gt, sv, expr_v(*e)).contains(t)
                    by {}
            }
            Ok(rr)
        },
        RevsetExpression::WorkingCopy => {
            match repo.working_copy {
                Some(w) => {
                    let mut vv: Vec<usize> = Vec::new();
                    vv.push(w);
                    proof {
                        assert(vv@.len() == 1 && vv@[0] == w);
                    }
                    let out = ResolvedExpression::Commits(vv);
                    proof {
                        assert forall|t: int|
                            #[trigger] sem(s, out).contains(t) == presem_set(
                                s,
                                gt,
                                sv,
                                expr_v(*e),
                            ).contains(t) by {
                            if in_list(vv@, t) {
                                let k = choose|k: int|
                                    0 <= k < vv@.len() && (#[trigger] vv@[k]) as int == t;
                                assert(t == w as int);
                            }
                            if t == w as int {
                                assert((vv@[0]) as int == t);
                                assert(in_list(vv@, t));
                            }
                        }
                    }
                    Ok(out)
                },
                None => Err(
                    QueryError::Resolve {
                        symbol: String::from_str("@"),
                        reason: ResolveReason::NotFound,
                    },
                ),
            }
        },
        RevsetExpression::Symbol(name) => {
            let ai = find_alias(tbl, name.as_str());
            if ai < tbl.entries.len() {
                if stack_contains(stack, name.as_str()) {
                    return Err(QueryError::AliasCycle { name: name.clone() });
                }
                if stack.len() >= tbl.entries.len() {
                    return Err(QueryError::AliasCycle { name: name.clone() });
                }
                let mut stack2 = stack.clone();
                proof {
                    assert forall|m: int| 0 <= m < stack@.len() implies stack2@[m]@ == stack@[m]@
                        by {}
                    assert(stack_view(stack2@) =~= stack_view(stack@));
                }
                stack2.push(name.clone());
                proof {
                    assert(stack_view(stack2@) =~= sv.push(name@));
                }
                match resolve_rec(repo, tbl, &stack2, &tbl.entries[ai].body) {
                    Ok(re) => {
                        proof {
                            assert forall|t: int|
                                #[trigger] sem(s, re).contains(t) == presem_set(
                                    s,
                                    gt,
                                    sv,
                                    expr_v(*e),
                                ).contains(t) by {
                                assert(sem(s, re).contains(t) == presem_set(
                                    s,
                                    gt,
                                    stack_view(stack2@),
                                    expr_v(gt[ai as int].body),
                                ).contains(t));
                                assert(stack_view(stack2@) == sv.push(name@));
                                assert(presem_set(s, gt, sv, expr_v(*e)) == presem_set(
                                    s,
                                    gt,
                                    sv.push(name@),
                                    expr_v(gt[ai as int].body),
                                ));
                            }
                        }
                        Ok(re)
                    },
                    Err(er) => Err(er),
                }
            } else {
                match lookup_symbol_exec(repo, name) {
                    Ok(t) => {
                        let mut vv: Vec<usize> = Vec::new();
                        vv.push(t);
                        proof {
                            assert(vv@.len() == 1 && vv@[0] == t);
                        }
                        let out = ResolvedExpression::Commits(vv);
                        proof {
                            assert forall|u: int|
                                #[trigger] sem(s, out).contains(u) == presem_set(
                                    s,
                                    gt,
                                    sv,
                                    expr_v(*e),
                                ).contains(u) by {
                                if in_list(vv@, u) {
                                    let k = choose|k: int|
                                        0 <= k < vv@.len() && (#[trigger] vv@[k]) as int == u;
                                    assert(u == t as int);
                                }
                                if u == t as int {
                                    assert((vv@[0]) as int == u);
                                    assert(in_list(vv@, u));
                                }
                            }
                        }
                        Ok(out)
                    },
                    Err(er) => Err(er),
                }
            }
        },
        RevsetExpression::Ancestors(sub) => {
            match resolve_rec(repo, tbl, stack, sub) {
                Ok(ra) => {
                    proof {
                        assert(sem(s, ra) =~= presem_set(s, gt, sv, expr_v(**sub)));
                    }
                    let rr = ResolvedExpression::Ancestors(Box::new(ra));
                    proof {
                        assert forall|t: int|
                            #[trigger] sem(s, rr).contains(t) == presem_set(
                                s,
                                gt,
                                sv,
                                expr_v(*e),
                            ).contains(t) by {
                            assert(sem(s, rr) == s.anc_of(sem(s, ra)));
                            assert(presem_set(s, gt, sv, expr_v(*e)) == s.anc_of(
                                presem_set(s, gt, sv, expr_v(**sub)),
                            ));
                            assert(sem(s, ra) == presem_set(s, gt, sv, expr_v(**sub)));
                        }
                    }
                    Ok(rr)
                },
                Err(er) => Err(er),
            }
        },
        RevsetExpression::Descendants(sub) => {
            match resolve_rec(repo, tbl, stack, sub) {
                Ok(ra) => {
                    proof {
                        assert(sem(s, ra) =~= presem_set(s, gt, sv, expr_v(**sub)));
                    }
                    let rr = ResolvedExpression::Descendants(Box::new(ra));
                    proof {
                        assert forall|t: int|
                            #[trigger] sem(s, rr).contains(t) == presem_set(
                                s,
                                gt,
                                sv,
                                expr_v(*e),
                            ).contains(t) by {
                            assert(sem(s, rr) == s.desc_of(sem(s, ra)));
                            assert(presem_set(s, gt, sv, expr_v(*e)) == s.desc_of(
                                presem_set(s, gt, sv, expr_v(**sub)),
                            ));
                            assert(sem(s, ra) == presem_set(s, gt, sv, expr_v(**sub)));
                        }
                    }
                    Ok(rr)
                },
                Err(er) => Err(er),
            }
        },
        RevsetExpression::Range(a, b) => {
            let ra = match resolve_rec(repo, tbl, stack, a) {
                Ok(x) => x,
                Err(er) => {
                    return Err(er);
                },
            };
            let rb = match resolve_rec(repo, tbl, stack, b) {
                Ok(x) => x,
                Err(er) => {
                    return Err(er);
                },
            };
            proof {
                assert(sem(s, ra) =~= presem_set(s, gt, sv, expr_v(**a)));
                assert(sem(s, rb) =~= presem_set(s, gt, sv, expr_v(**b)));
            }
            let ghost gra = ra;
            let ghost grb = rb;
            let da = ResolvedExpression::Descendants(Box::new(ra));
            let ab = ResolvedExpression::Ancestors(Box::new(rb));
            proof {
                assert(sem(s, da) == s.desc_of(sem(s, gra)));
                assert(sem(s, ab) == s.anc_of(sem(s, grb)));
            }
            let rr = ResolvedExpression::Intersection(Box::new(da), Box::new(ab));
            proof {
                assert forall|t: int|
                    #[trigger] sem(s, rr).contains(t) == presem_set(s, gt, sv, expr_v(*e)).contains(t)
                    by {
                    assert(sem(s, rr) == s.desc_of(sem(s, gra)).intersect(s.anc_of(sem(s, grb))));
                    assert(presem_set(s, gt, sv, expr_v(*e)) == s.desc_of(
                        presem_set(s, gt, sv, expr_v(**a)),
                    ).intersect(s.anc_of(presem_set(s, gt, sv, expr_v(**b)))));
                    assert(sem(s, gra) == presem_set(s, gt, sv, expr_v(**a)));
                    assert(sem(s, grb) == presem_set(s, gt, sv, expr_v(**b)));
                }
            }
            Ok(rr)
        },
        RevsetExpression::Union(a, b) => {
            let ra = match resolve_rec(repo, tbl, stack, a) {
                Ok(x) => x,
                Err(er) => {
                    return Err(er);
                },
            };
            let rb = match resolve_rec(repo, tbl, stack, b) {
                Ok(x) => x,
                Err(er) => {
                    return Err(er);
                },
            };
            proof {
                assert(sem(s, ra) =~= presem_set(s, gt, sv, expr_v(**a)));
                assert(sem(s, rb) =~= presem_set(s, gt, sv, expr_v(**b)));
            }
            let rr = ResolvedExpression::Union(Box::new(ra), Box::new(rb));
            proof {
                assert forall|t: int|
                    #[trigger] sem(s, rr).contains(t) == presem_set(s, gt, sv, expr_v(*e)).contains(t)
                    by {
                    assert(sem(s, rr) == sem(s, ra).union(sem(s, rb)));
                    assert(presem_set(s, gt, sv, expr_v(*e)) == presem_set(s, gt, sv, expr_v(**a)).union(
                        presem_set(s, gt, sv, expr_v(**b)),
                    ));
                    assert(sem(s, ra) == presem_set(s, gt, sv, expr_v(**a)));
                    assert(sem(s, rb) == presem_set(s, gt, sv, expr_v(**b)));
                }
            }
            Ok(rr)
        },
        RevsetExpression::Intersection(a, b) => {
            let ra = match resolve_rec(repo, tbl, stack, a) {
                Ok(x) => x,
                Err(er) => {
                    return Err(er);
                },
            };
            let rb = match resolve_rec(repo, tbl, stack, b) {
                Ok(x) => x,
                Err(er) => {
                    return Err(er);
                },
            };
            proof {
                assert(sem(s, ra) =~= presem_set(s, gt, sv, expr_v(**a)));
                assert(sem(s, rb) =~= presem_set(s, gt, sv, expr_v(**b)));
            }
            let rr = ResolvedExpression::Intersection(Box::new(ra), Box::new(rb));
            proof {
                assert forall|t: int|
                    #[trigger] sem(s, rr).contains(t) == presem_set(s, gt, sv, expr_v(*e)).contains(t)
                    by {
                    assert(sem(s, rr) == sem(s, ra).intersect(sem(s, rb)));
                    assert(presem_set(s, gt, sv, expr_v(*e)) == presem_set(s, gt, sv, expr_v(**a)).intersect(
                        presem_set(s, gt, sv, expr_v(**b)),
                    ));
                    assert(sem(s, ra) == presem_set(s, gt, sv, expr_v(**a)));
                    assert(sem(s, rb) == presem_set(s, gt, sv, expr_v(**b)));
                }
            }
            Ok(rr)
        },
        RevsetExpression::Difference(a, b) => {
            let ra = match resolve_rec(repo, tbl, stack, a) {
                Ok(x) => x,
                Err(er) => {
                    return Err(er);
                },
            };
            let rb = match resolve_rec(repo, tbl, stack, b) {
                Ok(x) => x,
                Err(er) => {
                    return Err(er);
                },
            };
            proof {
                assert(sem(s, ra) =~= presem_set(s, gt, sv, expr_v(**a)));
                assert(sem(s, rb) =~= presem_set(s, gt, sv, expr_v(**b)));
            }
            let rr = ResolvedExpression::Difference(Box::new(ra), Box::new(rb));
            proof {
                assert forall|t: int|
                    #[trigger] sem(s, rr).contains(t) == presem_set(s, gt, sv, expr_v(*e)).contains(t)
                    by {
                    assert(sem(s, rr) == sem(s, ra).difference(sem(s, rb)));
                    assert(presem_set(s, gt, sv, expr_v(*e)) == presem_set(s, gt, sv, expr_v(**a)).difference(
                        presem_set(s, gt, sv, expr_v(**b)),
                    ));
                    assert(sem(s, ra) == presem_set(s, gt, sv, expr_v(**a)));
                    assert(sem(s, rb) == presem_set(s, gt, sv, expr_v(**b)));
                }
            }
            Ok(rr)
        },
    }
}

// ---------------------------------------------------------------------------
// optimization
// ---------------------------------------------------------------------------

/// A rewrite applies directly at this node.
pub open spec fn redex(e: ResolvedExpression) -> bool {
    match e {
        ResolvedExpression::Ancestors(sub) => *sub is Nothing || *sub is All
            || *sub is Ancestors,
        ResolvedExpression::Descendants(sub) => *sub is Nothing || *sub is All
            || *sub is Descendants,
        ResolvedExpression::Union(a, b) => *a is Nothing || *b is Nothing || *a is All || *b is All,
        ResolvedExpression::Intersection(a, b) => *a is Nothing || *b is Nothing || *a is All
            || *b is All,
        ResolvedExpression::Difference(a, b) => *a is Nothing || *b is Nothing || *b is All,
        _ => false,
    }
}

/// No rewrite applies anywhere in the tree.
pub open spec fn is_reduced(e: ResolvedExpression) -> bool
    decreases e,
{
    !redex(e) && match e {
        ResolvedExpression::Ancestors(sub) => is_reduced(*sub),
        ResolvedExpression::Descendants(sub) => is_reduced(*sub),
        ResolvedExpression::Union(a, b) => is_reduced(*a) && is_reduced(*b),
        ResolvedExpression::Intersection(a, b) => is_reduced(*a) && is_reduced(*b),
        ResolvedExpression::Difference(a, b) => is_reduced(*a) && is_reduced(*b),
        _ => true,
    }
}

/// Structural equality of resolved expressions, commit lists compared by
/// content.
pub open spec fn eqv(a: ResolvedExpression, b: ResolvedExpression) -> bool
    decreases a,
{
    match (a, b) {
        (ResolvedExpression::All, ResolvedExpression::All) => true,
        (ResolvedExpression::Nothing, ResolvedExpression::Nothing) => true,
        (ResolvedExpression::Commits(v), ResolvedExpression::Commits(w)) => v@ == w@,
        (ResolvedExpression::Ancestors(x), ResolvedExpression::Ancestors(y)) => eqv(*x, *y),
        (ResolvedExpression::Descendants(x), ResolvedExpression::Descendants(y)) => eqv(*x, *y),
        (ResolvedExpression::Union(x1, x2), ResolvedExpression::Union(y1, y2)) => eqv(*x1, *y1)
            && eqv(*x2, *y2),
        (
            ResolvedExpression::Intersection(x1, x2),
            ResolvedExpression::Intersection(y1, y2),
        ) => eqv(*x1, *y1) && eqv(*x2, *y2),
        (ResolvedExpression::Difference(x1, x2), ResolvedExpression::Difference(y1, y2)) => eqv(
            *x1,
            *y1,
        ) && eqv(*x2, *y2),
        _ => false,
    }
}

/// Rewrites a resolved expression into an equivalent cheaper form: identity
/// and absorption with the empty and the full set, applied bottom-up. The
/// result selects the same set against every snapshot, holds no further
/// rewrite, and an already reduced tree comes back unchanged.
pub fn optimize(e: ResolvedExpression) -> (r: ResolvedExpression)
    ensures
        forall|s: SnapView| #[trigger] sem(s, r) == sem(s, e),
        is_reduced(r),
        is_reduced(e) ==> eqv(r, e),
    decreases e,
{
    let ghost ge = e;
    match e {
        ResolvedExpression::All => ResolvedExpression::All,
        ResolvedExpression::Nothing => ResolvedExpression::Nothing,
        ResolvedExpression::Commits(v) => ResolvedExpression::Commits(v),
        ResolvedExpression::Ancestors(sub) => {
            let ghost gs = *sub;
            let o = optimize(*sub);
            if matches!(o, ResolvedExpression::Nothing) {
                let rr = ResolvedExpression::Nothing;
                proof {
                    assert forall|s: SnapView| #[trigger] sem(s, rr) == sem(s, ge) by {
                        assert(sem(s, gs) == sem(s, o));
                        assert(sem(s, ge) =~= sem(s, rr));
                    }
                }
                rr
            } else if matches!(o, ResolvedExpression::All) {
                let rr = ResolvedExpression::All;
                proof {
                    assert forall|s: SnapView| #[trigger] sem(s, rr) == sem(s, ge) by {
                        assert(sem(s, gs) == sem(s, o));
                        assert forall|t: int| sem(s, ge).contains(t) == sem(s, rr).contains(t)
                            by {
                            if sem(s, ge).contains(t) {
                                let d = choose|d: int|
                                    sem(s, gs).contains(d) && #[trigger] s.reach(d).contains(t);
                                lemma_reach_bounds(s, d);
                            }
                            if 0 <= t < s.n() {
                                assert(s.reach(t).contains(t));
                                assert(sem(s, o).contains(t));
                                assert(sem(s, ge).contains(t));
                            }
                        }
                        assert(sem(s, ge) =~= sem(s, rr));
                    }
                }
                rr
            } else if matches!(o, ResolvedExpression::Ancestors(_)) {
                proof {
                    assert forall|s: SnapView| #[trigger] sem(s, o) == sem(s, ge) by {
                        assert(sem(s, gs) == sem(s, o));
                        let z = sem(s, *o->Ancestors_0);
                        assert(sem(s, o) == s.anc_of(z));
                        lemma_anc_idempotent(s, z);
                        assert(sem(s, ge) == s.anc_of(sem(s, gs)));
                    }
                    if is_reduced(ge) {
                        assert(eqv(o, gs));
                        assert(gs is Ancestors);
                        assert(false);
                    }
                }
                o
            } else {
                let rr = ResolvedExpression::Ancestors(Box::new(o));
                proof {
                    assert forall|s: SnapView| #[trigger] sem(s, rr) == sem(s, ge) by {
                        assert(sem(s, gs) == sem(s, o));
                        assert(sem(s, rr) == s.anc_of(sem(s, o)));
                        assert(sem(s, ge) == s.anc_of(sem(s, gs)));
                    }
                }
                rr
            }
        },
        ResolvedExpression::Descendants(sub) => {
            let ghost gs = *sub;
            let o = optimize(*sub);
            if matches!(o, ResolvedExpression::Nothing) {
                let rr = ResolvedExpression::Nothing;
                proof {
                    assert forall|s: SnapView| #[trigger] sem(s, rr) == sem(s, ge) by {
                        assert(sem(s, gs) == sem(s, o));
                        assert(sem(s, ge) =~= sem(s, rr));
                    }
                }
                rr
            } else if matches!(o, ResolvedExpression::All) {
                let rr = ResolvedExpression::All;
                proof {
                    assert forall|s: SnapView| #[trigger] sem(s, rr) == sem(s, ge) by {
                        assert(sem(s, gs) == sem(s, o));
                        assert forall|t: int| 0 <= t < s.n() implies sem(s, ge).contains(t) by {
                            assert(s.reach(t).contains(t));
                            assert(sem(s, o).contains(t));
                        }
                        assert(sem(s, ge) =~= sem(s, rr));
                    }
                }
                rr
            } else if matches!(o, ResolvedExpression::Descendants(_)) {
                proof {
                    assert forall|s: SnapView| #[trigger] sem(s, o) == sem(s, ge) by {
                        assert(sem(s, gs) == sem(s, o));
                        let z = sem(s, *o->Descendants_0);
                        assert(sem(s, o) == s.desc_of(z));
                        lemma_desc_idempotent(s, z);
                        assert(sem(s, ge) == s.desc_of(sem(s, gs)));
                    }
                    if is_reduced(ge) {
                        assert(eqv(o, gs));
                        assert(gs is Descendants);
                        assert(false);
                    }
                }
                o
            } else {
                let rr = ResolvedExpression::Descendants(Box::new(o));
                proof {
                    assert forall|s: SnapView| #[trigger] sem(s, rr) == sem(s, ge) by {
                        assert(sem(s, gs) == sem(s, o));
                        assert(sem(s, rr) == s.desc_of(sem(s, o)));
                        assert(sem(s, ge) == s.desc_of(sem(s, gs)));
                    }
                }
                rr
            }
        },
        ResolvedExpression::Union(a, b) => {
            let ghost ga = *a;
            let ghost gb = *b;
            let oa = optimize(*a);
            let ob = optimize(*b);
            if matches!(oa, ResolvedExpression::Nothing) {
                proof {
                    assert forall|s: SnapView| #[trigger] sem(s, ob) == sem(s, ge) by {
                        assert(sem(s, ga) == sem(s, oa));
                        assert(sem(s, gb) == sem(s, ob));
                        assert(sem(s, ge) =~= sem(s, ob));
                    }
                }
                ob
            } else if matches!(ob, ResolvedExpression::Nothing) {
                proof {
                    assert forall|s: SnapView| #[trigger] sem(s, oa) == sem(s, ge) by {
                        assert(sem(s, ga) == sem(s, oa));
                        assert(sem(s, gb) == sem(s, ob));
                        assert(sem(s, ge) =~= sem(s, oa));
                    }
                }
                oa
            } else if matches!(oa, ResolvedExpression::All) || matches!(
                ob,
                ResolvedExpression::All,
            ) {
                let rr = ResolvedExpression::All;
                proof {
                    assert forall|s: SnapView| #[trigger] sem(s, rr) == sem(s, ge) by {
                        assert(sem(s, ga) == sem(s, oa));
                        assert(sem(s, gb) == sem(s, ob));
                        lemma_sem_bounded(s, oa);
                        lemma_sem_bounded(s, ob);
                        assert(sem(s, ge) =~= sem(s, rr));
                    }
                }
                rr
            } else {
                let rr = ResolvedExpression::Union(Box::new(oa), Box::new(ob));
                proof {
                    assert forall|s: SnapView| #[trigger] sem(s, rr) == sem(s, ge) by {
                        assert(sem(s, ga) == sem(s, oa));
                        assert(sem(s, gb) == sem(s, ob));
                        assert(sem(s, rr) == sem(s, oa).union(sem(s, ob)));
                        assert(sem(s, ge) == sem(s, ga).union(sem(s, gb)));
                    }
                }
                rr
            }
        },
        ResolvedExpression::Intersection(a, b) => {
            let ghost ga = *a;
            let ghost gb = *b;
            let oa = optimize(*a);
            let ob = optimize(*b);
            if matches!(oa, ResolvedExpression::Nothing) || matches!(
                ob,
                ResolvedExpression::Nothing,
            ) {
                let rr = ResolvedExpression::Nothing;
                proof {
                    assert forall|s: SnapView| #[trigger] sem(s, rr) == sem(s, ge) by {
                        assert(sem(s, ga) == sem(s, oa));
                        assert(sem(s, gb) == sem(s, ob));
                        assert(sem(s, ge) =~= sem(s, rr));
                    }
                }
                rr
            } else if matches!(oa, ResolvedExpression::All) {
                proof {
                    assert forall|s: SnapView| #[trigger] sem(s, ob) == sem(s, ge) by {
                        assert(sem(s, ga) == sem(s, oa));
                        assert(sem(s, gb) == sem(s, ob));
                        lemma_sem_bounded(s, ob);
                        assert(sem(s, ge) =~= sem(s, ob));
                    }
                }
                ob
            } else if matches!(ob, ResolvedExpression::All) {
                proof {
                    assert forall|s: SnapView| #[trigger] sem(s, oa) == sem(s, ge) by {
                        assert(sem(s, ga) == sem(s, oa));
                        assert(sem(s, gb) == sem(s, ob));
                        lemma_sem_bounded(s, oa);
                        assert(sem(s, ge) =~= sem(s, oa));
                    }
                }
                oa
            } else {
                let rr = ResolvedExpression::Intersection(Box::new(oa), Box::new(ob));
                proof {
                    assert forall|s: SnapView| #[trigger] sem(s, rr) == sem(s, ge) by {
                        assert(sem(s, ga) == sem(s, oa));
                        assert(sem(s, gb) == sem(s, ob));
                        assert(sem(s, rr) == sem(s, oa).intersect(sem(s, ob)));
                        assert(sem(s, ge) == sem(s, ga).intersect(sem(s, gb)));
                    }
                }
                rr
            }
        },
        ResolvedExpression::Difference(a, b) => {
            let ghost ga = *a;
            let ghost gb = *b;
            let oa = optimize(*a);
            let ob = optimize(*b);
            if matches!(oa, ResolvedExpression::Nothing) {
                let rr = ResolvedExpression::Nothing;
                proof {
                    assert forall|s: SnapView| #[trigger] sem(s, rr) == sem(s, ge) by {
                        assert(sem(s, ga) == sem(s, oa));
                        assert(sem(s, gb) == sem(s, ob));
                        assert(sem(s, ge) =~= sem(s, rr));
                    }
                }
                rr
            } else if matches!(ob, ResolvedExpression::Nothing) {
                proof {
                    assert forall|s: SnapView| #[trigger] sem(s, oa) == sem(s, ge) by {
                        assert(sem(s, ga) == sem(s, oa));
                        assert(sem(s, gb) == sem(s, ob));
                        assert(sem(s, ge) =~= sem(s, oa));
                    }
                }
                oa
            } else if matches!(ob, ResolvedExpression::All) {
                let rr = ResolvedExpression::Nothing;
                proof {
                    assert forall|s: SnapView| #[trigger] sem(s, rr) == sem(s, ge) by {
                        assert(sem(s, ga) == sem(s, oa));
                        assert(sem(s, gb) == sem(s, ob));
                        lemma_sem_bounded(s, oa);
                        assert(sem(s, ge) =~= sem(s, rr));
                    }
                }
                rr
            } else {
                let rr = ResolvedExpression::Difference(Box::new(oa), Box::new(ob));
                proof {
                    assert forall|s: SnapView| #[trigger] sem(s, rr) == sem(s, ge) by {
                        assert(sem(s, ga) == sem(s, oa));
                        assert(sem(s, gb) == sem(s, ob));
                        assert(sem(s, rr) == sem(s, oa).difference(sem(s, ob)));
                        assert(sem(s, ge) == sem(s, ga).difference(sem(s, gb)));
                    }
                }
                rr
            }
        },
    }
}

// ---------------------------------------------------------------------------
// evaluation
// ---------------------------------------------------------------------------

/// Whether commit `t` belongs to the selected set.
fn eval_mem(repo: &RepoSnapshot, e: &ResolvedExpression, t: usize) -> (r: bool)
    requires
        repo@.wf(),
        t < repo@.n(),
    ensures
        r == sem(repo@, *e).contains(t as int),
    decreases *e,
{
    let ghost s = repo@;
    let n = repo.commits.len();
    match e {
        ResolvedExpression::All => true,
        ResolvedExpression::Nothing => false,
        ResolvedExpression::Commits(v) => {
            let mut k: usize = 0;
            while k < v.len()
                invariant
                    k <= v@.len(),
                    forall|m: int| 0 <= m < k ==> (#[trigger] v@[m]) as int != t as int,
                decreases v@.len() - k,
            {
                if v[k] == t {
                    return true;
                }
                k += 1;
            }
            proof {
                assert(!in_list(v@, t as int));
            }
            false
        },
        ResolvedExpression::Ancestors(sub) => {
            let mut d: usize = 0;
            while d < n
                invariant
                    d <= n,
                    n == s.n(),
                    s == repo@,
                    t < n,
                    forall|m: int|
                        0 <= m < d ==> !(sem(s, **sub).contains(m) && #[trigger] s.reach(
                            m,
                        ).contains(t as int)),
                decreases n - d,
            {
                if eval_mem(repo, sub, d) {
                    if reaches(repo, d, t) {
                        proof {
                            assert(sem(s, *e).contains(t as int));
                        }
                        return true;
                    }
                }
                d += 1;
            }
            proof {
                if sem(s, *e).contains(t as int) {
                    let dd = choose|dd: int|
                        sem(s, **sub).contains(dd) && #[trigger] s.reach(dd).contains(t as int);
                    lemma_sem_bounded(s, **sub);
                }
            }
            false
        },
        ResolvedExpression::Descendants(sub) => {
            let mut d: usize = 0;
            while d < n
                invariant
                    d <= n,
                    n == s.n(),
                    s == repo@,
                    t < n,
                    forall|m: int|
                        0 <= m < d ==> !(sem(s, **sub).contains(m) && #[trigger] s.reach(
                            t as int,
                        ).contains(m)),
                decreases n - d,
            {
                if eval_mem(repo, sub, d) {
                    if reaches(repo, t, d) {
                        proof {
                            assert(sem(s, *e).contains(t as int));
                        }
                        return true;
                    }
                }
                d += 1;
            }
            proof {
                if sem(s, *e).contains(t as int) {
                    let dd = choose|dd: int|
                        sem(s, **sub).contains(dd) && #[trigger] s.reach(t as int).contains(dd);
                    lemma_sem_bounded(s, **sub);
                }
            }
            false
        },
        ResolvedExpression::Union(a, b) => {
            if eval_mem(repo, a, t) {
                true
            } else {
                eval_mem(repo, b, t)
            }
        },
        ResolvedExpression::Intersection(a, b) => {
            if eval_mem(repo, a, t) {
                eval_mem(repo, b, t)
            } else {
                false
            }
        },
        ResolvedExpression::Difference(a, b) => {
            if eval_mem(repo, a, t) {
                !eval_mem(repo, b, t)
            } else {
                false
            }
        },
    }
}

/// The selected set listed in the default order: reverse topological, that
/// is descending index, newest first.
pub open spec fn enum_set(xs: Set<int>, from: int) -> Seq<int>
    decreases from,
{
    if from <= 0 {
        Seq::empty()
    } else if xs.contains(from - 1) {
        seq![from - 1] + enum_set(xs, from - 1)
    } else {
        enum_set(xs, from - 1)
    }
}

/// The listing is strictly descending and bounded.
pub proof fn lemma_enum_set_desc(xs: Set<int>, from: int)
    ensures
        forall|k: int|
            0 <= k < enum_set(xs, from).len() ==> 0 <= #[trigger] enum_set(xs, from)[k] < from,
        forall|k1: int, k2: int|
            0 <= k1 < k2 < enum_set(xs, from).len() ==> #[trigger] enum_set(xs, from)[k1]
                > #[trigger] enum_set(xs, from)[k2],
        forall|t: int| enum_set(xs, from).contains(t) == (xs.contains(t) && 0 <= t < from),
    decreases from,
{
    if from > 0 {
        lemma_enum_set_desc(xs, from - 1);
        let whole = enum_set(xs, from);
        let rest = enum_set(xs, from - 1);
        if xs.contains(from - 1) {
            assert(whole == seq![from - 1] + rest);
            assert forall|k: int| 0 <= k < whole.len() implies 0 <= #[trigger] whole[k] < from by {
                if k > 0 {
                    assert(whole[k] == rest[k - 1]);
                }
            }
            assert forall|t: int| whole.contains(t) == (xs.contains(t) && 0 <= t < from) by {
                if whole.contains(t) {
                    let k = choose|k: int| 0 <= k < whole.len() && whole[k] == t;
                    if k > 0 {
                        assert(rest[k - 1] == t);
                        assert(rest.contains(t));
                    }
                }
                if xs.contains(t) && 0 <= t < from {
                    if t == from - 1 {
                        assert(whole[0] == t);
                    } else {
                        assert(rest.contains(t));
                        let k = choose|k: int| 0 <= k < rest.len() && rest[k] == t;
                        assert(whole[k + 1] == t);
                    }
                }
            }
        } else {
            assert forall|t: int| whole.contains(t) == (xs.contains(t) && 0 <= t < from) by {
                if xs.contains(t) && 0 <= t < from {
                    assert(t != from - 1);
                }
            }
        }
    }
}

/// Walks the snapshot newest-first and lists every selected commit.
fn evaluate_resolved(repo: &RepoSnapshot, e: &ResolvedExpression) -> (r: Vec<usize>)
    requires
        repo@.wf(),
    ensures
        r@.map_values(|u: usize| u as int) == enum_set(sem(repo@, *e), repo@.n()),
{
    let ghost s = repo@;
    let ghost xs = sem(repo@, *e);
    let n = repo.commits.len();
    let mut out: Vec<usize> = Vec::new();
    let mut t = n;
    proof {
        assert(out@.map_values(|u: usize| u as int) + enum_set(xs, n as int) =~= enum_set(
            xs,
            n as int,
        ));
    }
    while t > 0
        invariant
            t <= n,
            n == s.n(),
            s == repo@,
            repo@.wf(),
            xs == sem(repo@, *e),
            out@.map_values(|u: usize| u as int) + enum_set(xs, t as int) == enum_set(
                xs,
                n as int,
            ),
        decreases t,
    {
        t -= 1;
        let ghost prev = out@;
        if eval_mem(repo, e, t) {
            out.push(t);
            proof {
                assert(out@.map_values(|u: usize| u as int) =~= prev.map_values(
                    |u: usize| u as int,
                ).push(t as int));
                assert(enum_set(xs, t + 1) == seq![t as int] + enum_set(xs, t as int));
                assert(out@.map_values(|u: usize| u as int) + enum_set(xs, t as int) =~= prev
                    .map_values(|u: usize| u as int) + enum_set(xs, t + 1));
            }
        } else {
            proof {
                assert(enum_set(xs, t + 1) == enum_set(xs, t as int));
            }
        }
    }
    proof {
        assert(enum_set(xs, 0) =~= Seq::<int>::empty());
        assert(out@.map_values(|u: usize| u as int) =~= out@.map_values(|u: usize| u as int)
            + enum_set(xs, 0));
    }
    out
}

/// Every commit has at most one parent: the history is first-parent linear.
pub open spec fn linear_history(s: SnapView) -> bool {
    forall|i: int| 0 <= i < s.n() ==> (#[trigger] s.parents_of(i)).len() <= 1
}

/// The first-parent chain starts at its head, stays within [0, i], and
/// descends strictly.
pub proof fn lemma_fp_chain_desc(s: SnapView, i: int)
    requires
        0 <= i < s.n(),
    ensures
        s.fp_chain(i).len() >= 1,
        s.fp_chain(i)[0] == i,
        forall|k: int| 0 <= k < s.fp_chain(i).len() ==> 0 <= #[trigger] s.fp_chain(i)[k] <= i,
        forall|k1: int, k2: int|
            0 <= k1 < k2 < s.fp_chain(i).len() ==> #[trigger] s.fp_chain(i)[k1]
                > #[trigger] s.fp_chain(i)[k2],
    decreases i,
{
    let q = s.fp_chain(i);
    if s.parents_of(i).len() > 0 {
        let p = s.parents_of(i)[0] as int;
        if p < i {
            lemma_fp_chain_desc(s, p);
            let qp = s.fp_chain(p);
            assert(q == seq![i] + qp);
            assert forall|k: int| 0 <= k < q.len() implies 0 <= #[trigger] q[k] <= i by {
                if k > 0 {
                    assert(q[k] == qp[k - 1]);
                }
            }
            assert forall|k1: int, k2: int|
                0 <= k1 < k2 < q.len() implies #[trigger] q[k1] > #[trigger] q[k2] by {
                assert(q[k2] == qp[k2 - 1]);
                if k1 > 0 {
                    assert(q[k1] == qp[k1 - 1]);
                } else {
                    assert(q[k1] == i && qp[k2 - 1] <= p < i);
                }
            }
        }
    }
}

/// In a linear history, the first-parent chain holds exactly the commits
/// reachable from its head.
pub proof fn lemma_fp_chain_is_reach(s: SnapView, i: int)
    requires
        0 <= i < s.n(),
        linear_history(s),
    ensures
        forall|t: int| s.fp_chain(i).contains(t) == s.reach(i).contains(t),
    decreases i,
{
    let q = s.fp_chain(i);
    if s.parents_of(i).len() == 0 {
        assert forall|t: int| q.contains(t) == s.reach(i).contains(t) by {
            assert(s.reach_par(i, 0) == Set::<int>::empty());
            if q.contains(t) {
                let k = choose|k: int| 0 <= k < q.len() && q[k] == t;
                assert(t == i);
            }
            if t == i {
                assert(q[0] == t);
            }
        }
    } else {
        assert(s.parents_of(i).len() == 1);
        let p = s.parents_of(i)[0] as int;
        assert(s.reach_par(i, 1) == if 0 <= p < i {
            s.reach_par(i, 0).union(s.reach(p))
        } else {
            s.reach_par(i, 0)
        });
        if p < i {
            lemma_fp_chain_is_reach(s, p);
            let qp = s.fp_chain(p);
            assert(q == seq![i] + qp);
            assert forall|t: int| q.contains(t) == s.reach(i).contains(t) by {
                if q.contains(t) {
                    let k = choose|k: int| 0 <= k < q.len() && q[k] == t;
                    if k == 0 {
                        assert(t == i);
                    } else {
                        assert(qp[k - 1] == t);
                        assert(qp.contains(t));
                        assert(s.reach(p).contains(t));
                    }
                    assert(s.reach(i).contains(t));
                }
                if s.reach(i).contains(t) {
                    if t != i {
                        assert(s.reach_par(i, 1).contains(t));
                        assert(s.reach(p).contains(t));
                        assert(qp.contains(t));
                        let k = choose|k: int| 0 <= k < qp.len() && qp[k] == t;
                        assert(q[k + 1] == t);
                    } else {
                        assert(q[0] == t);
                    }
                    assert(q.contains(t));
                }
            }
        } else {
            assert forall|t: int| q.contains(t) == s.reach(i).contains(t) by {
                assert(s.reach_par(i, 0) == Set::<int>::empty());
                if q.contains(t) {
                    let k = choose|k: int| 0 <= k < q.len() && q[k] == t;
                    assert(t == i);
                }
                if t == i {
                    assert(q[0] == t);
                }
            }
        }
    }
}

/// A strictly descending listing of a set is the set's default-order
/// enumeration.
pub proof fn lemma_enum_of_desc_seq(xs: Set<int>, q: Seq<int>, from: int)
    requires
        forall|k: int| 0 <= k < q.len() ==> 0 <= #[trigger] q[k] < from,
        forall|k1: int, k2: int| 0 <= k1 < k2 < q.len() ==> #[trigger] q[k1] > #[trigger] q[k2],
        forall|t: int| q.contains(t) == (xs.contains(t) && 0 <= t < from),
    ensures
        enum_set(xs, from) == q,
    decreases from,
{
    if from <= 0 {
        if q.len() > 0 {
            assert(0 <= q[0] < from);
        }
        assert(enum_set(xs, from) =~= q);
    } else if xs.contains(from - 1) {
        assert(q.contains(from - 1));
        let k0 = choose|k: int| 0 <= k < q.len() && q[k] == from - 1;
        assert(k0 == 0) by {
            if k0 > 0 {
                assert(q[0] > q[k0]);
                assert(0 <= q[0] < from);
            }
        }
        let qp = q.drop_first();
        assert forall|k: int| 0 <= k < qp.len() implies 0 <= #[trigger] qp[k] < from - 1 by {
            assert(qp[k] == q[k + 1]);
            assert(q[0] > q[k + 1]);
        }
        assert forall|k1: int, k2: int|
            0 <= k1 < k2 < qp.len() implies #[trigger] qp[k1] > #[trigger] qp[k2] by {
            assert(qp[k1] == q[k1 + 1] && qp[k2] == q[k2 + 1]);
            assert(q[k1 + 1] > q[k2 + 1]);
        }
        assert forall|t: int| qp.contains(t) == (xs.contains(t) && 0 <= t < from - 1) by {
            if qp.contains(t) {
                let k = choose|k: int| 0 <= k < qp.len() && qp[k] == t;
                assert(q[k + 1] == t);
                assert(q.contains(t));
                assert(q[0] > q[k + 1]);
            }
            if xs.contains(t) && 0 <= t < from - 1 {
                assert(q.contains(t));
                let k = choose|k: int| 0 <= k < q.len() && q[k] == t;
                assert(k != 0);
                assert(qp[k - 1] == t);
                assert(qp.contains(t));
            }
        }
        lemma_enum_of_desc_seq(xs, qp, from - 1);
        assert(enum_set(xs, from) == seq![from - 1] + qp);
        assert(q =~= seq![from - 1] + qp);
    } else {
        assert forall|t: int| q.contains(t) == (xs.contains(t) && 0 <= t < from - 1) by {
            if q.contains(t) {
                assert(xs.contains(t) && 0 <= t < from);
                assert(t != from - 1);
            }
        }
        assert forall|k: int| 0 <= k < q.len() implies 0 <= #[trigger] q[k] < from - 1 by {
            assert(q.contains(q[k]));
        }
        lemma_enum_of_desc_seq(xs, q, from - 1);
    }
}

/// In a first-parent linear history, the head-chain walk lists exactly the
/// working-copy commit's ancestors in the pipeline's default order: the
/// no-parse fast path and the ancestors-of-working-copy query agree, element
/// by element. (With merge commits the general query also reaches second
/// parents, so the two differ.)
pub proof fn lemma_head_chain_matches_ancestors(s: SnapView, wc: int)
    requires
        0 <= wc < s.n(),
        linear_history(s),
    ensures
        s.fp_chain(wc) == enum_set(s.anc_of(Set::empty().insert(wc)), s.n()),
{
    let xs = s.anc_of(Set::empty().insert(wc));
    assert forall|t: int| xs.contains(t) == s.reach(wc).contains(t) by {
        if xs.contains(t) {
            let d = choose|d: int|
                Set::empty().insert(wc).contains(d) && #[trigger] s.reach(d).contains(t);
            assert(d == wc);
        }
        if s.reach(wc).contains(t) {
            assert(Set::empty().insert(wc).contains(wc));
        }
    }
    lemma_fp_chain_desc(s, wc);
    lemma_fp_chain_is_reach(s, wc);
    let q = s.fp_chain(wc);
    assert forall|t: int| q.contains(t) == (xs.contains(t) && 0 <= t < s.n()) by {
        if q.contains(t) {
            let k = choose|k: int| 0 <= k < q.len() && q[k] == t;
            assert(0 <= q[k] <= wc);
        }
        if xs.contains(t) && 0 <= t < s.n() {
            assert(s.reach(wc).contains(t));
        }
    }
    assert forall|k: int| 0 <= k < q.len() implies 0 <= #[trigger] q[k] < s.n() by {
        assert(0 <= q[k] <= wc);
    }
    lemma_enum_of_desc_seq(xs, q, s.n());
}

// ---------------------------------------------------------------------------
// the pipeline over a parsed expression
// ---------------------------------------------------------------------------

/// What a query must select: the meaning of the expression under the
/// session's alias table, against the session's snapshot.
pub open spec fn pipeline_set(s: SnapView, tbl: Seq<AliasDef>, e: ExprV) -> Set<int> {
    presem_set(s, tbl, Seq::empty(), e)
}

/// What a query must return: the selected set in default order, newest
/// first.
pub open spec fn pipeline_seq(s: SnapView, tbl: Seq<AliasDef>, e: ExprV) -> Seq<int> {
    enum_set(pipeline_set(s, tbl, e), s.n())
}

/// Resolves, optimizes and evaluates one parsed expression against the
/// session. Succeeds exactly when resolution does; the returned indices are
/// the expression's meaning in default order, so two calls on one session
/// return the same list.
pub fn evaluate_expression(ws: &WorkspaceSettings, e: &RevsetExpression) -> (r: Result<
    Vec<usize>,
    QueryError,
>)
    requires
        ws.wf(),
    ensures
        (r is Ok) == presem_ok(
            ws.repo_readonly@,
            ws.revset_aliases_map.entries@,
            Seq::empty(),
            expr_v(*e),
        ),
        r matches Ok(v) ==> v@.map_values(|u: usize| u as int) == pipeline_seq(
            ws.repo_readonly@,
            ws.revset_aliases_map.entries@,
            expr_v(*e),
        ),
        r matches Err(er) ==> err_matches(
            er,
            presem_err(
                ws.repo_readonly@,
                ws.revset_aliases_map.entries@,
                Seq::empty(),
                expr_v(*e),
            ),
        ),
{
    let ghost s = ws.repo_readonly@;
    let ghost gt = ws.revset_aliases_map.entries@;
    let empty_stack: Vec<String> = Vec::new();
    proof {
        assert(stack_view(empty_stack@) =~= Seq::<Seq<char>>::empty());
    }
    let resolved = match resolve_rec(
        &ws.repo_readonly,
        &ws.revset_aliases_map,
        &empty_stack,
        e,
    ) {
        Ok(x) => x,
        Err(er) => {
            return Err(er);
        },
    };
    let optimized = optimize(resolved);
    let v = evaluate_resolved(&ws.repo_readonly, &optimized);
    proof {
        assert(sem(s, optimized) == sem(s, resolved));
        assert(sem(s, resolved) =~= pipeline_set(s, gt, expr_v(*e)));
    }
    Ok(v)
}

/// Whether the query text names work: it parses, and its expression
/// resolves against the session.
pub open spec fn query_ok(s: SnapView, tbl: Seq<AliasDef>, text: Seq<char>) -> bool {
    match parse_spec(text) {
        Some(e) => presem_ok(s, tbl, Seq::empty(), e),
        None => false,
    }
}

/// Compiles the query text and runs the pipeline: parse, resolve, optimize,
/// evaluate. Succeeds exactly when the text parses and its expression
/// resolves; the indices returned are the parsed expression's meaning in
/// default order — strictly descending, newest first, all in the snapshot.
/// A parse error comes exactly from text outside the grammar; every other
/// error comes from the resolve stage and names its real failure.
pub fn get_revset(ws: &WorkspaceSettings, revset_str: &str) -> (r: Result<Vec<usize>, QueryError>)
    requires
        ws.wf(),
    ensures
        (r is Ok) == query_ok(ws.repo_readonly@, ws.revset_aliases_map.entries@, revset_str@),
        r matches Ok(v) ==> {
            &&& v@.map_values(|u: usize| u as int) == pipeline_seq(
                ws.repo_readonly@,
                ws.revset_aliases_map.entries@,
                parse_spec(revset_str@)->Some_0,
            )
            &&& forall|k: int| 0 <= k < v@.len() ==> (#[trigger] v@[k] as int) < ws.repo_readonly@.n()
            &&& forall|k1: int, k2: int| 0 <= k1 < k2 < v@.len() ==> v@[k1] > v@[k2]
        },
        r matches Err(er) ==> if parse_spec(revset_str@) is None {
            er matches QueryError::Parse { .. }
        } else {
            err_matches(
                er,
                presem_err(
                    ws.repo_readonly@,
                    ws.revset_aliases_map.entries@,
                    Seq::empty(),
                    parse_spec(revset_str@)->Some_0,
                ),
            )
        },
{
    let expr = match parse(revset_str) {
        Ok(x) => x,
        Err(er) => {
            return Err(er);
        },
    };
    let r = evaluate_expression(ws, &expr);
    proof {
        if r is Ok {
            let v = r->Ok_0;
            let ghost mapped = v@.map_values(|u: usize| u as int);
            lemma_enum_set_desc(
                pipeline_set(ws.repo_readonly@, ws.revset_aliases_map.entries@, expr_v(expr)),
                ws.repo_readonly@.n(),
            );
            assert forall|k: int| 0 <= k < v@.len() implies (#[trigger] v@[k] as int)
                < ws.repo_readonly@.n() by {
                assert(mapped[k] == v@[k] as int);
            }
            assert forall|k1: int, k2: int| 0 <= k1 < k2 < v@.len() implies v@[k1] > v@[k2] by {
                assert(mapped[k1] == v@[k1] as int);
                assert(mapped[k2] == v@[k2] as int);
            }
        }
    }
    r
}

// ---------------------------------------------------------------------------
// parsing
// ---------------------------------------------------------------------------

enum Tok {
    Ident(String),
    At,
    Pipe,
    Amp,
    Tilde,
    ColonColon,
    LParen,
    RParen,
}

struct SpTok {
    tok: Tok,
    start: usize,
    len: usize,
}

/// Mathematical shape of a token.
pub enum TokV {
    Ident(Seq<char>),
    At,
    Pipe,
    Amp,
    Tilde,
    ColonColon,
    LParen,
    RParen,
}

spec fn tok_v(t: Tok) -> TokV {
    match t {
        Tok::Ident(x) => TokV::Ident(x@),
        Tok::At => TokV::At,
        Tok::Pipe => TokV::Pipe,
        Tok::Amp => TokV::Amp,
        Tok::Tilde => TokV::Tilde,
        Tok::ColonColon => TokV::ColonColon,
        Tok::LParen => TokV::LParen,
        Tok::RParen => TokV::RParen,
    }
}

spec fn toks_v(ts: Seq<SpTok>) -> Seq<TokV> {
    ts.map_values(|t: SpTok| tok_v(t.tok))
}

/// A character that may stand in a symbol: letters, digits, underscore,
/// dash, dot.
pub open spec fn sym_char(c: char) -> bool {
    ('a' <= c && c <= 'z') || ('A' <= c && c <= 'Z') || ('0' <= c && c <= '9') || c == '_' || c
        == '-' || c == '.'
}

fn is_symbol_char(c: char) -> (r: bool)
    ensures
        r == sym_char(c),
{
    (c >= 'a' && c <= 'z') || (c >= 'A' && c <= 'Z') || (c >= '0' && c <= '9') || c == '_' || c
        == '-' || c == '.'
}

/// The end of the symbol run beginning at `i`.
pub open spec fn scan_sym(text: Seq<char>, i: int) -> int
    decreases text.len() - i,
{
    if !(0 <= i < text.len()) {
        i
    } else if sym_char(text[i]) {
        scan_sym(text, i + 1)
    } else {
        i
    }
}

/// The token shapes of the query text, or nothing when a character fits no
/// token. This is the lexical grammar: contracts about parsing speak of it.
pub open spec fn tokens_spec(text: Seq<char>, i: int, acc: Seq<TokV>) -> Option<Seq<TokV>>
    decreases text.len() - i,
{
    if i >= text.len() {
        Some(acc)
    } else if i < 0 {
        None
    } else {
        let c = text[i];
        if c == ' ' || c == '\t' {
            tokens_spec(text, i + 1, acc)
        } else if c == '@' {
            tokens_spec(text, i + 1, acc.push(TokV::At))
        } else if c == '|' {
            tokens_spec(text, i + 1, acc.push(TokV::Pipe))
        } else if c == '&' {
            tokens_spec(text, i + 1, acc.push(TokV::Amp))
        } else if c == '~' {
            tokens_spec(text, i + 1, acc.push(TokV::Tilde))
        } else if c == '(' {
            tokens_spec(text, i + 1, acc.push(TokV::LParen))
        } else if c == ')' {
            tokens_spec(text, i + 1, acc.push(TokV::RParen))
        } else if c == ':' {
            if i + 1 < text.len() && text[i + 1] == ':' {
                tokens_spec(text, i + 2, acc.push(TokV::ColonColon))
            } else {
                None
            }
        } else if sym_char(c) {
            let e = scan_sym(text, i + 1);
            let e2 = if i < e && e <= text.len() {
                e
            } else {
                i + 1
            };
            tokens_spec(text, e2, acc.push(TokV::Ident(text.subrange(i, e2))))
        } else {
            None
        }
    }
}

/// Splits the query text into tokens, with character spans for diagnostics.
/// The tokens are exactly what the lexical grammar gives for this text, and
/// the call fails exactly where the grammar does.
fn tokenize(text: &str) -> (r: Result<Vec<SpTok>, QueryError>)
    ensures
        r matches Ok(ts) ==> tokens_spec(text@, 0, Seq::empty()) == Some(toks_v(ts@)),
        (r is Err) == (tokens_spec(text@, 0, Seq::empty()) is None),
        r matches Err(er) ==> er matches QueryError::Parse { .. },
{
    let n = text.unicode_len();
    let mut toks: Vec<SpTok> = Vec::new();
    let mut i: usize = 0;
    proof {
        assert(toks_v(toks@) =~= Seq::<TokV>::empty());
    }
    while i < n
        invariant
            i <= n,
            n == text@.len(),
            tokens_spec(text@, 0, Seq::empty()) == tokens_spec(text@, i as int, toks_v(toks@)),
        decreases n - i,
    {
        let ghost prev = toks@;
        let c = text.get_char(i);
        if c == ' ' || c == '\t' {
            i += 1;
        } else if c == '@' {
            toks.push(SpTok { tok: Tok::At, start: i, len: 1 });
            proof {
                assert(toks_v(toks@) =~= toks_v(prev).push(TokV::At));
            }
            i += 1;
        } else if c == '|' {
            toks.push(SpTok { tok: Tok::Pipe, start: i, len: 1 });
            proof {
                assert(toks_v(toks@) =~= toks_v(prev).push(TokV::Pipe));
            }
            i += 1;
        } else if c == '&' {
            toks.push(SpTok { tok: Tok::Amp, start: i, len: 1 });
            proof {
                assert(toks_v(toks@) =~= toks_v(prev).push(TokV::Amp));
            }
            i += 1;
        } else if c == '~' {
            toks.push(SpTok { tok: Tok::Tilde, start: i, len: 1 });
            proof {
                assert(toks_v(toks@) =~= toks_v(prev).push(TokV::Tilde));
            }
            i += 1;
        } else if c == '(' {
            toks.push(SpTok { tok: Tok::LParen, start: i, len: 1 });
            proof {
                assert(toks_v(toks@) =~= toks_v(prev).push(TokV::LParen));
            }
            i += 1;
        } else if c == ')' {
            toks.push(SpTok { tok: Tok::RParen, start: i, len: 1 });
            proof {
                assert(toks_v(toks@) =~= toks_v(prev).push(TokV::RParen));
            }
            i += 1;
        } else if c == ':' {
            if i + 1 < n && text.get_char(i + 1) == ':' {
                toks.push(SpTok { tok: Tok::ColonColon, start: i, len: 2 });
                proof {
                    assert(toks_v(toks@) =~= toks_v(prev).push(TokV::ColonColon));
                }
                i += 2;
            } else {
                return Err(
                    QueryError::Parse {
                        message: String::from_str("expected '::'"),
                        span_start: i,
                        span_len: 1,
                    },
                );
            }
        } else if is_symbol_char(c) {
            let st = i;
            i += 1;
            while i < n && is_symbol_char(text.get_char(i))
                invariant
                    st < i <= n,
                    n == text@.len(),
                    scan_sym(text@, st + 1) == scan_sym(text@, i as int),
                decreases n - i,
            {
                i += 1;
            }
            proof {
                assert(scan_sym(text@, st + 1) == i as int);
            }
            let word = text.substring_char(st, i).to_owned();
            toks.push(SpTok { tok: Tok::Ident(word), start: st, len: i - st });
            proof {
                assert(toks_v(toks@) =~= toks_v(prev).push(
                    TokV::Ident(text@.subrange(st as int, i as int)),
                ));
            }
        } else {
            return Err(
                QueryError::Parse {
                    message: String::from_str("unrecognized character"),
                    span_start: i,
                    span_len: 1,
                },
            );
        }
    }
    Ok(toks)
}

/// Whether this token can begin a primary expression.
pub open spec fn starts_prim(t: TokV) -> bool {
    t is Ident || t is At || t is LParen
}

fn starts_primary(t: &Tok) -> (r: bool)
    ensures
        r == starts_prim(tok_v(*t)),
{
    match t {
        Tok::Ident(_) => true,
        Tok::At => true,
        Tok::LParen => true,
        _ => false,
    }
}

fn parse_err(message: &str, start: usize, len: usize) -> (r: QueryError)
    ensures
        r matches QueryError::Parse { .. },
{
    QueryError::Parse { message: String::from_str(message), span_start: start, span_len: len }
}

// The syntactic grammar, as recursive functions over the token shapes. A
// fuel argument bounds the recursion depth; the depth of any parse is under
// four levels per token, so the fuel the entry point passes never runs out.

pub open spec fn p_union(ts: Seq<TokV>, pos: int, fuel: nat) -> Option<(ExprV, int)>
    decreases fuel,
{
    if fuel == 0 {
        None
    } else {
        match p_inter(ts, pos, (fuel - 1) as nat) {
            None => None,
            Some((e, p)) => p_union_tail(ts, e, p, (fuel - 1) as nat),
        }
    }
}

pub open spec fn p_union_tail(ts: Seq<TokV>, e: ExprV, pos: int, fuel: nat) -> Option<(ExprV, int)>
    decreases fuel,
{
    if fuel == 0 {
        None
    } else if 0 <= pos < ts.len() && ts[pos] is Pipe {
        match p_inter(ts, pos + 1, (fuel - 1) as nat) {
            None => None,
            Some((e2, p2)) => p_union_tail(
                ts,
                ExprV::Union(Box::new(e), Box::new(e2)),
                p2,
                (fuel - 1) as nat,
            ),
        }
    } else {
        Some((e, pos))
    }
}

pub open spec fn p_inter(ts: Seq<TokV>, pos: int, fuel: nat) -> Option<(ExprV, int)>
    decreases fuel,
{
    if fuel == 0 {
        None
    } else {
        match p_range(ts, pos, (fuel - 1) as nat) {
            None => None,
            Some((e, p)) => p_inter_tail(ts, e, p, (fuel - 1) as nat),
        }
    }
}

pub open spec fn p_inter_tail(ts: Seq<TokV>, e: ExprV, pos: int, fuel: nat) -> Option<(ExprV, int)>
    decreases fuel,
{
    if fuel == 0 {
        None
    } else if 0 <= pos < ts.len() && (ts[pos] is Amp || ts[pos] is Tilde) {
        let amp = ts[pos] is Amp;
        match p_range(ts, pos + 1, (fuel - 1) as nat) {
            None => None,
            Some((e2, p2)) => p_inter_tail(
                ts,
                if amp {
                    ExprV::Intersection(Box::new(e), Box::new(e2))
                } else {
                    ExprV::Difference(Box::new(e), Box::new(e2))
                },
                p2,
                (fuel - 1) as nat,
            ),
        }
    } else {
        Some((e, pos))
    }
}

pub open spec fn p_range(ts: Seq<TokV>, pos: int, fuel: nat) -> Option<(ExprV, int)>
    decreases fuel,
{
    if fuel == 0 {
        None
    } else if 0 <= pos < ts.len() && ts[pos] is ColonColon {
        match p_primary(ts, pos + 1, (fuel - 1) as nat) {
            None => None,
            Some((e, p)) => Some((ExprV::Ancestors(Box::new(e)), p)),
        }
    } else {
        match p_primary(ts, pos, (fuel - 1) as nat) {
            None => None,
            Some((e, p)) => if 0 <= p < ts.len() && ts[p] is ColonColon {
                if p + 1 < ts.len() && starts_prim(ts[p + 1]) {
                    match p_primary(ts, p + 1, (fuel - 1) as nat) {
                        None => None,
                        Some((e2, p2)) => Some((ExprV::Range(Box::new(e), Box::new(e2)), p2)),
                    }
                } else {
                    Some((ExprV::Descendants(Box::new(e)), p + 1))
                }
            } else {
                Some((e, p))
            },
        }
    }
}

pub open spec fn p_primary(ts: Seq<TokV>, pos: int, fuel: nat) -> Option<(ExprV, int)>
    decreases fuel,
{
    if fuel == 0 {
        None
    } else if !(0 <= pos < ts.len()) {
        None
    } else {
        match ts[pos] {
            TokV::At => Some((ExprV::WorkingCopy, pos + 1)),
            TokV::Ident(name) => {
                if pos + 1 < ts.len() && ts[pos + 1] is LParen {
                    if pos + 2 < ts.len() && ts[pos + 2] is RParen {
                        if name == "all"@ {
                            Some((ExprV::All, pos + 3))
                        } else if name == "none"@ {
                            Some((ExprV::Nothing, pos + 3))
                        } else {
                            None
                        }
                    } else {
                        None
                    }
                } else {
                    Some((ExprV::Symbol(name), pos + 1))
                }
            },
            TokV::LParen => {
                match p_union(ts, pos + 1, (fuel - 1) as nat) {
                    None => None,
                    Some((e, p)) => if 0 <= p < ts.len() && ts[p] is RParen {
                        Some((e, p + 1))
                    } else {
                        None
                    },
                }
            },
            _ => None,
        }
    }
}

/// An execution result agrees with a grammar result: same success, and on
/// success the same tree shape and the same next position.
pub open spec fn pr_matches(
    r: Result<(RevsetExpression, usize), QueryError>,
    o: Option<(ExprV, int)>,
) -> bool {
    match r {
        Ok(p) => o matches Some(q) && expr_v(p.0) == q.0 && p.1 as int == q.1,
        Err(_) => o is None,
    }
}

/// union := intersection ('|' intersection)*
fn parse_union(toks: &Vec<SpTok>, pos: usize, fuel: u128) -> (r: Result<
    (RevsetExpression, usize),
    QueryError,
>)
    requires
        pos <= toks@.len(),
    ensures
        pr_matches(r, p_union(toks_v(toks@), pos as int, fuel as nat)),
        r matches Ok(p) ==> pos < p.1 <= toks@.len(),
        r matches Err(er) ==> er matches QueryError::Parse { .. },
    decreases fuel,
{
    if fuel == 0 {
        return Err(parse_err("the expression nests too deeply", 0, 0));
    }
    let (e, p) = match parse_intersection(toks, pos, fuel - 1) {
        Ok(x) => x,
        Err(er) => {
            return Err(er);
        },
    };
    parse_union_tail(toks, e, p, fuel - 1)
}

fn parse_union_tail(toks: &Vec<SpTok>, e: RevsetExpression, pos: usize, fuel: u128) -> (r: Result<
    (RevsetExpression, usize),
    QueryError,
>)
    requires
        pos <= toks@.len(),
    ensures
        pr_matches(r, p_union_tail(toks_v(toks@), expr_v(e), pos as int, fuel as nat)),
        r matches Ok(p) ==> pos <= p.1 <= toks@.len(),
        r matches Err(er) ==> er matches QueryError::Parse { .. },
    decreases fuel,
{
    if fuel == 0 {
        return Err(parse_err("the expression nests too deeply", 0, 0));
    }
    if pos < toks.len() && matches!(toks[pos].tok, Tok::Pipe) {
        proof {
            assert(toks_v(toks@)[pos as int] == tok_v(toks@[pos as int].tok));
        }
        let (e2, p2) = match parse_intersection(toks, pos + 1, fuel - 1) {
            Ok(x) => x,
            Err(er) => {
                return Err(er);
            },
        };
        parse_union_tail(toks, RevsetExpression::Union(Box::new(e), Box::new(e2)), p2, fuel - 1)
    } else {
        proof {
            if pos < toks@.len() {
                assert(toks_v(toks@)[pos as int] == tok_v(toks@[pos as int].tok));
            }
        }
        Ok((e, pos))
    }
}

/// intersection := range (('&' | '~') range)*
fn parse_intersection(toks: &Vec<SpTok>, pos: usize, fuel: u128) -> (r: Result<
    (RevsetExpression, usize),
    QueryError,
>)
    requires
        pos <= toks@.len(),
    ensures
        pr_matches(r, p_inter(toks_v(toks@), pos as int, fuel as nat)),
        r matches Ok(p) ==> pos < p.1 <= toks@.len(),
        r matches Err(er) ==> er matches QueryError::Parse { .. },
    decreases fuel,
{
    if fuel == 0 {
        return Err(parse_err("the expression nests too deeply", 0, 0));
    }
    let (e, p) = match parse_range(toks, pos, fuel - 1) {
        Ok(x) => x,
        Err(er) => {
            return Err(er);
        },
    };
    parse_intersection_tail(toks, e, p, fuel - 1)
}

fn parse_intersection_tail(toks: &Vec<SpTok>, e: RevsetExpression, pos: usize, fuel: u128) -> (r:
    Result<(RevsetExpression, usize), QueryError>)
    requires
        pos <= toks@.len(),
    ensures
        pr_matches(r, p_inter_tail(toks_v(toks@), expr_v(e), pos as int, fuel as nat)),
        r matches Ok(p) ==> pos <= p.1 <= toks@.len(),
        r matches Err(er) ==> er matches QueryError::Parse { .. },
    decreases fuel,
{
    if fuel == 0 {
        return Err(parse_err("the expression nests too deeply", 0, 0));
    }
    if pos < toks.len() && (matches!(toks[pos].tok, Tok::Amp) || matches!(
        toks[pos].tok,
        Tok::Tilde,
    )) {
        proof {
            assert(toks_v(toks@)[pos as int] == tok_v(toks@[pos as int].tok));
        }
        let amp = matches!(toks[pos].tok, Tok::Amp);
        let (e2, p2) = match parse_range(toks, pos + 1, fuel - 1) {
            Ok(x) => x,
            Err(er) => {
                return Err(er);
            },
        };
        let joined = if amp {
            RevsetExpression::Intersection(Box::new(e), Box::new(e2))
        } else {
            RevsetExpression::Difference(Box::new(e), Box::new(e2))
        };
        parse_intersection_tail(toks, joined, p2, fuel - 1)
    } else {
        proof {
            if pos < toks@.len() {
                assert(toks_v(toks@)[pos as int] == tok_v(toks@[pos as int].tok));
            }
        }
        Ok((e, pos))
    }
}

/// range := '::' primary | primary ('::' primary?)?
fn parse_range(toks: &Vec<SpTok>, pos: usize, fuel: u128) -> (r: Result<
    (RevsetExpression, usize),
    QueryError,
>)
    requires
        pos <= toks@.len(),
    ensures
        pr_matches(r, p_range(toks_v(toks@), pos as int, fuel as nat)),
        r matches Ok(p) ==> pos < p.1 <= toks@.len(),
        r matches Err(er) ==> er matches QueryError::Parse { .. },
    decreases fuel,
{
    if fuel == 0 {
        return Err(parse_err("the expression nests too deeply", 0, 0));
    }
    if pos < toks.len() && matches!(toks[pos].tok, Tok::ColonColon) {
        proof {
            assert(toks_v(toks@)[pos as int] == tok_v(toks@[pos as int].tok));
        }
        let (inner, np) = match parse_primary(toks, pos + 1, fuel - 1) {
            Ok(x) => x,
            Err(er) => {
                return Err(er);
            },
        };
        return Ok((RevsetExpression::Ancestors(Box::new(inner)), np));
    }
    proof {
        if pos < toks@.len() {
            assert(toks_v(toks@)[pos as int] == tok_v(toks@[pos as int].tok));
        }
    }
    let (first, np) = match parse_primary(toks, pos, fuel - 1) {
        Ok(x) => x,
        Err(er) => {
            return Err(er);
        },
    };
    if np < toks.len() && matches!(toks[np].tok, Tok::ColonColon) {
        proof {
            assert(toks_v(toks@)[np as int] == tok_v(toks@[np as int].tok));
        }
        if np + 1 < toks.len() && starts_primary(&toks[np + 1].tok) {
            proof {
                assert(toks_v(toks@)[np + 1] == tok_v(toks@[np + 1].tok));
            }
            let (second, np2) = match parse_primary(toks, np + 1, fuel - 1) {
                Ok(x) => x,
                Err(er) => {
                    return Err(er);
                },
            };
            return Ok((RevsetExpression::Range(Box::new(first), Box::new(second)), np2));
        }
        proof {
            if np + 1 < toks@.len() {
                assert(toks_v(toks@)[np + 1] == tok_v(toks@[np + 1].tok));
            }
        }
        return Ok((RevsetExpression::Descendants(Box::new(first)), np + 1));
    }
    proof {
        if np < toks@.len() {
            assert(toks_v(toks@)[np as int] == tok_v(toks@[np as int].tok));
        }
    }
    Ok((first, np))
}

/// primary := '@' | symbol | function '(' ')' | '(' union ')'
fn parse_primary(toks: &Vec<SpTok>, pos: usize, fuel: u128) -> (r: Result<
    (RevsetExpression, usize),
    QueryError,
>)
    requires
        pos <= toks@.len(),
    ensures
        pr_matches(r, p_primary(toks_v(toks@), pos as int, fuel as nat)),
        r matches Ok(p) ==> pos < p.1 <= toks@.len(),
        r matches Err(er) ==> er matches QueryError::Parse { .. },
    decreases fuel,
{
    if fuel == 0 {
        return Err(parse_err("the expression nests too deeply", 0, 0));
    }
    if pos >= toks.len() {
        return Err(parse_err("unexpected end of the expression", 0, 0));
    }
    proof {
        assert(toks_v(toks@)[pos as int] == tok_v(toks@[pos as int].tok));
    }
    let start = toks[pos].start;
    let span = toks[pos].len;
    match &toks[pos].tok {
        Tok::At => Ok((RevsetExpression::WorkingCopy, pos + 1)),
        Tok::Ident(name) => {
            proof {
                if pos + 1 < toks@.len() {
                    assert(toks_v(toks@)[pos + 1] == tok_v(toks@[pos + 1].tok));
                }
                if pos + 2 < toks@.len() {
                    assert(toks_v(toks@)[pos + 2] == tok_v(toks@[pos + 2].tok));
                }
            }
            if pos + 1 < toks.len() && matches!(toks[pos + 1].tok, Tok::LParen) {
                if pos + 2 < toks.len() && matches!(toks[pos + 2].tok, Tok::RParen) {
                    if str_eq(name.as_str(), "all") {
                        Ok((RevsetExpression::All, pos + 3))
                    } else if str_eq(name.as_str(), "none") {
                        Ok((RevsetExpression::Nothing, pos + 3))
                    } else {
                        Err(parse_err("unknown function", start, span))
                    }
                } else {
                    Err(parse_err("expected ')' after the function name", start, span))
                }
            } else {
                Ok((RevsetExpression::Symbol(name.clone()), pos + 1))
            }
        },
        Tok::LParen => {
            let (inner, np) = match parse_union(toks, pos + 1, fuel - 1) {
                Ok(x) => x,
                Err(er) => {
                    return Err(er);
                },
            };
            proof {
                if np < toks@.len() {
                    assert(toks_v(toks@)[np as int] == tok_v(toks@[np as int].tok));
                }
            }
            if np < toks.len() && matches!(toks[np].tok, Tok::RParen) {
                Ok((inner, np + 1))
            } else {
                Err(parse_err("expected ')'", start, span))
            }
        },
        _ => Err(parse_err("unexpected token", start, span)),
    }
}

/// Fuel that always suffices: the parser descends under four levels per
/// token.
pub open spec fn parse_fuel(n: nat) -> nat {
    4 * n + 8
}

/// The expression shape of a query text: the lexical grammar, then the
/// syntactic grammar over the whole token list; nothing for text outside
/// the language.
pub open spec fn parse_spec(text: Seq<char>) -> Option<ExprV> {
    match tokens_spec(text, 0, Seq::empty()) {
        None => None,
        Some(ts) => if ts.len() == 0 {
            None
        } else {
            match p_union(ts, 0, parse_fuel(ts.len())) {
                None => None,
                Some((e, p)) => if p == ts.len() {
                    Some(e)
                } else {
                    None
                },
            }
        },
    }
}

/// Compiles the query text into an expression tree: exactly the tree the
/// grammar gives the text, and an error (with the offending character span)
/// exactly for text outside the grammar. Unknown symbols stay symbols: they
/// are resolved later against the session.
pub fn parse(text: &str) -> (r: Result<RevsetExpression, QueryError>)
    ensures
        r matches Ok(e) ==> parse_spec(text@) == Some(expr_v(e)),
        (r is Err) == (parse_spec(text@) is None),
        r matches Err(er) ==> er matches QueryError::Parse { .. },
{
    let toks = match tokenize(text) {
        Ok(x) => x,
        Err(er) => {
            return Err(er);
        },
    };
    if toks.len() == 0 {
        return Err(parse_err("empty revset", 0, 0));
    }
    let fuel: u128 = 4 * (toks.len() as u128) + 8;
    proof {
        assert(fuel as nat == parse_fuel(toks_v(toks@).len()));
    }
    let (e, p) = match parse_union(&toks, 0, fuel) {
        Ok(x) => x,
        Err(er) => {
            return Err(er);
        },
    };
    if p < toks.len() {
        let start = toks[p].start;
        let span = toks[p].len;
        return Err(parse_err("unexpected trailing input", start, span));
    }
    Ok(e)
}

// ---------------------------------------------------------------------------
// alias table construction
// ---------------------------------------------------------------------------

/// The alias table a settings view calls for: every non-overridden entry
/// of the revset-alias section, in order, its name the key path's suffix
/// and its body the parsed expression shape; or the name of the first
/// entry whose value is not a string or whose body the grammar refuses.
pub open spec fn alias_plan(values: Seq<crate::settings::AnnotatedView>, upto: int) -> Result<
    Seq<(Seq<char>, ExprV)>,
    Seq<char>,
>
    decreases upto,
{
    if upto <= 0 {
        Ok(Seq::empty())
    } else {
        match alias_plan(values, upto - 1) {
            Err(n) => Err(n),
            Ok(rest) => {
                let v = values[upto - 1];
                if !v.is_overridden && is_prefix("revset-aliases."@, v.name) {
                    let nm = v.name.subrange("revset-aliases."@.len() as int, v.name.len() as int);
                    match v.value {
                        crate::settings::ValueView::Str(body) => match parse_spec(body) {
                            Some(e) => Ok(rest.push((nm, e))),
                            None => Err(nm),
                        },
                        _ => Err(nm),
                    }
                } else {
                    Ok(rest)
                }
            },
        }
    }
}

/// An alias table holds exactly what a plan calls for.
pub open spec fn table_matches_plan(entries: Seq<AliasDef>, plan: Seq<(Seq<char>, ExprV)>) -> bool {
    entries.len() == plan.len() && forall|k: int|
        0 <= k < entries.len() ==> (#[trigger] entries[k].name@) == plan[k].0 && expr_v(
            entries[k].body,
        ) == plan[k].1
}

/// Builds the alias table from the settings' revset-alias section. Every
/// alias body is parsed eagerly; the table holds exactly the plan the
/// settings call for, and the call fails exactly when the plan does, on
/// the same alias name.
pub fn build_alias_table(settings: &EffectiveSettings) -> (r: Result<AliasTable, LoadError>)
    ensures
        r matches Ok(t) ==> alias_plan(
            crate::settings::av_views(settings.values@),
            settings.values@.len() as int,
        ) matches Ok(plan) && table_matches_plan(t.entries@, plan),
        (r is Err) == (alias_plan(
            crate::settings::av_views(settings.values@),
            settings.values@.len() as int,
        ) is Err),
        r matches Err(er) ==> er matches LoadError::AliasSyntax { name, cause: _ } && alias_plan(
            crate::settings::av_views(settings.values@),
            settings.values@.len() as int,
        ) matches Err(n) && name@ == n,
{
    let ghost av = crate::settings::av_views(settings.values@);
    let mut entries: Vec<AliasDef> = Vec::new();
    let mut m: usize = 0;
    proof {
        assert(alias_plan(av, 0) == Ok::<Seq<(Seq<char>, ExprV)>, Seq<char>>(Seq::empty()));
    }
    while m < settings.values.len()
        invariant
            m <= settings.values@.len(),
            av == crate::settings::av_views(settings.values@),
            alias_plan(av, m as int) matches Ok(plan) && table_matches_plan(entries@, plan),
        decreases settings.values@.len() - m,
    {
        let ghost plan0 = alias_plan(av, m as int)->Ok_0;
        let v = &settings.values[m];
        proof {
            assert(av[m as int] == v@);
        }
        if !v.is_overridden && has_prefix(v.name.as_str(), "revset-aliases.") {
            proof {
                reveal_strlit("revset-aliases.");
                assert("revset-aliases."@.len() == 15);
            }
            let full = v.name.as_str().unicode_len();
            let alias_name = v.name.as_str().substring_char(15, full).to_owned();
            proof {
                assert(alias_name@ == av[m as int].name.subrange(
                    "revset-aliases."@.len() as int,
                    av[m as int].name.len() as int,
                ));
            }
            match &v.value {
                ConfigValue::Str(body) => {
                    match parse(body.as_str()) {
                        Ok(b) => {
                            let ghost prev = entries@;
                            entries.push(AliasDef { name: alias_name, body: b });
                            proof {
                                assert(av[m as int].value matches
                                    crate::settings::ValueView::Str(bv) && bv == body@);
                                assert(alias_plan(av, m + 1) == Ok::<
                                    Seq<(Seq<char>, ExprV)>,
                                    Seq<char>,
                                >(plan0.push((alias_name@, expr_v(b)))));
                                assert(entries@ == prev.push(
                                    AliasDef { name: alias_name, body: b },
                                ));
                            }
                        },
                        Err(_) => {
                            proof {
                                assert(av[m as int].value matches
                                    crate::settings::ValueView::Str(bv) && bv == body@);
                                assert(alias_plan(av, m + 1) == Err::<
                                    Seq<(Seq<char>, ExprV)>,
                                    Seq<char>,
                                >(alias_name@));
                                lemma_alias_plan_err_persists(av, m + 1, av.len() as int);
                            }
                            return Err(
                                LoadError::AliasSyntax {
                                    name: alias_name,
                                    cause: String::from_str("the alias body does not parse"),
                                },
                            );
                        },
                    }
                },
                _ => {
                    proof {
                        assert(alias_plan(av, m + 1) == Err::<
                            Seq<(Seq<char>, ExprV)>,
                            Seq<char>,
                        >(alias_name@));
                        lemma_alias_plan_err_persists(av, m + 1, av.len() as int);
                    }
                    return Err(
                        LoadError::AliasSyntax {
                            name: alias_name,
                            cause: String::from_str("the alias value is not a string"),
                        },
                    );
                },
            }
        }
        m += 1;
    }
    Ok(AliasTable { entries })
}

/// Once the plan fails at some length, it fails the same way at every
/// longer length.
proof fn lemma_alias_plan_err_persists(values: Seq<crate::settings::AnnotatedView>, a: int, b: int)
    requires
        a <= b,
        alias_plan(values, a) is Err,
    ensures
        alias_plan(values, b) == alias_plan(values, a),
    decreases b - a,
{
    if a < b {
        lemma_alias_plan_err_persists(values, a, b - 1);
    }
}

} // verus!
