//! Read-only query access to a version-control repository: a layered
//! configuration resolver, a repository session over an immutable commit
//! graph snapshot, a revset query pipeline (parse, resolve, optimize,
//! evaluate), and a commit projection step that computes globally shortest
//! unique identifier prefixes.
#![verifier::loop_isolation(false)]

use vstd::prelude::*;

pub mod commit;
pub mod configs;
pub mod errors;
pub mod revset;
pub mod settings;
pub mod workspace;

use crate::commit::{commit_to_erl_commit, proj_matches, Commit};
use crate::errors::QueryError;
use crate::revset::{
    err_matches, evaluate_expression, expr_v, lemma_enum_set_desc, parse, parse_spec,
    pipeline_seq, pipeline_set, presem_err, presem_ok, query_ok, AliasDef, ExprV,
    RevsetExpression,
};
use crate::workspace::{SnapView, WorkspaceSettings};

verus! {

/// What a full query must return for one parsed expression: one projection
/// per selected commit, in the pipeline's default order, newest first.
pub open spec fn log_matches(s: SnapView, tbl: Seq<AliasDef>, e: ExprV, v: Seq<Commit>) -> bool {
    &&& v.len() == pipeline_seq(s, tbl, e).len()
    &&& forall|k: int|
        0 <= k < v.len() ==> #[trigger] proj_matches(s, pipeline_seq(s, tbl, e)[k], v[k])
}

/// Runs the pipeline for one parsed expression and projects every selected
/// commit. Succeeds exactly when resolution does; the result is pinned to
/// the expression's meaning, so two calls against one unchanged session
/// agree.
pub fn query_expression(ws: &WorkspaceSettings, e: &RevsetExpression) -> (r: Result<
    Vec<Commit>,
    QueryError,
>)
    requires
        ws.wf(),
    ensures
        (r is Ok) == presem_ok(
            ws.repo_readonly@,
            ws.revset_aliases_map.entries@,
            Seq::empty(),
            expr_v(*e),
        ),
        r matches Ok(v) ==> log_matches(
            ws.repo_readonly@,
            ws.revset_aliases_map.entries@,
            expr_v(*e),
            v@,
        ),
        r matches Err(er) ==> err_matches(
            er,
            presem_err(
                ws.repo_readonly@,
                ws.revset_aliases_map.entries@,
                Seq::empty(),
                expr_v(*e),
            ),
        ),
{
    let ghost s = ws.repo_readonly@;
    let ghost gt = ws.revset_aliases_map.entries@;
    let idx = match evaluate_expression(ws, e) {
        Ok(x) => x,
        Err(er) => {
            return Err(er);
        },
    };
    let ghost ps = pipeline_seq(s, gt, expr_v(*e));
    proof {
        lemma_enum_set_desc(pipeline_set(s, gt, expr_v(*e)), s.n());
    }
    let mut out: Vec<Commit> = Vec::new();
    let mut k: usize = 0;
    while k < idx.len()
        invariant
            k <= idx@.len(),
            ws.wf(),
            s == ws.repo_readonly@,
            gt == ws.revset_aliases_map.entries@,
            ps == pipeline_seq(s, gt, expr_v(*e)),
            idx@.map_values(|u: usize| u as int) == ps,
            forall|m: int| 0 <= m < ps.len() ==> 0 <= #[trigger] ps[m] < s.n(),
            out@.len() == k,
            forall|m: int| 0 <= m < k ==> #[trigger] proj_matches(s, ps[m], out@[m]),
        decreases idx@.len() - k,
    {
        proof {
            assert(idx@.map_values(|u: usize| u as int)[k as int] == idx@[k as int] as int);
            assert(idx@[k as int] as int == ps[k as int]);
        }
        let c = commit_to_erl_commit(&ws.repo_readonly, idx[k]);
        out.push(c);
        k += 1;
    }
    Ok(out)
}

/// Answers one query: compiles the text, runs the pipeline against the
/// session's snapshot, and returns the projections of every selected
/// commit, newest first. Succeeds exactly when the text parses and its
/// expression resolves; the result is pinned to the text's expression
/// shape, so two calls on one text against one unchanged session agree. A
/// parse error comes exactly from text outside the grammar; every other
/// error comes from the resolve stage and names its real failure.
pub fn log(ws: &WorkspaceSettings, revset_str: &str) -> (r: Result<Vec<Commit>, QueryError>)
    requires
        ws.wf(),
    ensures
        (r is Ok) == query_ok(ws.repo_readonly@, ws.revset_aliases_map.entries@, revset_str@),
        r matches Ok(v) ==> log_matches(
            ws.repo_readonly@,
            ws.revset_aliases_map.entries@,
            parse_spec(revset_str@)->Some_0,
            v@,
        ),
        r matches Err(er) ==> if parse_spec(revset_str@) is None {
            er matches QueryError::Parse { .. }
        } else {
            err_matches(
                er,
                presem_err(
                    ws.repo_readonly@,
                    ws.revset_aliases_map.entries@,
                    Seq::empty(),
                    parse_spec(revset_str@)->Some_0,
                ),
            )
        },
{
    let expr = match parse(revset_str) {
        Ok(x) => x,
        Err(er) => {
            return Err(er);
        },
    };
    let r = query_expression(ws, &expr);
    proof {
        assert(parse_spec(revset_str@) == Some(expr_v(expr)));
        if r is Ok {
            assert(log_matches(
                ws.repo_readonly@,
                ws.revset_aliases_map.entries@,
                expr_v(expr),
                r->Ok_0@,
            ));
        }
    }
    r
}

/// Two projections agree on every field.
pub open spec fn commits_agree(a: Commit, b: Commit) -> bool {
    &&& a.change_id@ == b.change_id@
    &&& a.change_id_short_len == b.change_id_short_len
    &&& a.commit_id@ == b.commit_id@
    &&& a.commit_id_short_len == b.commit_id_short_len
    &&& a.message_first_line@ == b.message_first_line@
    &&& a.author_name@ == b.author_name@
    &&& a.author_email@ == b.author_email@
    &&& a.timestamp == b.timestamp
}

/// A query against an unchanged snapshot generation is deterministic: any
/// two results of the same expression against the same session have the
/// same length and agree element by element, prefix lengths included.
pub proof fn lemma_query_deterministic(
    s: SnapView,
    tbl: Seq<AliasDef>,
    e: ExprV,
    v1: Seq<Commit>,
    v2: Seq<Commit>,
)
    requires
        log_matches(s, tbl, e, v1),
        log_matches(s, tbl, e, v2),
    ensures
        v1.len() == v2.len(),
        forall|k: int| 0 <= k < v1.len() ==> #[trigger] commits_agree(v1[k], v2[k]),
{
    assert forall|k: int| 0 <= k < v1.len() implies #[trigger] commits_agree(v1[k], v2[k]) by {
        crate::commit::lemma_projection_deterministic(s, pipeline_seq(s, tbl, e)[k], v1[k], v2[k]);
    }
}

} // verus!
