use vstd::prelude::*;

verus! {

/// Failure of configuration resolution: either a layer whose text could not
/// be read into structured entries, or a merge conflict where two layers give
/// the same key path values of different kinds.
#[derive(Debug)]
pub enum ConfigError {
    Parse { key: String, cause: String },
    Merge { key: String, cause: String },
}

/// Failure of loading a repository session. The workspace discovery, store
/// opening and head loading are performed by the storage collaborator; a
/// malformed snapshot handed over is reported as a store-consistency failure.
#[derive(Debug)]
pub enum LoadError {
    NoWorkspace,
    StoreOpen { cause: String },
    HeadUnavailable,
    AliasSyntax { name: String, cause: String },
}

/// Why a symbol did not resolve to a commit.
#[derive(Debug)]
pub enum ResolveReason {
    NotFound,
    Ambiguous { count: usize },
}

/// Failure of one stage of the revset pipeline.
#[derive(Debug)]
pub enum QueryError {
    Parse { message: String, span_start: usize, span_len: usize },
    AliasCycle { name: String },
    Resolve { symbol: String, reason: ResolveReason },
    Evaluate { cause: String },
}

} // verus!
