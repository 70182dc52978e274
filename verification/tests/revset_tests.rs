use jj_nif::errors::{LoadError, QueryError, ResolveReason};
use jj_nif::log;
use jj_nif::revset::{get_revset, parse, RevsetExpression};
use jj_nif::settings::{AnnotatedValue, ConfigValue, EffectiveSettings, LayerSource};
use jj_nif::workspace::{get_workspace_settings, Bookmark, CommitRecord, RepoSnapshot, WorkspaceSettings};

fn commit(commit_id: &str, change_id: &str, parents: Vec<usize>, desc: &str) -> CommitRecord {
    CommitRecord {
        commit_id: String::from(commit_id),
        change_id: String::from(change_id),
        parents,
        description: String::from(desc),
        author_name: String::from("Test Author"),
        author_email: String::from("test@example.com"),
        timestamp: 1700000000,
    }
}

/// Three commits in a line: 0 <- 1 <- 2, working copy at 2, bookmark on 1.
fn linear_repo() -> RepoSnapshot {
    RepoSnapshot {
        commits: vec![
            commit("aaa1", "zzz1", vec![], "root"),
            commit("aab2", "zzy2", vec![0], "middle"),
            commit("abc3", "zyx3", vec![1], "tip"),
        ],
        bookmarks: vec![Bookmark { name: String::from("main"), target: 1 }],
        working_copy: Some(2),
    }
}

fn no_settings() -> EffectiveSettings {
    EffectiveSettings { values: vec![] }
}

fn session(repo: RepoSnapshot) -> WorkspaceSettings {
    get_workspace_settings(no_settings(), repo, 1).unwrap()
}

fn alias(name: &str, body: &str) -> AnnotatedValue {
    AnnotatedValue {
        name: format!("revset-aliases.{}", name),
        value: ConfigValue::Str(String::from(body)),
        source: LayerSource::User,
        is_overridden: false,
    }
}

fn indices(ws: &WorkspaceSettings, text: &str) -> Vec<usize> {
    get_revset(ws, text).unwrap()
}

#[test]
fn parse_accepts_the_grammar() {
    assert!(parse("all()").is_ok());
    assert!(parse("none()").is_ok());
    assert!(parse("@").is_ok());
    assert!(parse("main").is_ok());
    assert!(parse("::@").is_ok());
    assert!(parse("main::").is_ok());
    assert!(parse("main::@").is_ok());
    assert!(parse("a | b & c ~ d").is_ok());
    assert!(parse("(a | b) & (c ~ d)").is_ok());
    assert!(matches!(parse("all()").unwrap(), RevsetExpression::All));
    assert!(matches!(parse("none()").unwrap(), RevsetExpression::Nothing));
    assert!(matches!(parse("@").unwrap(), RevsetExpression::WorkingCopy));
}

#[test]
fn parse_rejects_bad_input() {
    assert!(matches!(parse(""), Err(QueryError::Parse { .. })));
    assert!(matches!(parse("   "), Err(QueryError::Parse { .. })));
    assert!(matches!(parse("frobnicate()"), Err(QueryError::Parse { .. })));
    assert!(matches!(parse("a |"), Err(QueryError::Parse { .. })));
    assert!(matches!(parse("(a"), Err(QueryError::Parse { .. })));
    assert!(matches!(parse("a b"), Err(QueryError::Parse { .. })));
    assert!(matches!(parse("a : b"), Err(QueryError::Parse { .. })));
    assert!(matches!(parse("a ! b"), Err(QueryError::Parse { .. })));
    match parse("frobnicate()") {
        Err(QueryError::Parse { span_start, span_len, .. }) => {
            assert_eq!(span_start, 0);
            assert_eq!(span_len, 10);
        },
        _ => panic!("expected a parse error with a span"),
    }
}

#[test]
fn all_lists_every_commit_newest_first() {
    let ws = session(linear_repo());
    assert_eq!(indices(&ws, "all()"), vec![2, 1, 0]);
}

#[test]
fn empty_repository_all_is_empty_not_an_error() {
    let repo = RepoSnapshot { commits: vec![], bookmarks: vec![], working_copy: None };
    let ws = session(repo);
    assert_eq!(indices(&ws, "all()"), Vec::<usize>::new());
    assert_eq!(log(&ws, "all()").unwrap().len(), 0);
}

#[test]
fn none_is_empty() {
    let ws = session(linear_repo());
    assert_eq!(indices(&ws, "none()"), Vec::<usize>::new());
}

#[test]
fn bookmark_resolves_to_its_target() {
    let ws = session(linear_repo());
    assert_eq!(indices(&ws, "main"), vec![1]);
}

#[test]
fn full_and_short_identifiers_resolve() {
    let ws = session(linear_repo());
    assert_eq!(indices(&ws, "aab2"), vec![1]);
    assert_eq!(indices(&ws, "zyx3"), vec![2]);
    // the prefix "ab" matches only the commit id "abc3"
    assert_eq!(indices(&ws, "ab"), vec![2]);
    // the prefix "zz" matches only change ids of commits 0 and 1
    match get_revset(&ws, "zz") {
        Err(QueryError::Resolve { symbol, reason }) => {
            assert_eq!(symbol, "zz");
            assert!(matches!(reason, ResolveReason::Ambiguous { count: 2 }));
        },
        _ => panic!("expected an ambiguity error"),
    }
}

#[test]
fn ambiguous_commit_prefix_reports_the_count() {
    let ws = session(linear_repo());
    match get_revset(&ws, "aa") {
        Err(QueryError::Resolve { symbol, reason }) => {
            assert_eq!(symbol, "aa");
            assert!(matches!(reason, ResolveReason::Ambiguous { count: 2 }));
        },
        _ => panic!("expected an ambiguity error"),
    }
}

#[test]
fn missing_bookmark_fails_with_not_found() {
    let ws = session(linear_repo());
    match get_revset(&ws, "nonexistent_bookmark") {
        Err(QueryError::Resolve { symbol, reason }) => {
            assert_eq!(symbol, "nonexistent_bookmark");
            assert!(matches!(reason, ResolveReason::NotFound));
        },
        _ => panic!("expected a not-found error"),
    }
}

#[test]
fn ancestors_descendants_and_ranges() {
    let ws = session(linear_repo());
    assert_eq!(indices(&ws, "::@"), vec![2, 1, 0]);
    assert_eq!(indices(&ws, "::main"), vec![1, 0]);
    assert_eq!(indices(&ws, "main::"), vec![2, 1]);
    assert_eq!(indices(&ws, "main::@"), vec![2, 1]);
    assert_eq!(indices(&ws, "aaa1::main"), vec![1, 0]);
}

#[test]
fn set_operators_follow_set_semantics() {
    let ws = session(linear_repo());
    assert_eq!(indices(&ws, "main | @"), vec![2, 1]);
    assert_eq!(indices(&ws, "all() & main"), vec![1]);
    assert_eq!(indices(&ws, "all() ~ main"), vec![2, 0]);
    assert_eq!(indices(&ws, "::@ ~ ::main"), vec![2]);
}

#[test]
fn optimization_preserves_the_selected_set() {
    // identities with the empty and the full set change nothing
    let ws = session(linear_repo());
    assert_eq!(indices(&ws, "main | none()"), indices(&ws, "main"));
    assert_eq!(indices(&ws, "none() | main"), indices(&ws, "main"));
    assert_eq!(indices(&ws, "main & all()"), indices(&ws, "main"));
    assert_eq!(indices(&ws, "all() & main"), indices(&ws, "main"));
    assert_eq!(indices(&ws, "main ~ none()"), indices(&ws, "main"));
    assert_eq!(indices(&ws, "main | all()"), indices(&ws, "all()"));
    assert_eq!(indices(&ws, "main ~ all()"), indices(&ws, "none()"));
    assert_eq!(indices(&ws, "::(main | none())"), indices(&ws, "::main"));
    assert_eq!(indices(&ws, "(none() | main)::"), indices(&ws, "main::"));
    // nested closures collapse: ancestors of ancestors are just ancestors
    assert_eq!(indices(&ws, "::(::main)"), indices(&ws, "::main"));
    assert_eq!(indices(&ws, "(main::)::"), indices(&ws, "main::"));
}

#[test]
fn evaluation_is_deterministic() {
    let ws = session(linear_repo());
    let a = log(&ws, "all() ~ main").unwrap();
    let b = log(&ws, "all() ~ main").unwrap();
    assert_eq!(a.len(), b.len());
    for k in 0..a.len() {
        assert_eq!(a[k].commit_id, b[k].commit_id);
        assert_eq!(a[k].change_id, b[k].change_id);
        assert_eq!(a[k].commit_id_short_len, b[k].commit_id_short_len);
        assert_eq!(a[k].change_id_short_len, b[k].change_id_short_len);
        assert_eq!(a[k].message_first_line, b[k].message_first_line);
        assert_eq!(a[k].author_name, b[k].author_name);
        assert_eq!(a[k].author_email, b[k].author_email);
        assert_eq!(a[k].timestamp, b[k].timestamp);
    }
}

#[test]
fn aliases_expand_recursively() {
    let settings = EffectiveSettings { values: vec![alias("trunk", "main"), alias("work", "::@ ~ ::trunk")] };
    let ws = get_workspace_settings(settings, linear_repo(), 1).unwrap();
    assert_eq!(indices(&ws, "trunk"), vec![1]);
    assert_eq!(indices(&ws, "work"), vec![2]);
}

#[test]
fn alias_cycle_is_reported_not_run_forever() {
    let settings = EffectiveSettings { values: vec![alias("a", "b"), alias("b", "a")] };
    let ws = get_workspace_settings(settings, linear_repo(), 1).unwrap();
    match get_revset(&ws, "a") {
        Err(QueryError::AliasCycle { name }) => {
            assert!(name == "a" || name == "b");
        },
        _ => panic!("expected an alias cycle error"),
    }
}

#[test]
fn self_referential_alias_is_a_cycle() {
    let settings = EffectiveSettings { values: vec![alias("me", "me | main")] };
    let ws = get_workspace_settings(settings, linear_repo(), 1).unwrap();
    assert!(matches!(get_revset(&ws, "me"), Err(QueryError::AliasCycle { .. })));
}

#[test]
fn alias_body_that_does_not_parse_fails_the_load() {
    let settings = EffectiveSettings { values: vec![alias("broken", "((")] };
    match get_workspace_settings(settings, linear_repo(), 1) {
        Err(LoadError::AliasSyntax { name, .. }) => assert_eq!(name, "broken"),
        _ => panic!("expected an alias syntax error"),
    }
}

#[test]
fn alias_value_that_is_not_text_fails_the_load() {
    let settings = EffectiveSettings {
        values: vec![AnnotatedValue {
            name: String::from("revset-aliases.n"),
            value: ConfigValue::Int(3),
            source: LayerSource::User,
            is_overridden: false,
        }],
    };
    assert!(matches!(
        get_workspace_settings(settings, linear_repo(), 1),
        Err(LoadError::AliasSyntax { .. })
    ));
}

#[test]
fn working_copy_without_commit_is_not_found() {
    let repo = RepoSnapshot {
        commits: vec![commit("aaa1", "zzz1", vec![], "root")],
        bookmarks: vec![],
        working_copy: None,
    };
    let ws = session(repo);
    match get_revset(&ws, "@") {
        Err(QueryError::Resolve { symbol, reason }) => {
            assert_eq!(symbol, "@");
            assert!(matches!(reason, ResolveReason::NotFound));
        },
        _ => panic!("expected a not-found error for the working copy"),
    }
}

#[test]
fn merge_commit_ancestors_cover_both_parents() {
    // 0 and 1 are roots, 2 merges them; default order stays newest first
    let repo = RepoSnapshot {
        commits: vec![
            commit("aaa1", "zzz1", vec![], "left root"),
            commit("bbb2", "yyy2", vec![], "right root"),
            commit("ccc3", "xxx3", vec![0, 1], "merge"),
        ],
        bookmarks: vec![],
        working_copy: Some(2),
    };
    let ws = session(repo);
    assert_eq!(indices(&ws, "::@"), vec![2, 1, 0]);
    assert_eq!(indices(&ws, "aaa1::"), vec![2, 0]);
}
