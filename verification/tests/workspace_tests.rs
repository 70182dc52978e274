use jj_nif::commit::{commit_to_erl_commit, first_line_of};
use jj_nif::errors::{LoadError, QueryError};
use jj_nif::log;
use jj_nif::settings::EffectiveSettings;
use jj_nif::workspace::{
    get_workspace_settings, head_chain, reaches, Bookmark, CommitRecord, RepoSnapshot,
    WorkspaceSettings,
};

fn commit(commit_id: &str, change_id: &str, parents: Vec<usize>, desc: &str) -> CommitRecord {
    CommitRecord {
        commit_id: String::from(commit_id),
        change_id: String::from(change_id),
        parents,
        description: String::from(desc),
        author_name: String::from("Ann Author"),
        author_email: String::from("ann@example.com"),
        timestamp: 1699999999,
    }
}

fn no_settings() -> EffectiveSettings {
    EffectiveSettings { values: vec![] }
}

/// 0 <- 1 <- 2, working copy at 2.
fn linear_repo() -> RepoSnapshot {
    RepoSnapshot {
        commits: vec![
            commit("aaa1", "zzz1", vec![], "root message\nsecond line"),
            commit("aab2", "zzy2", vec![0], "middle"),
            commit("abc3", "zyx3", vec![1], "tip line\r\nrest"),
        ],
        bookmarks: vec![Bookmark { name: String::from("main"), target: 1 }],
        working_copy: Some(2),
    }
}

fn session(repo: RepoSnapshot) -> WorkspaceSettings {
    get_workspace_settings(no_settings(), repo, 7).unwrap()
}

#[test]
fn load_keeps_the_snapshot_and_generation() {
    let ws = session(linear_repo());
    assert_eq!(ws.generation, 7);
    assert_eq!(ws.repo_readonly.commits.len(), 3);
}

#[test]
fn load_rejects_a_parent_after_its_child() {
    let repo = RepoSnapshot {
        commits: vec![commit("aaa1", "zzz1", vec![1], "bad"), commit("bbb2", "yyy2", vec![], "ok")],
        bookmarks: vec![],
        working_copy: None,
    };
    assert!(matches!(
        get_workspace_settings(no_settings(), repo, 1),
        Err(LoadError::StoreOpen { .. })
    ));
}

#[test]
fn load_rejects_duplicate_identifiers() {
    let repo = RepoSnapshot {
        commits: vec![commit("aaa1", "zzz1", vec![], "a"), commit("aaa1", "yyy2", vec![0], "b")],
        bookmarks: vec![],
        working_copy: None,
    };
    assert!(matches!(
        get_workspace_settings(no_settings(), repo, 1),
        Err(LoadError::StoreOpen { .. })
    ));
}

#[test]
fn load_rejects_a_dangling_bookmark() {
    let repo = RepoSnapshot {
        commits: vec![commit("aaa1", "zzz1", vec![], "a")],
        bookmarks: vec![Bookmark { name: String::from("main"), target: 5 }],
        working_copy: None,
    };
    assert!(matches!(
        get_workspace_settings(no_settings(), repo, 1),
        Err(LoadError::StoreOpen { .. })
    ));
}

#[test]
fn load_rejects_a_dangling_working_copy() {
    let repo = RepoSnapshot {
        commits: vec![commit("aaa1", "zzz1", vec![], "a")],
        bookmarks: vec![],
        working_copy: Some(9),
    };
    assert!(matches!(
        get_workspace_settings(no_settings(), repo, 1),
        Err(LoadError::StoreOpen { .. })
    ));
}

#[test]
fn reaches_follows_parent_links() {
    let ws = session(linear_repo());
    let repo = &ws.repo_readonly;
    assert!(reaches(repo, 2, 0));
    assert!(reaches(repo, 2, 2));
    assert!(!reaches(repo, 0, 2));
}

#[test]
fn head_chain_walks_first_parents_newest_first() {
    let ws = session(linear_repo());
    let v = head_chain(&ws, 10).unwrap();
    assert_eq!(v.len(), 3);
    assert_eq!(v[0].commit_id, "abc3");
    assert_eq!(v[1].commit_id, "aab2");
    assert_eq!(v[2].commit_id, "aaa1");
}

#[test]
fn head_chain_respects_the_limit() {
    let ws = session(linear_repo());
    assert_eq!(head_chain(&ws, 0).unwrap().len(), 0);
    let v = head_chain(&ws, 2).unwrap();
    assert_eq!(v.len(), 2);
    assert_eq!(v[0].commit_id, "abc3");
    assert_eq!(v[1].commit_id, "aab2");
}

#[test]
fn head_chain_without_working_copy_fails() {
    let repo = RepoSnapshot {
        commits: vec![commit("aaa1", "zzz1", vec![], "a")],
        bookmarks: vec![],
        working_copy: None,
    };
    let ws = session(repo);
    assert!(matches!(head_chain(&ws, 3), Err(QueryError::Evaluate { .. })));
}

#[test]
fn head_chain_matches_the_ancestors_query() {
    // on a first-parent linear history the fast path and "::@" agree
    let ws = session(linear_repo());
    let fast = head_chain(&ws, 10).unwrap();
    let slow = log(&ws, "::@").unwrap();
    assert_eq!(fast.len(), slow.len());
    for k in 0..fast.len() {
        assert_eq!(fast[k].commit_id, slow[k].commit_id);
        assert_eq!(fast[k].change_id, slow[k].change_id);
        assert_eq!(fast[k].commit_id_short_len, slow[k].commit_id_short_len);
        assert_eq!(fast[k].change_id_short_len, slow[k].change_id_short_len);
        assert_eq!(fast[k].message_first_line, slow[k].message_first_line);
    }
    let fast2 = head_chain(&ws, 2).unwrap();
    assert_eq!(fast2.len(), 2);
    for k in 0..2 {
        assert_eq!(fast2[k].commit_id, slow[k].commit_id);
    }
}

#[test]
fn projection_computes_shortest_unique_prefixes() {
    // commit ids: aaa1, aab2, abc3 -> lengths 3, 3, 2
    // change ids: zzz1, zzy2, zyx3 -> lengths 3, 3, 2
    let ws = session(linear_repo());
    let repo = &ws.repo_readonly;
    let c0 = commit_to_erl_commit(repo, 0);
    let c1 = commit_to_erl_commit(repo, 1);
    let c2 = commit_to_erl_commit(repo, 2);
    assert_eq!(c0.commit_id_short_len, 3);
    assert_eq!(c1.commit_id_short_len, 3);
    assert_eq!(c2.commit_id_short_len, 2);
    assert_eq!(c0.change_id_short_len, 3);
    assert_eq!(c1.change_id_short_len, 3);
    assert_eq!(c2.change_id_short_len, 2);
    // the lengths are minimal: one character less always collides
    assert_eq!(&c0.commit_id[..2], &c1.commit_id[..2]);
    assert_eq!(&c0.commit_id[..1], &c2.commit_id[..1]);
}

#[test]
fn projection_of_a_sole_commit_needs_no_prefix() {
    let repo = RepoSnapshot {
        commits: vec![commit("aaa1", "zzz1", vec![], "only")],
        bookmarks: vec![],
        working_copy: Some(0),
    };
    let ws = session(repo);
    let c = commit_to_erl_commit(&ws.repo_readonly, 0);
    assert_eq!(c.commit_id_short_len, 0);
    assert_eq!(c.change_id_short_len, 0);
}

#[test]
fn reprojection_is_identical() {
    let ws = session(linear_repo());
    let a = commit_to_erl_commit(&ws.repo_readonly, 1);
    let b = commit_to_erl_commit(&ws.repo_readonly, 1);
    assert_eq!(a.commit_id, b.commit_id);
    assert_eq!(a.change_id, b.change_id);
    assert_eq!(a.commit_id_short_len, b.commit_id_short_len);
    assert_eq!(a.change_id_short_len, b.change_id_short_len);
    assert_eq!(a.message_first_line, b.message_first_line);
    assert_eq!(a.timestamp, b.timestamp);
}

#[test]
fn projection_carries_the_author_fields() {
    let ws = session(linear_repo());
    let c = commit_to_erl_commit(&ws.repo_readonly, 0);
    assert_eq!(c.author_name, "Ann Author");
    assert_eq!(c.author_email, "ann@example.com");
    assert_eq!(c.timestamp, 1699999999);
    assert_eq!(c.change_id, "zzz1");
    assert_eq!(c.commit_id, "aaa1");
}

#[test]
fn first_line_extraction() {
    assert_eq!(first_line_of(""), "");
    assert_eq!(first_line_of("one line"), "one line");
    assert_eq!(first_line_of("first\nsecond"), "first");
    assert_eq!(first_line_of("first\r\nsecond"), "first");
    assert_eq!(first_line_of("\nempty first"), "");
    assert_eq!(first_line_of("trailing\n"), "trailing");
    assert_eq!(first_line_of("carriage only\r"), "carriage only\r");
    let ws = session(linear_repo());
    let c0 = commit_to_erl_commit(&ws.repo_readonly, 0);
    let c2 = commit_to_erl_commit(&ws.repo_readonly, 2);
    assert_eq!(c0.message_first_line, "root message");
    assert_eq!(c2.message_first_line, "tip line");
}
