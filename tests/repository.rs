use simperby_repository::codec::SemanticCommit;
use simperby_repository::error::Error;
use simperby_repository::hash::CommitHash;
use simperby_repository::repo::{Head, MemRepository};

fn h(n: u8) -> CommitHash {
    CommitHash { hash: [n; 20] }
}

fn s(text: &str) -> String {
    text.to_string()
}

fn fresh() -> MemRepository {
    MemRepository::init(s("main"))
}

#[test]
fn empty_repository_has_no_head_then_genesis_is_head_and_initial() {
    let mut repo = fresh();
    assert!(matches!(repo.get_head(), Err(Error::InvalidRepository(_))));
    assert!(matches!(repo.get_initial_commit(), Err(Error::InvalidRepository(_))));
    assert_eq!(repo.create_commit(s("genesis"), h(0)).unwrap(), h(0));
    assert_eq!(repo.get_head().unwrap(), h(0));
    assert_eq!(repo.get_initial_commit().unwrap(), h(0));
    assert_eq!(repo.locate_branch(&s("main")).unwrap(), h(0));
}

#[test]
fn creating_a_taken_branch_fails_and_keeps_it() {
    let mut repo = fresh();
    repo.create_commit(s("genesis"), h(0)).unwrap();
    repo.create_commit(s("second"), h(1)).unwrap();
    repo.create_branch(&s("feature"), h(0)).unwrap();
    assert!(matches!(repo.create_branch(&s("feature"), h(1)), Err(Error::AlreadyExists(_))));
    let names = repo.list_branches();
    assert_eq!(names.iter().filter(|n| n.as_str() == "feature").count(), 1);
    assert_eq!(repo.locate_branch(&s("feature")).unwrap(), h(0));
    assert_eq!(repo.get_branches(&h(0)).unwrap(), vec![s("feature")]);
}

#[test]
fn branch_on_unknown_commit_is_not_found() {
    let mut repo = fresh();
    repo.create_commit(s("genesis"), h(0)).unwrap();
    assert!(matches!(repo.create_branch(&s("x"), h(9)), Err(Error::NotFound(_))));
    assert!(repo.list_branches().iter().all(|n| n.as_str() != "x"));
}

#[test]
fn linear_ancestors_nearest_first_and_bounded() {
    let mut repo = fresh();
    repo.create_commit(s("genesis"), h(0)).unwrap();
    repo.create_commit(s("one"), h(1)).unwrap();
    repo.create_commit(s("two"), h(2)).unwrap();
    assert_eq!(repo.list_ancestors(&h(2), None).unwrap(), vec![h(1), h(0)]);
    assert_eq!(repo.list_ancestors(&h(2), Some(1)).unwrap(), vec![h(1)]);
    assert_eq!(repo.list_ancestors(&h(2), Some(0)).unwrap(), Vec::<CommitHash>::new());
    assert_eq!(repo.list_ancestors(&h(2), Some(5)).unwrap(), vec![h(1), h(0)]);
    assert_eq!(repo.list_descendants(&h(0), None).unwrap(), vec![h(1), h(2)]);
    assert_eq!(repo.list_descendants(&h(0), Some(1)).unwrap(), vec![h(1)]);
    assert_eq!(repo.list_descendants(&h(2), None).unwrap(), Vec::<CommitHash>::new());
}

#[test]
fn ancestors_of_root_or_unknown_fail() {
    let mut repo = fresh();
    repo.create_commit(s("genesis"), h(0)).unwrap();
    assert!(matches!(repo.list_ancestors(&h(0), None), Err(Error::InvalidRepository(_))));
    assert!(matches!(repo.list_ancestors(&h(7), None), Err(Error::NotFound(_))));
}

#[test]
fn ancestor_count_equals_depth() {
    let mut repo = fresh();
    for n in 0..6u8 {
        repo.create_commit(format!("commit {}", n), h(n)).unwrap();
    }
    for n in 1..6u8 {
        let all = repo.list_ancestors(&h(n), None).unwrap();
        assert_eq!(all.len(), n as usize);
        assert_eq!(all[0], h(n - 1));
        assert_eq!(*all.last().unwrap(), h(0));
        for k in 0..=n as usize {
            assert_eq!(repo.list_ancestors(&h(n), Some(k)).unwrap(), all[..k].to_vec());
        }
    }
}

fn forked() -> MemRepository {
    let mut repo = fresh();
    repo.create_commit(s("genesis"), h(0)).unwrap();
    repo.create_commit(s("left"), h(1)).unwrap();
    repo.create_branch(&s("side"), h(0)).unwrap();
    repo.checkout(&s("side")).unwrap();
    repo.create_commit(s("right"), h(2)).unwrap();
    repo
}

#[test]
fn two_children_of_one_commit() {
    let repo = forked();
    let mut children = repo.list_children(&h(0)).unwrap();
    children.sort_by_key(|c| c.hash);
    assert_eq!(children, vec![h(1), h(2)]);
    assert_eq!(repo.find_merge_base(&h(1), &h(2)).unwrap(), h(0));
    assert!(matches!(repo.list_descendants(&h(0), None), Err(Error::InvalidRepository(_))));
    assert_eq!(repo.list_children(&h(1)).unwrap(), Vec::<CommitHash>::new());
}

#[test]
fn merge_base_is_reflexive_and_symmetric() {
    let repo = forked();
    for a in 0..3u8 {
        assert_eq!(repo.find_merge_base(&h(a), &h(a)).unwrap(), h(a));
        for b in 0..3u8 {
            assert_eq!(
                repo.find_merge_base(&h(a), &h(b)).unwrap(),
                repo.find_merge_base(&h(b), &h(a)).unwrap()
            );
        }
    }
    assert!(matches!(repo.find_merge_base(&h(1), &h(9)), Err(Error::NotFound(_))));
}

#[test]
fn move_then_locate_gives_the_target() {
    let mut repo = fresh();
    repo.create_commit(s("genesis"), h(0)).unwrap();
    repo.create_commit(s("one"), h(1)).unwrap();
    repo.create_branch(&s("b"), h(1)).unwrap();
    repo.move_branch(&s("b"), &h(0)).unwrap();
    assert_eq!(repo.locate_branch(&s("b")).unwrap(), h(0));
    assert!(matches!(repo.move_branch(&s("b"), &h(8)), Err(Error::NotFound(_))));
    assert!(matches!(repo.move_branch(&s("none"), &h(0)), Err(Error::NotFound(_))));
    assert_eq!(repo.locate_branch(&s("b")).unwrap(), h(0));
}

#[test]
fn deleting_absent_refs_fails_and_changes_nothing() {
    let mut repo = fresh();
    repo.create_commit(s("genesis"), h(0)).unwrap();
    repo.create_tag(&s("v1"), &h(0)).unwrap();
    let branches = repo.list_branches();
    let tags = repo.list_tags();
    assert!(matches!(repo.delete_branch(&s("ghost")), Err(Error::NotFound(_))));
    assert!(matches!(repo.remove_tag(&s("ghost")), Err(Error::NotFound(_))));
    assert_eq!(repo.list_branches(), branches);
    assert_eq!(repo.list_tags(), tags);
    repo.delete_branch(&s("main")).unwrap();
    assert!(repo.list_branches().is_empty());
    repo.remove_tag(&s("v1")).unwrap();
    assert!(repo.list_tags().is_empty());
}

#[test]
fn tags_are_created_located_and_listed_by_commit() {
    let mut repo = fresh();
    repo.create_commit(s("genesis"), h(0)).unwrap();
    repo.create_commit(s("one"), h(1)).unwrap();
    repo.create_tag(&s("v0"), &h(0)).unwrap();
    repo.create_tag(&s("v1"), &h(1)).unwrap();
    assert!(matches!(repo.create_tag(&s("v1"), &h(0)), Err(Error::AlreadyExists(_))));
    assert!(matches!(repo.create_tag(&s("v2"), &h(5)), Err(Error::NotFound(_))));
    assert_eq!(repo.locate_tag(&s("v0")).unwrap(), h(0));
    assert!(matches!(repo.locate_tag(&s("v9")), Err(Error::NotFound(_))));
    assert_eq!(repo.get_tag(&h(1)).unwrap(), vec![s("v1")]);
    assert_eq!(repo.get_tag(&h(4)).unwrap(), Vec::<String>::new());
    assert_eq!(repo.get_branches(&h(4)).unwrap(), Vec::<String>::new());
    assert_eq!(repo.get_tag(&h(0)).unwrap(), vec![s("v0")]);
}

#[test]
fn detached_head_refuses_commits() {
    let mut repo = fresh();
    repo.create_commit(s("genesis"), h(0)).unwrap();
    repo.create_commit(s("one"), h(1)).unwrap();
    repo.checkout_detach(&h(0)).unwrap();
    assert!(matches!(repo.head(), Head::Detached(c) if *c == h(0)));
    assert_eq!(repo.get_head().unwrap(), h(0));
    assert!(matches!(repo.create_commit(s("two"), h(2)), Err(Error::InvalidRepository(_))));
    assert!(matches!(repo.checkout_detach(&h(9)), Err(Error::NotFound(_))));
    assert!(matches!(repo.checkout(&s("nope")), Err(Error::NotFound(_))));
    repo.checkout(&s("main")).unwrap();
    assert_eq!(repo.get_head().unwrap(), h(1));
}

#[test]
fn duplicate_commit_hash_is_refused() {
    let mut repo = fresh();
    repo.create_commit(s("genesis"), h(0)).unwrap();
    assert!(matches!(repo.create_commit(s("again"), h(0)), Err(Error::AlreadyExists(_))));
    assert_eq!(repo.get_head().unwrap(), h(0));
}

#[test]
fn diff_base_is_the_single_parent() {
    let repo = forked();
    assert_eq!(repo.diff_base(&h(2)).unwrap(), h(0));
    assert!(matches!(repo.diff_base(&h(0)), Err(Error::InvalidRepository(_))));
    assert!(matches!(repo.diff_base(&h(3)), Err(Error::NotFound(_))));
}

#[test]
fn semantic_commit_round_trips_through_the_repository() {
    let mut repo = fresh();
    repo.create_commit(s("genesis"), h(0)).unwrap();
    let commit = SemanticCommit {
        title: s("block 1"),
        body: s("finalized\nby all"),
        reserved_state: Some(s("{\"height\":1}")),
    };
    assert_eq!(repo.create_semantic_commit(&commit, h(1)).unwrap(), h(1));
    let back = repo.read_semantic_commit(&h(1)).unwrap();
    assert_eq!(back.title, commit.title);
    assert_eq!(back.body, commit.body);
    assert_eq!(back.reserved_state, commit.reserved_state);
    assert!(matches!(repo.read_semantic_commit(&h(0)), Err(Error::InvalidRepository(_))));
    assert!(matches!(repo.read_semantic_commit(&h(5)), Err(Error::NotFound(_))));
}

#[test]
fn remotes_are_added_listed_and_removed() {
    let mut repo = fresh();
    assert!(repo.list_remotes().is_empty());
    repo.add_remote(&s("origin"), &s("https://example.org/a.git")).unwrap();
    repo.add_remote(&s("peer"), &s("https://example.org/b.git")).unwrap();
    assert!(matches!(repo.add_remote(&s("origin"), &s("x")), Err(Error::AlreadyExists(_))));
    assert_eq!(
        repo.list_remotes(),
        vec![
            (s("origin"), s("https://example.org/a.git")),
            (s("peer"), s("https://example.org/b.git"))
        ]
    );
    repo.remove_remote(&s("origin")).unwrap();
    assert!(matches!(repo.remove_remote(&s("origin")), Err(Error::NotFound(_))));
    assert_eq!(repo.list_remotes(), vec![(s("peer"), s("https://example.org/b.git"))]);
}

#[test]
fn merge_commits_break_linear_walks() {
    let mut repo = fresh();
    repo.import_commit(h(0), vec![], s("root")).unwrap();
    repo.import_commit(h(1), vec![h(0)], s("left")).unwrap();
    repo.import_commit(h(2), vec![h(0)], s("right")).unwrap();
    repo.import_commit(h(3), vec![h(1), h(2)], s("merge")).unwrap();
    repo.import_commit(h(4), vec![h(3)], s("after")).unwrap();
    assert!(matches!(repo.import_commit(h(5), vec![h(9)], s("dangling")), Err(Error::NotFound(_))));
    assert!(matches!(repo.import_commit(h(4), vec![], s("again")), Err(Error::AlreadyExists(_))));
    assert_eq!(repo.list_ancestors(&h(4), Some(1)).unwrap(), vec![h(3)]);
    assert!(matches!(repo.list_ancestors(&h(4), Some(2)), Err(Error::InvalidRepository(_))));
    assert!(matches!(repo.list_ancestors(&h(4), None), Err(Error::InvalidRepository(_))));
    assert!(matches!(repo.find_merge_base(&h(4), &h(1)), Err(Error::InvalidRepository(_))));
    assert!(matches!(repo.diff_base(&h(3)), Err(Error::InvalidRepository(_))));
    assert_eq!(repo.list_children(&h(3)).unwrap(), vec![h(4)]);
}

#[test]
fn disconnected_histories_share_no_base() {
    let mut repo = fresh();
    repo.import_commit(h(0), vec![], s("first root")).unwrap();
    repo.import_commit(h(1), vec![], s("second root")).unwrap();
    assert!(matches!(repo.find_merge_base(&h(0), &h(1)), Err(Error::NotFound(_))));
}

#[test]
fn invalid_ref_names_are_refused() {
    let mut repo = fresh();
    repo.create_commit(s("genesis"), h(0)).unwrap();
    for bad in ["", "has space", "tab\there", "a~b", "a^b", "a:b", "a?b", "a*b", "a[b", "a\\b", "a//b", "trailing/", "bell\u{7}"] {
        assert!(matches!(repo.create_branch(&s(bad), h(0)), Err(Error::InvalidRepository(_))), "{:?}", bad);
        assert!(matches!(repo.create_tag(&s(bad), &h(0)), Err(Error::InvalidRepository(_))), "{:?}", bad);
    }
    assert!(matches!(repo.create_branch(&s("has space"), h(9)), Err(Error::InvalidRepository(_))));
    for good in ["feature/x", "v1.0", "release-2", "ünï"] {
        repo.create_branch(&s(good), h(0)).unwrap();
        repo.create_tag(&s(good), &h(0)).unwrap();
    }
    assert_eq!(repo.list_branches().len(), 5);
    assert_eq!(repo.list_tags().len(), 4);
}

#[test]
fn removed_remote_is_gone_and_names_stay_distinct() {
    let mut repo = fresh();
    repo.add_remote(&s("a"), &s("u1")).unwrap();
    repo.add_remote(&s("b"), &s("u2")).unwrap();
    repo.remove_remote(&s("a")).unwrap();
    repo.add_remote(&s("a"), &s("u3")).unwrap();
    let names: Vec<String> = repo.list_remotes().into_iter().map(|(n, _)| n).collect();
    assert_eq!(names, vec![s("b"), s("a")]);
}
