use checkout_core::checkout::{
    checkout_thread_limit_from_config, materialize, BlobStore, ConfigInt, Error, Interrupt,
    PrepareCheckout, Repository, StoredBlob,
};
use checkout_core::codec::parse_index;
use checkout_core::index::StagingTable;
use checkout_core::tree::{StoredTree, Tree, TreeEntry, TreeStore};

fn file(name: &str, id: u64) -> TreeEntry {
    TreeEntry { name: name.as_bytes().to_vec(), mode: 0o100644, id, is_tree: false }
}

fn subtree(name: &str, id: u64) -> TreeEntry {
    TreeEntry { name: name.as_bytes().to_vec(), mode: 0o040000, id, is_tree: true }
}

fn sample_repo() -> Repository {
    Repository {
        git_dir: b"repo/.git".to_vec(),
        work_dir: Some(b"repo".to_vec()),
        head_tree: Some(1),
        lenient_config: false,
        workers: ConfigInt::Unset,
        trees: TreeStore {
            trees: vec![
                StoredTree { id: 2, tree: Tree { entries: vec![file("b.txt", 11)] } },
                StoredTree {
                    id: 1,
                    tree: Tree { entries: vec![file("a.txt", 10), subtree("dir", 2)] },
                },
            ],
        },
        blobs: BlobStore {
            blobs: vec![
                StoredBlob { id: 10, data: b"alpha".to_vec() },
                StoredBlob { id: 11, data: b"beta".to_vec() },
            ],
        },
    }
}

fn no_interrupt() -> Interrupt {
    Interrupt { observations: vec![] }
}

#[test]
fn negative_worker_count_clamps_to_unlimited_sentinel() {
    let r = checkout_thread_limit_from_config(&ConfigInt::Value(-5), false);
    assert_eq!(r.expect("clamped"), Some(0));
}

#[test]
fn explicit_worker_count_is_used_as_is() {
    let r = checkout_thread_limit_from_config(&ConfigInt::Value(3), false);
    assert_eq!(r.expect("taken"), Some(3));
}

#[test]
fn absent_worker_count_stays_unset() {
    let r = checkout_thread_limit_from_config(&ConfigInt::Unset, false);
    assert_eq!(r.expect("absent"), None);
}

#[test]
fn invalid_worker_count_defaults_to_one_when_lenient() {
    let r = checkout_thread_limit_from_config(&ConfigInt::Invalid, true);
    assert_eq!(r.expect("lenient"), Some(1));
}

#[test]
fn invalid_worker_count_is_fatal_when_strict_naming_the_key() {
    let r = checkout_thread_limit_from_config(&ConfigInt::Invalid, false);
    match r {
        Err(Error::Configuration { key }) => assert_eq!(key, b"checkout.workers".to_vec()),
        _ => panic!("a strict repository must refuse the unparsable value"),
    }
}

#[test]
fn strict_config_error_surfaces_from_the_driver() {
    let mut repo = sample_repo();
    repo.workers = ConfigInt::Invalid;
    let mut prep = PrepareCheckout { repo: Some(repo) };
    match prep.main_worktree(&no_interrupt()) {
        Err(Error::Configuration { key }) => assert_eq!(key, b"checkout.workers".to_vec()),
        _ => panic!("strict mode must surface the configuration error"),
    }
}

#[test]
fn bare_repository_is_refused_naming_its_control_directory() {
    let mut repo = sample_repo();
    repo.work_dir = None;
    let mut prep = PrepareCheckout { repo: Some(repo) };
    match prep.main_worktree(&no_interrupt()) {
        Err(Error::BareRepository { git_dir }) => assert_eq!(git_dir, b"repo/.git".to_vec()),
        _ => panic!("a bare repository must be refused"),
    }
}

#[test]
fn head_without_a_tree_is_refused() {
    let mut repo = sample_repo();
    repo.head_tree = None;
    let mut prep = PrepareCheckout { repo: Some(repo) };
    assert!(matches!(prep.main_worktree(&no_interrupt()), Err(Error::NoHeadTree)));
}

#[test]
fn unresolvable_head_tree_is_an_index_error_naming_it() {
    let mut repo = sample_repo();
    repo.head_tree = Some(77);
    let mut prep = PrepareCheckout { repo: Some(repo) };
    match prep.main_worktree(&no_interrupt()) {
        Err(Error::IndexFromTree { id, .. }) => assert_eq!(id, 77),
        _ => panic!("an unresolvable tree must surface as an index error"),
    }
}

#[test]
fn checkout_plans_both_files_in_index_order() {
    let mut prep = PrepareCheckout { repo: Some(sample_repo()) };
    let outcome = prep.main_worktree(&no_interrupt()).expect("checkout succeeds");
    assert!(outcome.completed);
    assert_eq!(outcome.writes.len(), 2);
    assert_eq!(outcome.writes[0].path, b"a.txt".to_vec());
    assert_eq!(outcome.writes[0].data, b"alpha".to_vec());
    assert_eq!(outcome.writes[1].path, b"dir/b.txt".to_vec());
    assert_eq!(outcome.writes[1].data, b"beta".to_vec());
    assert_eq!(outcome.index.entries.len(), 2);
    assert_eq!(outcome.index.entries[0].path, b"a.txt".to_vec());
    assert_eq!(outcome.index.entries[1].path, b"dir/b.txt".to_vec());
    assert_eq!(outcome.thread_limit, None);
    assert!(outcome.options.destination_is_initially_empty);
    assert!(!outcome.options.overwrite_existing);
    assert!(!outcome.options.keep_going);
    assert!(outcome.options.trust_ctime);
    assert!(outcome.options.check_stat);
}

#[test]
fn persisted_index_bytes_read_back_as_the_built_table() {
    let mut prep = PrepareCheckout { repo: Some(sample_repo()) };
    let outcome = prep.main_worktree(&no_interrupt()).expect("checkout succeeds");
    let back = parse_index(&outcome.index_bytes).expect("the image parses");
    assert_eq!(back.entries.len(), outcome.index.entries.len());
    for (a, b) in back.entries.iter().zip(outcome.index.entries.iter()) {
        assert_eq!(a.path, b.path);
        assert_eq!(a.id, b.id);
        assert_eq!(a.mode, b.mode);
        assert_eq!(a.stage, b.stage);
    }
}

#[test]
fn cancellation_before_any_write_plans_zero_files_without_error() {
    let mut prep = PrepareCheckout { repo: Some(sample_repo()) };
    let interrupt = Interrupt { observations: vec![true] };
    let outcome = prep.main_worktree(&interrupt).expect("cancellation is no error");
    assert_eq!(outcome.writes.len(), 0);
    assert!(!outcome.completed);
    assert_eq!(outcome.index.entries.len(), 2);
}

#[test]
fn cancellation_mid_walk_keeps_a_strict_prefix() {
    let repo = sample_repo();
    let table = StagingTable {
        version: 2,
        entries: {
            let mut prep = PrepareCheckout { repo: Some(sample_repo()) };
            prep.main_worktree(&no_interrupt()).expect("checkout succeeds").index.entries
        },
    };
    let interrupt = Interrupt { observations: vec![false, true] };
    let (ws, completed) = materialize(&table, &repo.blobs, &interrupt).expect("no error");
    assert!(!completed);
    assert_eq!(ws.len(), 1);
    assert_eq!(ws[0].path, b"a.txt".to_vec());
}

#[test]
fn missing_blob_aborts_the_walk_naming_path_and_id() {
    let mut repo = sample_repo();
    repo.blobs.blobs.retain(|b| b.id != 11);
    let mut prep = PrepareCheckout { repo: Some(repo) };
    match prep.main_worktree(&no_interrupt()) {
        Err(Error::Materialization { path, id }) => {
            assert_eq!(path, b"dir/b.txt".to_vec());
            assert_eq!(id, 11);
        },
        _ => panic!("a missing blob must abort the walk"),
    }
}

#[test]
fn persist_hands_the_repository_back() {
    let prep = PrepareCheckout { repo: Some(sample_repo()) };
    let repo = prep.persist();
    assert_eq!(repo.git_dir, b"repo/.git".to_vec());
}

#[test]
fn teardown_takes_the_handle_exactly_once() {
    let mut prep = PrepareCheckout { repo: Some(sample_repo()) };
    let first = prep.take_for_cleanup();
    assert!(first.is_some());
    let second = prep.take_for_cleanup();
    assert!(second.is_none());
}

#[test]
fn cleanup_removes_worktree_or_control_directory() {
    let repo = sample_repo();
    assert_eq!(repo.cleanup_dir(), &b"repo".to_vec());
    let mut bare = sample_repo();
    bare.work_dir = None;
    assert_eq!(bare.cleanup_dir(), &b"repo/.git".to_vec());
}

#[test]
fn well_formedness_check_accepts_the_sample_and_refuses_duplicates() {
    let repo = sample_repo();
    assert!(repo.check_wf());
    let mut dup = sample_repo();
    dup.trees.trees.push(StoredTree { id: 2, tree: Tree { entries: vec![] } });
    assert!(!dup.check_wf());
}
