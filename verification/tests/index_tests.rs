use checkout_core::index::{build_index, StagingEntry, StagingTable, TraverseError, INDEX_VERSION};
use checkout_core::tree::{Tree, TreeEntry, TreeStore, StoredTree};

fn file(name: &str, id: u64) -> TreeEntry {
    TreeEntry { name: name.as_bytes().to_vec(), mode: 0o100644, id, is_tree: false }
}

fn subtree(name: &str, id: u64) -> TreeEntry {
    TreeEntry { name: name.as_bytes().to_vec(), mode: 0o040000, id, is_tree: true }
}

fn store(trees: Vec<(u64, Vec<TreeEntry>)>) -> TreeStore {
    TreeStore {
        trees: trees
            .into_iter()
            .map(|(id, entries)| StoredTree { id, tree: Tree { entries } })
            .collect(),
    }
}

#[test]
fn builds_sorted_stage0_entries_from_nested_tree() {
    let s = store(vec![
        (2, vec![file("b.txt", 11)]),
        (1, vec![file("a.txt", 10), subtree("dir", 2)]),
    ]);
    let table = build_index(1, &s).expect("tree resolves");
    assert_eq!(table.version, INDEX_VERSION);
    assert_eq!(table.entries.len(), 2);
    assert_eq!(table.entries[0].path, b"a.txt".to_vec());
    assert_eq!(table.entries[0].id, 10);
    assert_eq!(table.entries[1].path, b"dir/b.txt".to_vec());
    assert_eq!(table.entries[1].id, 11);
    assert!(table.entries.iter().all(|e| e.stage == 0));
}

#[test]
fn orders_paths_bytewise_even_when_walk_order_differs() {
    // A file that sorts between a directory's children and the directory name.
    let s = store(vec![
        (2, vec![file("z", 20)]),
        (1, vec![subtree("a", 2), file("a-b", 21), file("a0", 22)]),
    ]);
    let table = build_index(1, &s).expect("tree resolves");
    let paths: Vec<&[u8]> = table.entries.iter().map(|e| e.path.as_slice()).collect();
    assert_eq!(paths, vec![b"a-b".as_slice(), b"a/z".as_slice(), b"a0".as_slice()]);
}

#[test]
fn unresolvable_root_is_an_error() {
    let s = store(vec![(1, vec![file("a", 10)])]);
    match build_index(7, &s) {
        Err(TraverseError::UnresolvableTree { id }) => assert_eq!(id, 7),
        other => panic!("expected an unresolvable-tree error, got {:?}", discriminant(&other)),
    }
}

#[test]
fn unresolvable_subtree_is_an_error_not_a_partial_index() {
    let s = store(vec![(1, vec![file("a", 10), subtree("dir", 99)])]);
    assert!(build_index(1, &s).is_err());
}

#[test]
fn empty_entry_name_is_malformed() {
    let s = store(vec![(1, vec![file("", 10)])]);
    assert!(matches!(build_index(1, &s), Err(TraverseError::MalformedEntry { .. })));
}

#[test]
fn duplicate_full_paths_are_refused() {
    let s = store(vec![(1, vec![file("same", 10), file("same", 11)])]);
    assert!(matches!(build_index(1, &s), Err(TraverseError::DuplicatePath)));
}

#[test]
fn shared_subtree_under_two_directories_is_expanded_twice() {
    let s = store(vec![
        (2, vec![file("f", 30)]),
        (1, vec![subtree("a", 2), subtree("b", 2)]),
    ]);
    let table = build_index(1, &s).expect("tree resolves");
    let paths: Vec<&[u8]> = table.entries.iter().map(|e| e.path.as_slice()).collect();
    assert_eq!(paths, vec![b"a/f".as_slice(), b"b/f".as_slice()]);
}

fn discriminant(r: &Result<StagingTable, TraverseError>) -> &'static str {
    match r {
        Ok(_) => "ok",
        Err(TraverseError::UnresolvableTree { .. }) => "unresolvable",
        Err(TraverseError::MalformedEntry { .. }) => "malformed",
        Err(TraverseError::DuplicatePath) => "duplicate",
    }
}

#[test]
fn empty_tree_gives_empty_table() {
    let s = store(vec![(1, vec![])]);
    let table = build_index(1, &s).expect("tree resolves");
    assert_eq!(table.entries.len(), 0);
}

#[test]
fn entry_count_equals_reachable_file_leaves() {
    let s = store(vec![
        (3, vec![file("deep.txt", 40)]),
        (2, vec![file("b.txt", 11), subtree("inner", 3)]),
        (1, vec![file("a.txt", 10), subtree("dir", 2), file("c.txt", 12)]),
    ]);
    let table = build_index(1, &s).expect("tree resolves");
    assert_eq!(table.entries.len(), 4);
}

#[test]
fn staging_entry_fields_carry_over() {
    let e = StagingEntry { path: b"p".to_vec(), id: 5, mode: 0o100755, stage: 0 };
    assert_eq!(e.mode, 0o100755);
}
