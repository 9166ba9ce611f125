//! Commits, trees and their storage.
use helix::hash::{hash_bytes, hash_to_hex, hex_to_bytes, hex_to_hash, HexError};
use helix::helix_index::commit::{format_timestamp, short_hash, Commit, CommitError};
use helix::helix_index::commit_store::{checkout_commit, get_repo_name, CommitStore, ReadError};
use helix::helix_index::format::{Entry, EntryFlags};
use helix::helix_index::tree::{EntryType, Tree, TreeBuilder, TreeEntry, TreeError};
use helix::helix_index::tree_ends::trees_end;
use helix::helix_index::tree_storage::{
    pack_tree, packed_tree, tree_of_filename, unpack_tree, TreeBatch, TreeStorage, UnpackError,
};
use helix::helix_index::tree_walk::{collect_all_files, collect_tree_files, WalkError};
use helix::object_file::{object_file, object_of_file};
use helix::object_graph::parse_tree_entries;
use helix::object_store::{ObjectStore, ObjectType};
use helix::refs::RefStore;

const NOW: u64 = 1_700_000_000;

fn initial(tree: [u8; 32], author: &str, message: &str) -> Commit {
    Commit::initial(tree, author.to_string(), message.to_string(), NOW)
}

#[test]
fn test_commit_serialization() {
    let commit = initial([1u8; 32], "John Doe <john@example.com>", "Initial commit");

    let bytes = commit.to_bytes();
    let parsed = Commit::from_bytes(&bytes).unwrap();

    assert_eq!(parsed.tree_hash, commit.tree_hash);
    assert_eq!(parsed.parents, commit.parents);
    assert_eq!(parsed.author, commit.author);
    assert_eq!(parsed.message, commit.message);
}

#[test]
fn test_commit_with_parent() {
    let parent_hash = [2u8; 32];
    let commit = Commit::with_parent(
        [1u8; 32],
        parent_hash,
        "John Doe <john@example.com>".to_string(),
        "Second commit".to_string(),
        NOW,
    );

    assert_eq!(commit.parents.len(), 1);
    assert_eq!(commit.parents[0], parent_hash);
    assert!(!commit.is_initial());
    assert!(!commit.is_merge());
}

#[test]
fn test_merge_commit() {
    let parents = vec![[2u8; 32], [3u8; 32]];
    let commit = Commit::merge(
        [1u8; 32],
        parents.clone(),
        "John Doe <john@example.com>".to_string(),
        "Merge branch 'feature'".to_string(),
        NOW,
    );

    assert_eq!(commit.parents.len(), 2);
    assert!(!commit.is_initial());
    assert!(commit.is_merge());
}

#[test]
fn test_commit_hash_deterministic() {
    let make = || Commit {
        commit_hash: [2u8; 32],
        tree_hash: [1u8; 32],
        parents: vec![[2u8; 32]],
        author: "John Doe <john@example.com>".to_string(),
        author_time: 1234567890,
        commit_time: 1234567890,
        message: "Test commit".to_string(),
    };
    assert_eq!(make().get_hash(), make().get_hash());
}

#[test]
fn test_commit_storage_write_read() {
    let mut loader = CommitStore::new();
    let commit = initial([1u8; 32], "John Doe <john@example.com>", "Initial commit");

    let hash = loader.write_commit(&commit);
    let read_commit = loader.read_commit(&hash).unwrap();

    assert_eq!(read_commit.tree_hash, commit.tree_hash);
    assert_eq!(read_commit.message, commit.message);
}

#[test]
fn test_commit_storage_deduplication() {
    let mut loader = CommitStore::new();
    let commit = initial([1u8; 32], "John Doe <john@example.com>", "Initial commit");

    let hash1 = loader.write_commit(&commit);
    let hash2 = loader.write_commit(&commit);

    assert_eq!(hash1, hash2);
    assert_eq!(loader.list_commits().len(), 1);
}

#[test]
fn test_commit_storage_exists() {
    let mut loader = CommitStore::new();
    let commit = initial([1u8; 32], "John Doe <john@example.com>", "Initial commit");
    let hash = loader.write_commit(&commit);

    assert!(loader.commit_exists(&hash));
    assert!(!loader.commit_exists(&[255u8; 32]));
}

#[test]
fn test_commit_batch_operations() {
    let mut loader = CommitStore::new();
    let commits: Vec<Commit> = (0..10)
        .map(|i| {
            initial(
                hash_bytes(format!("tree{}", i).as_bytes()),
                &format!("Author {} <author{}@example.com>", i, i),
                &format!("Commit {}", i),
            )
        })
        .collect();

    let hashes = loader.write_commits_batch(&commits);
    assert_eq!(hashes.len(), 10);

    let read_commits = loader.read_commits_batch(&hashes).unwrap();
    assert_eq!(read_commits.len(), 10);

    for (original, read) in commits.iter().zip(read_commits.iter()) {
        assert_eq!(original.message, read.message);
    }
}

#[test]
fn test_commit_summary() {
    let commit = initial(
        [1u8; 32],
        "John Doe <john@example.com>",
        "First line\nSecond line\nThird line",
    );
    assert_eq!(commit.summary(), "First line");
}

#[test]
fn test_multiline_commit_message() {
    let message = "Short summary\n\nLonger description here.\nWith multiple lines.";
    let commit = initial([1u8; 32], "John Doe <john@example.com>", message);

    let bytes = commit.to_bytes();
    let parsed = Commit::from_bytes(&bytes).unwrap();

    assert_eq!(parsed.message, message);
    assert_eq!(parsed.summary(), "Short summary");
}

#[test]
fn damaged_commits_are_refused() {
    let commit = Commit::with_parent([1u8; 32], [2u8; 32], "ab".to_string(), "cd".to_string(), 7);
    let bytes = commit.to_bytes();
    assert_eq!(Commit::from_bytes(&bytes[0..10]).unwrap_err(), CommitError::TooShort(10));
    let mut last = None;
    for n in 36..bytes.len() {
        let e = Commit::from_bytes(&bytes[0..n]).unwrap_err();
        if last != Some(e) {
            last = Some(e);
        }
    }
    assert_eq!(last, Some(CommitError::EndedInMessage));
    let mut store = CommitStore::new();
    store.store.write_object_with_hash(ObjectType::Commit, &[9u8; 32], vec![1, 2]);
    assert!(matches!(store.read_commit(&[9u8; 32]), Err(ReadError::Damaged(_))));
    assert!(matches!(store.read_commit(&[8u8; 32]), Err(ReadError::Missing(_))));
    assert!(store.read_commits_batch(&vec![[8u8; 32]]).is_err());
}

#[test]
fn history_of_a_branch_follows_first_parents() {
    let mut store = CommitStore::new();
    let mut refs = RefStore::new();
    let a = store.write_commit(&initial([1u8; 32], "x", "a"));
    let b = store.write_commit(&Commit::with_parent(
        [2u8; 32],
        a,
        "x".to_string(),
        "b".to_string(),
        NOW,
    ));
    let c = store.write_commit(&Commit::merge(
        [3u8; 32],
        vec![b, [7u8; 32]],
        "x".to_string(),
        "c".to_string(),
        NOW,
    ));
    refs.set_ref("refs/heads/main".to_string(), hash_to_hex(&c));
    refs.set_head("ref: refs/heads/main\n".to_string());
    let names = |v: Vec<Commit>| v.into_iter().map(|c| c.message).collect::<Vec<String>>();
    assert_eq!(names(store.load_commits(&refs, 10)), vec!["c", "b", "a"]);
    assert_eq!(names(store.load_commits_for_branch(&refs, "main", 2).unwrap()), vec!["c", "b"]);
    assert_eq!(
        names(store.load_commits_for_branch_until(&refs, "main", 10, Some(a)).unwrap()),
        vec!["c", "b"]
    );
    assert!(store.load_commits_for_branch(&refs, "none", 5).unwrap().is_empty());
    refs.set_ref("refs/heads/bad".to_string(), "zz".to_string());
    assert!(store.load_commits_for_branch(&refs, "bad", 5).is_err());
    assert!(store.remote_tracking_info().is_none());
    checkout_commit(&mut refs, &a, Some("old"));
    assert!(refs.head.as_ref().unwrap().contains("old"));
    assert_eq!(get_repo_name("/a/b"), "b");
}

#[test]
fn commits_for_display() {
    let mut c = initial([1u8; 32], "A <a@b>", "one\ntwo");
    c.author_time = 0;
    let shown = c.format_with_date(&[0xabu8; 32], "today");
    assert_eq!(shown, "commit abababab\nAuthor: A <a@b>\nDate:   today\n\n    one\n    two");
    assert_eq!(format_timestamp(0), "01/01/70 00:00:00");
    assert_eq!(format_timestamp(86_399), "01/01/70 23:59:59");
    assert!(c.format(&[0xabu8; 32]).contains("Date:   01/01/70 00:00:00"));
    assert_eq!(short_hash(&[0xcdu8; 32]), "cdcdcdcd");
    c.commit_time = 1000;
    assert_eq!(c.relative_time(1030, 0), "30 seconds ago");
    c.commit_time = u64::MAX / 2;
    assert!(c.relative_time(1030, 0).len() > 0);
}

#[test]
fn test_entry_type_from_mode() {
    assert_eq!(EntryType::from_mode(0o100644), EntryType::File);
    assert_eq!(EntryType::from_mode(0o100755), EntryType::FileExecutable);
    assert_eq!(EntryType::from_mode(0o120000), EntryType::Symlink);
}

#[test]
fn test_tree_entry_serialization() {
    let entry = TreeEntry::new_file("test.txt".to_string(), hash_bytes(b"test"), 0o100644, 1024);

    let bytes = entry.to_bytes();
    let parsed = TreeEntry::from_bytes(&bytes).unwrap();

    assert_eq!(parsed, entry);
}

#[test]
fn test_tree_entry_ordering() {
    let e1 = TreeEntry::new_file("a.txt".to_string(), [0u8; 32], 0o100644, 0);
    let e2 = TreeEntry::new_file("b.txt".to_string(), [0u8; 32], 0o100644, 0);
    let e3 = TreeEntry::new_file("c.txt".to_string(), [0u8; 32], 0o100644, 0);

    assert!(e1 < e2);
    assert!(e2 < e3);
    assert!(e1 < e3);
}

#[test]
fn test_tree_serialization() {
    let mut tree = Tree::new();
    tree.add_entry(TreeEntry::new_file(
        "file1.txt".to_string(),
        hash_bytes(b"content1"),
        0o100644,
        100,
    ));
    tree.add_entry(TreeEntry::new_file(
        "file2.txt".to_string(),
        hash_bytes(b"content2"),
        0o100755,
        200,
    ));
    tree.sort();

    let bytes = tree.to_bytes();
    let parsed = Tree::from_bytes(&bytes).unwrap();

    assert_eq!(parsed, tree);
}

#[test]
fn test_tree_hash_deterministic() {
    let mut tree1 = Tree::new();
    tree1.add_entry(TreeEntry::new_file("a.txt".to_string(), [1u8; 32], 0o100644, 10));
    tree1.add_entry(TreeEntry::new_file("b.txt".to_string(), [2u8; 32], 0o100644, 20));
    tree1.sort();

    let mut tree2 = Tree::new();
    tree2.add_entry(TreeEntry::new_file("b.txt".to_string(), [2u8; 32], 0o100644, 20));
    tree2.add_entry(TreeEntry::new_file("a.txt".to_string(), [1u8; 32], 0o100644, 10));
    tree2.sort();

    assert_eq!(tree1.hash(), tree2.hash());
}

#[test]
fn test_tree_storage_write_read() {
    let mut storage = TreeStorage::new();

    let mut tree = Tree::new();
    tree.add_entry(TreeEntry::new_file("test.txt".to_string(), hash_bytes(b"test"), 0o100644, 100));
    tree.sort();

    let hash = storage.write(&tree);
    let read_tree = storage.read(&hash).unwrap();

    assert_eq!(read_tree, tree);
}

#[test]
fn test_tree_storage_deduplication() {
    let mut storage = TreeStorage::new();

    let mut tree = Tree::new();
    tree.add_entry(TreeEntry::new_file("test.txt".to_string(), hash_bytes(b"test"), 0o100644, 100));

    let hash1 = storage.write(&tree);
    let hash2 = storage.write(&tree);

    assert_eq!(hash1, hash2);
    assert_eq!(storage.list_all().len(), 1);
}

#[test]
fn test_tree_storage_exists() {
    let mut storage = TreeStorage::new();
    let hash = storage.write(&Tree::new());

    assert!(storage.tree_exists(&hash));
    assert!(!storage.tree_exists(&[255u8; 32]));
}

#[test]
fn test_tree_storage_delete() {
    let mut storage = TreeStorage::new();
    let hash = storage.write(&Tree::new());
    assert!(storage.tree_exists(&hash));

    storage.delete(&hash);

    assert!(!storage.tree_exists(&hash));
}

fn indexed(path: &str, content: &[u8], size: u64) -> Entry {
    let mut e = Entry::new(path.to_string(), size, 0, hash_bytes(content), 0o100644);
    e.flags = EntryFlags::from_bits_retain(EntryFlags::TRACKED);
    e
}

#[test]
fn test_tree_builder_simple() {
    let mut storage = TreeStorage::new();
    let entries = vec![indexed("file1.txt", b"content1", 100), indexed("file2.txt", b"content2", 200)];

    let root_hash = TreeBuilder::build_from_entries(&mut storage.store, &entries);

    assert!(storage.tree_exists(&root_hash));
    let tree = storage.read(&root_hash).unwrap();
    assert_eq!(tree.entries.len(), 2);
}

#[test]
fn test_tree_builder_nested() {
    let mut storage = TreeStorage::new();
    let entries = vec![indexed("file.txt", b"root", 100), indexed("dir/nested.txt", b"nested", 200)];

    let root_hash = TreeBuilder::build_from_entries(&mut storage.store, &entries);

    let root_tree = storage.read(&root_hash).unwrap();
    assert_eq!(root_tree.entries.len(), 2);

    let dir_entry =
        root_tree.entries.iter().find(|e| e.entry_type == EntryType::Tree).unwrap();

    let dir_tree = storage.read(&dir_entry.oid).unwrap();
    assert_eq!(dir_tree.entries.len(), 1);
    assert_eq!(dir_tree.entries[0].name, "nested.txt");
}

#[test]
fn trees_do_not_depend_on_the_order_of_files() {
    let paths = ["b/c.txt", "a", "b/d/e", "a/f", "b/a"];
    let mut entries: Vec<Entry> = paths.iter().map(|p| indexed(p, p.as_bytes(), 1)).collect();
    let mut store = ObjectStore::new();
    let root = TreeBuilder::build_from_entries(&mut store, &entries);
    for _ in 0..paths.len() {
        entries.rotate_left(1);
        assert_eq!(TreeBuilder::build_from_entries(&mut store, &entries), root);
        let mut backwards: Vec<Entry> = entries.iter().map(|e| e.duplicate()).collect();
        backwards.reverse();
        assert_eq!(TreeBuilder::build_from_entries(&mut store, &backwards), root);
    }
}

#[test]
fn trees_that_contain_themselves_are_found() {
    let mut store = ObjectStore::new();
    assert!(trees_end(&store));
    TreeBuilder::build_from_entries(&mut store, &vec![indexed("b/c/d.txt", b"1", 1)]);
    assert!(trees_end(&store));
    let mut outer = Tree::new();
    outer.add_entry(TreeEntry::new_tree("x".to_string(), [8u8; 32]));
    store.write_object_with_hash(ObjectType::Tree, &[7u8; 32], outer.to_bytes());
    assert!(trees_end(&store));
    let mut inner = Tree::new();
    inner.add_entry(TreeEntry::new_tree("y".to_string(), [7u8; 32]));
    store.write_object_with_hash(ObjectType::Tree, &[8u8; 32], inner.to_bytes());
    assert!(!trees_end(&store));
    store.delete_object(ObjectType::Tree, &[7u8; 32]);
    assert!(trees_end(&store));
}

#[test]
fn files_of_a_snapshot_are_read_back() {
    let mut store = ObjectStore::new();
    let entries = vec![
        indexed("b/c/d.txt", b"1", 1),
        indexed("a.txt", b"2", 1),
        indexed("b/e.txt", b"3", 1),
    ];
    let root = TreeBuilder::build_from_entries(&mut store, &entries);
    let files = collect_all_files(&store, &root).unwrap();
    assert_eq!(files.items.len(), 3);
    assert_eq!(files.get("b/c/d.txt"), Some(&hash_bytes(b"1")));
    assert_eq!(files.get("a.txt"), Some(&hash_bytes(b"2")));
    assert_eq!(collect_tree_files(&store, &root).unwrap().len(), 3);
    assert!(matches!(collect_all_files(&store, &[4u8; 32]), Err(WalkError::Missing(_))));
    store.write_object_with_hash(ObjectType::Tree, &[5u8; 32], vec![1]);
    assert!(matches!(collect_all_files(&store, &[5u8; 32]), Err(WalkError::Damaged(_))));
}

#[test]
fn damaged_trees_are_refused() {
    assert!(matches!(Tree::from_bytes(&[0u8; 2]), Err(TreeError::TreeTooShort(2))));
    let mut tree = Tree::new();
    tree.add_entry(TreeEntry::new_file("ab".to_string(), [1u8; 32], 0o100644, 1));
    let bytes = tree.to_bytes();
    assert!(Tree::from_bytes(&bytes[0..bytes.len() - 1]).is_err());
    let mut kind = bytes.clone();
    kind[4] = 9;
    assert!(matches!(Tree::from_bytes(&kind), Err(TreeError::InvalidEntryType(9))));
    let mut name = bytes.clone();
    name[19] = 0xff;
    assert!(matches!(Tree::from_bytes(&name), Err(TreeError::InvalidName)));
    assert!(TreeEntry::from_bytes(&[0u8; 3]).is_err());
}

#[test]
fn packed_trees_are_unpacked() {
    let mut tree = Tree::new();
    for i in 0..50 {
        tree.add_entry(TreeEntry::new_file(format!("file{:02}", i), [1u8; 32], 0o100644, 1));
    }
    tree.sort();
    let (hash, file) = pack_tree(&tree).unwrap();
    assert_eq!(hash, tree.hash());
    assert_ne!(file, tree.to_bytes());
    assert!(file.len() < tree.to_bytes().len());
    assert_eq!(unpack_tree(&file).unwrap(), tree);
    assert!(matches!(unpack_tree(b"no frame"), Err(UnpackError::Compression(_))));
    assert_eq!(tree_of_filename(&hash_to_hex(&hash)), Some(hash));
    assert_eq!(tree_of_filename("x"), None);
    assert!(TreeStorage::tree_path("/t", &hash).starts_with("/t/"));
}

#[test]
fn trees_in_batches() {
    let mut storage = TreeStorage::new();
    let mut one = Tree::new();
    one.add_entry(TreeEntry::new_tree("d".to_string(), [1u8; 32]));
    let trees = vec![Tree::new(), one];
    let mut batch = TreeBatch::new(&mut storage);
    let hashes = batch.write_all(&trees);
    assert_eq!(batch.read_all(&hashes).unwrap(), trees);
    assert_eq!(batch.exists_all(&hashes), vec![true, true]);
    batch.delete_all(&hashes);
    assert_eq!(storage.exists_batch(&hashes), vec![false, false]);
    assert!(storage.read_batch(&hashes).is_err());
}

#[test]
fn hexadecimal_digits() {
    let h = [0x0fu8; 32];
    assert_eq!(hash_to_hex(&h), "0f".repeat(32));
    assert_eq!(hex_to_hash(&"0F".repeat(32)), Ok(h));
    assert_eq!(hex_to_bytes("0"), Err(HexError::OddLength));
    assert!(hex_to_bytes("zz").is_err());
    assert!(hex_to_hash("00").is_err());
    assert_ne!(hash_bytes(b"a").to_vec(), b"a".to_vec());
    assert_eq!(
        hash_to_hex(&hash_bytes(b"")),
        "af1349b9f5f9a1a6a0404dea36dcc9499bcb25c9adc112b7cc9a93cae41f3262"
    );
}

#[test]
fn stored_objects_are_read_back_once() {
    let mut s = ObjectStore::new();
    let h = s.write_object(ObjectType::Blob, b"x".to_vec());
    assert_eq!(h, s.write_object(ObjectType::Blob, b"x".to_vec()));
    assert_eq!(s.objects.len(), 1);
    assert_eq!(s.read_object(ObjectType::Blob, &h).unwrap(), b"x");
    assert!(!s.has_object(ObjectType::Tree, &h));
    s.delete_object(ObjectType::Blob, &h);
    assert!(s.read_object(ObjectType::Blob, &h).is_none());
}

#[test]
fn packing_fails_where_compression_does() {
    let mut tree = Tree::new();
    tree.add_entry(TreeEntry::new_file("a".to_string(), [1u8; 32], 0o100644, 1));
    let e = packed_tree(&tree, Err("no memory".to_string())).unwrap_err();
    assert_eq!(e, "no memory");
    let (hash, file) = packed_tree(&tree, Ok(vec![1, 2, 3])).unwrap();
    assert_eq!(hash, hash_bytes(&tree.to_bytes()));
    assert_eq!(file, vec![1, 2, 3]);
    assert_eq!(pack_tree(&tree).unwrap().0, hash);
}

#[test]
fn bytes_that_were_cut_are_refused() {
    let mut tree = Tree::new();
    tree.add_entry(TreeEntry::new_file("a".to_string(), [1u8; 32], 0o100644, 1));
    tree.add_entry(TreeEntry::new_tree("b".to_string(), [2u8; 32]));
    let bytes = tree.to_bytes();
    assert_eq!(parse_tree_entries(&bytes).unwrap().len(), 2);
    for k in 0..bytes.len() {
        assert!(Tree::from_bytes(&bytes[..k]).is_err());
        assert!(parse_tree_entries(&bytes[..k]).is_err());
    }
    let bytes = initial([1u8; 32], "A <a@b>", "message").to_bytes();
    assert!(Commit::from_bytes(&bytes).is_ok());
    for k in 0..bytes.len() {
        assert!(Commit::from_bytes(&bytes[..k]).is_err());
    }
}

#[test]
fn trees_of_a_snapshot_are_tidy() {
    let mut store = ObjectStore::new();
    let paths = ["b/z", "b/c/d", "a", "b/c/a"];
    let entries: Vec<Entry> = paths.iter().map(|p| indexed(p, p.as_bytes(), 1)).collect();
    let root = TreeBuilder::build_from_entries(&mut store, &entries);
    let mut waiting = vec![root];
    let mut count = 0;
    while let Some(id) = waiting.pop() {
        let tree =
            Tree::from_bytes(store.read_object(ObjectType::Tree, &id).unwrap()).unwrap();
        count += 1;
        assert!(!tree.entries.is_empty());
        for w in tree.entries.windows(2) {
            assert!(w[0].name < w[1].name);
        }
        for e in tree.entries.iter().filter(|e| e.entry_type == EntryType::Tree) {
            waiting.push(e.oid);
        }
    }
    assert_eq!(count, 3);
}

#[test]
fn blobs_are_kept_compressed_and_others_are_not() {
    let data = vec![7u8; 10_000];
    let file = object_file(ObjectType::Blob, data.clone()).unwrap();
    assert!(file.len() < 1000);
    assert_eq!(object_of_file(ObjectType::Blob, file).unwrap(), data);
    assert!(object_of_file(ObjectType::Blob, b"no frame".to_vec()).is_err());
    for kind in [ObjectType::Tree, ObjectType::Commit] {
        assert_eq!(object_file(kind, data.clone()).unwrap(), data);
        assert_eq!(object_of_file(kind, data.clone()).unwrap(), data);
    }
}

#[test]
fn long_paths_of_short_names_are_read_back() {
    let path = format!("{}/x", vec!["d".repeat(200); 400].join("/"));
    assert!(path.len() > 0xffff);
    let mut store = ObjectStore::new();
    let root = TreeBuilder::build_from_entries(&mut store, &vec![indexed(&path, b"1", 1)]);
    let files = collect_all_files(&store, &root).unwrap();
    assert!(files.get(&path).is_some());
}

#[test]
fn trees_take_paths_by_their_names() {
    let mut store = ObjectStore::new();
    let plain = vec![indexed("a/b", b"1", 1), indexed("a/c/d", b"2", 1)];
    let odd = vec![indexed("a//b", b"1", 1), indexed("a/./c/d/", b"2", 1)];
    assert_eq!(
        TreeBuilder::build_from_entries(&mut store, &plain),
        TreeBuilder::build_from_entries(&mut store, &odd)
    );
}
