//! Merging and checking out.
use helix::checkout::{
    checkout_line, checkout_tree, checkout_tree_to_path, files_written, parse_tree_hash_from_commit, Checkout,
    CheckoutAction, CheckoutError, CheckoutOptions,
};
use helix::hash::{hash_bytes, hash_to_hex};
use helix::helix_index::commit::Commit;
use helix::helix_index::commit_store::read_commit;
use helix::helix_index::format::Entry;
use helix::helix_index::tree::TreeBuilder;
use helix::helix_index::tree_walk::collect_all_files;
use helix::merge_command::{
    analyze_files, analyze_merge, diff_trees, execute_merge, generate_conflict_markers,
    ConflictResolution, ConflictType, MergeError, TreeChange,
};
use helix::object_store::{ObjectStore, ObjectType};
use helix::text_map::TextMap;

fn commit(store: &mut ObjectStore, files: &[(&str, &[u8], u32)]) -> [u8; 32] {
    let mut entries = vec![];
    for (p, c, mode) in files {
        let oid = store.write_object(ObjectType::Blob, c.to_vec());
        entries.push(Entry::new(p.to_string(), c.len() as u64, 0, oid, *mode));
    }
    let t = TreeBuilder::build_from_entries(store, &entries);
    let c = Commit::initial(t, "A".to_string(), "m".to_string(), 1);
    store.write_object(ObjectType::Commit, c.to_bytes())
}

const F: u32 = 0o100644;

fn map(items: &[(&str, u8)]) -> TextMap<[u8; 32]> {
    let mut m = TextMap::new();
    for (p, h) in items {
        m.insert(p.to_string(), [*h; 32]);
    }
    m
}

#[test]
fn sides_are_compared_with_their_ancestor() {
    let base = map(&[("same", 1), ("t", 1), ("s", 1), ("both", 1), ("del", 1), ("equal", 1)]);
    let target = map(&[("same", 1), ("t", 2), ("s", 1), ("both", 2), ("del", 2), ("equal", 3), ("n", 5)]);
    let sandbox = map(&[("same", 1), ("t", 1), ("s", 4), ("both", 3), ("equal", 3), ("n", 6)]);
    let a = analyze_files(&base, &target, &sandbox);
    let kind = |p: &str| {
        a.conflicts.iter().find(|c| c.path == p).map(|c| c.conflict_type)
    };
    assert_eq!(kind("both"), Some(ConflictType::BothModified));
    assert_eq!(kind("del"), Some(ConflictType::ModifyDelete));
    assert_eq!(kind("n"), Some(ConflictType::BothAdded));
    assert_eq!(a.conflicts.len(), 3);
    let resolved = |p: &str| a.auto_resolved.iter().find(|r| r.path == p).map(|r| r.blob_hash);
    assert_eq!(resolved("t"), Some(Some([2; 32])));
    assert_eq!(resolved("s"), Some(Some([4; 32])));
    assert_eq!(resolved("equal"), Some(Some([3; 32])));
    assert_eq!(resolved("same"), None);
    assert!(a.has_conflicts());
}

#[test]
fn merges_are_carried_out() {
    let mut s = ObjectStore::new();
    let base = commit(&mut s, &[("a", b"1", F), ("b", b"1", F)]);
    let target = commit(&mut s, &[("a", b"2", F), ("b", b"1", F), ("c", b"t", F)]);
    let sandbox = commit(&mut s, &[("a", b"3", F), ("b", b"5", F)]);
    let a = analyze_merge(&s, &base, &target, &sandbox).unwrap();
    let mut res: TextMap<ConflictResolution> = TextMap::new();
    let open = execute_merge(&mut s, &a, &res, &target, &sandbox, "A", "m", 9);
    assert!(matches!(open, Err(MergeError::Unresolved(_))));
    res.insert("a".to_string(), ConflictResolution::Merged(b"both".to_vec()));
    let done = execute_merge(&mut s, &a, &res, &target, &sandbox, "A", "m", 9).unwrap();
    let again = execute_merge(&mut s, &a, &res, &target, &sandbox, "A", "m", 9).unwrap();
    assert_eq!(done, again);
    let c = read_commit(&s, &done.commit_hash).unwrap();
    assert_eq!(c.parents, vec![target, sandbox]);
    let files = collect_all_files(&s, &c.tree_hash).unwrap();
    assert_eq!(files.get("a"), Some(&hash_bytes(b"both")));
    assert_eq!(files.get("b"), Some(&hash_bytes(b"5")));
    assert_eq!(files.get("c"), Some(&hash_bytes(b"t")));
    assert_eq!(done.files_changed, 3);
    assert!(matches!(
        analyze_merge(&s, &[9; 32], &target, &sandbox),
        Err(MergeError::Commit(_))
    ));
}

#[test]
fn every_decision_is_followed() {
    let mut s = ObjectStore::new();
    let base = commit(&mut s, &[("a", b"1", F)]);
    let target = commit(&mut s, &[("a", b"2", F)]);
    let sandbox = commit(&mut s, &[("a", b"3", F)]);
    let a = analyze_merge(&s, &base, &target, &sandbox).unwrap();
    for (d, want) in [
        (ConflictResolution::TakeTarget, Some(hash_bytes(b"2"))),
        (ConflictResolution::TakeSandbox, Some(hash_bytes(b"3"))),
        (ConflictResolution::TakeBase, Some(hash_bytes(b"1"))),
        (ConflictResolution::Delete, None),
    ] {
        let mut res: TextMap<ConflictResolution> = TextMap::new();
        res.insert("a".to_string(), d);
        let done = execute_merge(&mut s, &a, &res, &target, &sandbox, "A", "m", 9).unwrap();
        let files = collect_all_files(&s, &done.merged_tree_hash).unwrap();
        assert_eq!(files.get("a").copied(), want);
    }
}

#[test]
fn trees_are_compared() {
    let mut s = ObjectStore::new();
    let base = commit(&mut s, &[("a", b"1", F), ("b", b"1", F)]);
    let other = commit(&mut s, &[("a", b"2", F), ("c", b"1", F)]);
    let tree = |h: &[u8; 32]| read_commit(&s, h).unwrap().tree_hash;
    let d = diff_trees(&s, &tree(&base), &tree(&other)).unwrap();
    assert_eq!(d.len(), 3);
    assert!(d.changes.iter().any(|c| matches!(c, TreeChange::Added { path, .. } if path == "c")));
    assert!(diff_trees(&s, &tree(&base), &tree(&base)).unwrap().is_empty());
    assert!(diff_trees(&s, &[9; 32], &tree(&base)).is_err());
}

#[test]
fn conflict_markers() {
    let mut s = ObjectStore::new();
    let base = commit(&mut s, &[("a", b"base\n", F)]);
    let target = commit(&mut s, &[("a", b"mine\n", F)]);
    let sandbox = commit(&mut s, &[("a", b"theirs\n", F)]);
    let a = analyze_merge(&s, &base, &target, &sandbox).unwrap();
    let text = generate_conflict_markers(&s, &a.conflicts[0], "main", "box").unwrap();
    let text = String::from_utf8(text).unwrap();
    assert!(text.starts_with("<<<<<<< main"));
    assert!(text.contains("mine\n") && text.contains("theirs\n"));
    assert!(text.contains("======="));
    assert!(text.contains(">>>>>>> box"));
    let mut broken = ObjectStore::new();
    broken.write_object(ObjectType::Blob, b"mine\n".to_vec());
    assert!(generate_conflict_markers(&broken, &a.conflicts[0], "m", "b").is_err());
}

#[test]
fn trees_are_checked_out() {
    let mut s = ObjectStore::new();
    let h = commit(
        &mut s,
        &[("a", b"1", F), ("d/run", b"2", 0o100755), ("l", b"a", 0o120000)],
    );
    let mut fresh = Checkout::new(vec![], vec![]);
    let o = CheckoutOptions { verbose: true, force: false };
    checkout_tree_to_path(&s, &h, &mut fresh, o).unwrap();
    let tree = hash_to_hex(&read_commit(&s, &h).unwrap().tree_hash);
    let line = format!("Checking out tree {}", &tree[..8]);
    assert_eq!(checkout_line(&s, &h, "/r", "/r"), Some(line.clone()));
    assert_eq!(checkout_line(&s, &h, "/r", "/d"), Some(line + " to /d"));
    assert_eq!(checkout_line(&s, &[9; 32], "/r", "/r"), None);
    assert_eq!(files_written(&fresh.actions), 3);
    assert!(fresh.actions.iter().any(|a| matches!(
        a,
        CheckoutAction::WriteFile { path, executable, .. } if path == "d/run" && *executable
    )));
    assert!(fresh.actions.iter().any(|a| matches!(
        a,
        CheckoutAction::MakeLink { path, target, .. } if path == "l" && target == "a"
    )));
    let mut taken = Checkout::new(vec!["a".to_string()], vec![]);
    checkout_tree(&s, &h, &mut taken, o).unwrap();
    assert_eq!(files_written(&taken.actions), 2);
    let mut forced = Checkout::new(vec!["a".to_string()], vec![]);
    checkout_tree(&s, &h, &mut forced, CheckoutOptions { verbose: false, force: true }).unwrap();
    assert_eq!(files_written(&forced.actions), 3);
    assert!(matches!(
        checkout_tree(&s, &[9; 32], &mut forced, o),
        Err(CheckoutError::NoCommit(_))
    ));
    assert_eq!(parse_tree_hash_from_commit(&[1u8; 31]), None);
    assert_eq!(parse_tree_hash_from_commit(&[1u8; 40]), Some([1u8; 32]));
    s.delete_object(ObjectType::Blob, &hash_bytes(b"2"));
    let mut again = Checkout::new(vec![], vec![]);
    assert!(matches!(
        checkout_tree(&s, &h, &mut again, o),
        Err(CheckoutError::NoBlob(_))
    ));
}
