//! Taking over a Git repository.
use helix::hash::{bytes_to_hex, hash_bytes, hash_to_hex, hex_to_hash};
use helix::helix_index::commit_store::read_commit;
use helix::helix_index::format::EntryFlags;
use helix::helix_index::git_refs::{
    find_default_branch, format_url, import_git_branches, import_git_config, import_git_head,
    import_git_remotes, import_git_tags, parse_git_branch_upstream, with_user, ConfigError,
    GitHeadError, GitRef, GitRemote,
};
use helix::helix_index::api::{HelixIndexData, VerifyResult};
use helix::helix_index::reader::{generation_of, HelixIndex, IndexError};
use helix::helix_index::rebuild::{LoadError, Loaded};
use helix::helix_index::sync::{
    build_helix_entry_from_git_entry, git_helix_mapping, import_git_commits, import_git_index,
    load_full_head_tree, lock_step, GitCommit, GitFile, GitFileKind, GitIndexEntry, GitRecord,
    GitObject, GitRepository, ImportError, LockStep, SyncEngine, WorkingFile,
};
use helix::helix_index::tree::Tree;
use helix::ignore::IgnoreRules;
use helix::object_store::{ObjectStore, ObjectType};
use helix::refs::RefStore;
use helix::text_map::TextMap;

fn rules() -> IgnoreRules {
    IgnoreRules::load(&vec![], &vec![], &vec![])
}

/// The Git hash of contents of one byte.
fn id(n: u8) -> [u8; 20] {
    blob_id(&[n])
}

fn blob_id(content: &[u8]) -> [u8; 20] {
    let id = gix::objs::compute_hash(gix::hash::Kind::Sha1, gix::objs::Kind::Blob, content);
    id.unwrap().as_bytes().try_into().unwrap()
}

/// A file with contents of one byte.
fn working(n: u8) -> Option<WorkingFile> {
    Some(WorkingFile { is_file: true, content: Some(vec![n]), mtime: Some(50), len: 5 })
}

fn git_entry(path: &str, oid: [u8; 20], working: Option<WorkingFile>) -> GitIndexEntry {
    GitIndexEntry {
        path: path.to_string(),
        oid,
        mtime: 11,
        size: 5,
        file_mode: 0o100644,
        object: GitObject::Blob(b"hello".to_vec()),
        working,
    }
}

fn head_tree(items: &[(&str, [u8; 20])]) -> TextMap<[u8; 20]> {
    let records: Vec<GitRecord> = items
        .iter()
        .map(|(p, o)| GitRecord { path: p.to_string(), oid: *o, is_blob: true })
        .collect();
    load_full_head_tree(&records)
}

fn import(entries: Vec<GitIndexEntry>, head: &TextMap<[u8; 20]>, generation: u64) -> HelixIndex {
    let mut store = ObjectStore::new();
    let done =
        import_git_index(&mut store, Some(&entries), head, &rules(), generation, 7).unwrap();
    HelixIndex::parse(&done.file.unwrap()).unwrap()
}

fn file(path: &str, content: &str) -> GitFile {
    GitFile {
        path: path.to_string(),
        kind: GitFileKind::Regular,
        content: Some(content.as_bytes().to_vec()),
    }
}

fn git_commit(id: u8, time: i64, title: &str, parents: &[u8], files: Vec<GitFile>) -> GitCommit {
    GitCommit {
        id: vec![id; 20],
        time,
        title: title.to_string(),
        body: None,
        author_name: "Test".to_string(),
        author_email: "test@test.com".to_string(),
        author_time: time,
        parents: parents.iter().map(|p| vec![*p; 20]).collect(),
        files,
    }
}

fn git_key(id: u8) -> String {
    bytes_to_hex(&[id; 20])
}

fn mapping(items: &[(u8, [u8; 32])]) -> TextMap<[u8; 32]> {
    let mut m = TextMap::new();
    for (id, h) in items {
        m.insert(git_key(*id), *h);
    }
    m
}

fn git_ref(path: &str, id: u8) -> GitRef {
    GitRef { path: path.to_string(), content: format!("{}\n", git_key(id)) }
}

#[test]
fn test_import_from_git() {
    let data = import(vec![git_entry("test.txt", id(1), working(1))], &head_tree(&[]), 0);
    assert_eq!(data.entries.len(), 1);
    assert_eq!(data.entries[0].path, "test.txt");
    assert!(data.entries[0].flags.contains(EntryFlags::TRACKED));
    assert!(data.entries[0].flags.contains(EntryFlags::STAGED));
}

#[test]
fn test_import_empty_repo() {
    let mut store = ObjectStore::new();
    let done = import_git_index(&mut store, None, &head_tree(&[]), &rules(), 0, 7).unwrap();
    let data = HelixIndex::parse(&done.file.unwrap()).unwrap();
    assert_eq!(data.entries.len(), 0);
    assert_eq!(data.header.generation, 1);
}

#[test]
fn test_import_increments_generation() {
    let head = head_tree(&[]);
    let data1 = import(vec![git_entry("test.txt", id(1), working(1))], &head, 0);
    assert_eq!(data1.header.generation, 1);
    assert_eq!(data1.entries.len(), 1);
    assert_eq!(data1.entries[0].path, "test.txt");

    let data2 = import(
        vec![git_entry("test.txt", id(1), working(1))],
        &head,
        data1.header.generation,
    );
    assert_eq!(data2.header.generation, 2);
    assert_eq!(data2.entries.len(), 1);
    assert_eq!(data2.entries[0].path, "test.txt");
}

#[test]
fn test_import_detects_staged() {
    let head = head_tree(&[("test.txt", id(1))]);
    let data = import(vec![git_entry("test.txt", id(2), working(2))], &head, 0);
    assert_eq!(data.entries.len(), 1);
    assert!(data.entries[0].flags.contains(EntryFlags::STAGED));
}

#[test]
fn test_import_detects_unstaged() {
    let head = head_tree(&[("stable.txt", id(1))]);
    let data = import(vec![git_entry("stable.txt", id(1), working(1))], &head, 0);
    assert_eq!(data.entries.len(), 1);
    let entry = &data.entries[0];
    assert!(entry.flags.contains(EntryFlags::TRACKED));
    assert!(!entry.flags.contains(EntryFlags::STAGED));
}

#[test]
fn test_wait_for_git_lock_timeout() {
    assert_eq!(lock_step(true, 101, 100), LockStep::TimedOut);
    assert_eq!(lock_step(true, 100, 100), LockStep::Wait);
    assert_eq!(lock_step(false, 500, 100), LockStep::Ready);
}

#[test]
fn test_import_from_git_new_uncommitted_file_tracked_and_staged() {
    let data = import(vec![git_entry("test.txt", id(1), working(1))], &head_tree(&[]), 0);
    assert_eq!(data.entries.len(), 1);
    let entry = &data.entries[0];
    assert_eq!(entry.path, "test.txt");
    assert!(entry.flags.contains(EntryFlags::TRACKED));
    assert!(entry.flags.contains(EntryFlags::STAGED));
    assert!(!entry.flags.contains(EntryFlags::MODIFIED));
    assert!(!entry.flags.contains(EntryFlags::DELETED));
}

#[test]
fn test_import_detects_unstaged_modified_file() {
    let head = head_tree(&[("file.txt", id(1))]);
    let data = import(vec![git_entry("file.txt", id(1), working(2))], &head, 0);
    let entry = &data.entries[0];
    assert!(entry.flags.contains(EntryFlags::TRACKED));
    assert!(!entry.flags.contains(EntryFlags::STAGED));
    assert!(entry.flags.contains(EntryFlags::MODIFIED));
    assert!(!entry.flags.contains(EntryFlags::DELETED));
}

#[test]
fn test_import_detects_clean_committed_file() {
    let head = head_tree(&[("stable.txt", id(1))]);
    let data = import(vec![git_entry("stable.txt", id(1), working(1))], &head, 0);
    let entry = &data.entries[0];
    assert!(entry.flags.contains(EntryFlags::TRACKED));
    assert!(!entry.flags.contains(EntryFlags::STAGED));
    assert!(!entry.flags.contains(EntryFlags::MODIFIED));
    assert!(!entry.flags.contains(EntryFlags::DELETED));
}

#[test]
fn test_import_detects_staged_but_not_modified() {
    let head = head_tree(&[("file.txt", id(1))]);
    let data = import(vec![git_entry("file.txt", id(2), working(2))], &head, 0);
    let entry = &data.entries[0];
    assert!(entry.flags.contains(EntryFlags::TRACKED));
    assert!(entry.flags.contains(EntryFlags::STAGED));
    assert!(!entry.flags.contains(EntryFlags::MODIFIED));
    assert!(!entry.flags.contains(EntryFlags::DELETED));
}

#[test]
fn test_import_marks_deleted_if_missing_on_disk_but_in_head() {
    let head = head_tree(&[("gone.txt", id(1))]);
    let data = import(vec![git_entry("gone.txt", id(1), None)], &head, 0);
    let entry = &data.entries[0];
    assert!(entry.flags.contains(EntryFlags::TRACKED));
    assert!(entry.flags.contains(EntryFlags::DELETED));
    assert!(!entry.flags.contains(EntryFlags::MODIFIED));
    assert_eq!(entry.mtime_sec, 11);
}

#[test]
fn ignored_files_are_not_imported() {
    let entries = vec![
        git_entry(".helix/x", id(1), None),
        git_entry("a.txt", id(1), working(1)),
    ];
    let data = import(entries, &head_tree(&[]), 0);
    assert_eq!(data.entries.len(), 1);
    assert_eq!(data.entries[0].path, "a.txt");
}

#[test]
fn imported_entry_stores_its_contents() {
    let mut store = ObjectStore::new();
    let e = git_entry("a.txt", id(1), working(1));
    let entry = build_helix_entry_from_git_entry(&mut store, &e, &head_tree(&[])).unwrap();
    assert_eq!(entry.oid, hash_bytes(b"hello"));
    assert_eq!(store.read_object(ObjectType::Blob, &entry.oid).unwrap(), b"hello");
    assert_eq!(entry.size, 5);
    assert_eq!(entry.mtime_sec, 50);
}

#[test]
fn entries_stand_for_blobs_or_files() {
    let head = head_tree(&[]);
    let build = |e: &GitIndexEntry| {
        let mut store = ObjectStore::new();
        let entry = build_helix_entry_from_git_entry(&mut store, e, &head);
        (entry, store.objects.len())
    };
    let mut e = git_entry("a", id(1), working(1));
    for object in [GitObject::Missing, GitObject::Other] {
        e.object = object;
        assert_eq!(build(&e).0.unwrap().oid, hash_bytes(&[1]));
    }
    e.working = None;
    for object in [GitObject::Missing, GitObject::Other] {
        e.object = object;
        assert_eq!(build(&e).0.unwrap().oid, hash_bytes(b""));
    }
    let unread = Some(WorkingFile { is_file: true, content: None, mtime: Some(1), len: 1 });
    e.working = unread.clone();
    e.object = GitObject::Missing;
    assert!(matches!(build(&e), (None, 0)));
    e.object = GitObject::Other;
    assert!(matches!(build(&e), (None, 1)));
    e.working = Some(WorkingFile { mtime: None, content: Some(vec![1]), ..unread.unwrap() });
    assert!(build(&e).0.is_none());
    let data = import(vec![e, git_entry("b", id(1), working(1))], &head, 0);
    assert_eq!(data.entries.len(), 1);
    assert_eq!(data.entries[0].path, "b");
}

#[test]
fn git_hashes_of_contents() {
    assert_eq!(
        bytes_to_hex(&blob_id(b"hello\n")),
        "ce013625030ba8dba906f756967f9e9ca394464a"
    );
    let mut e = git_entry("a", blob_id(b"hello\n"), working(1));
    let modified = |e: &GitIndexEntry| {
        build_helix_entry_from_git_entry(&mut ObjectStore::new(), e, &head_tree(&[]))
            .unwrap()
            .flags
            .contains(EntryFlags::MODIFIED)
    };
    assert!(modified(&e));
    e.working = Some(WorkingFile {
        is_file: true,
        content: Some(b"hello\n".to_vec()),
        mtime: Some(1),
        len: 6,
    });
    assert!(!modified(&e));
}

#[test]
fn test_import_git_commits_empty_repo() {
    let mut store = ObjectStore::new();
    let mut refs = RefStore::new();
    let m = import_git_commits(&mut store, &mut refs, vec![], None);
    assert_eq!(m.items.len(), 0);
    assert_eq!(store.list_object_hashes(ObjectType::Commit).len(), 0);
}

#[test]
fn test_import_git_commits_single_commit() {
    let mut store = ObjectStore::new();
    let mut refs = RefStore::new();
    let c = git_commit(1, 100, "Initial commit\n", &[], vec![file("test.txt", "hello")]);
    import_git_commits(&mut store, &mut refs, vec![c], None);

    let commits = store.list_object_hashes(ObjectType::Commit);
    let first_commit = read_commit(&store, &commits[0]).unwrap();
    assert_eq!(first_commit.message, "Initial commit\n");
    assert!(first_commit.parents.is_empty());
    assert_ne!(first_commit.commit_hash, [0u8; 32]);
    assert_ne!(first_commit.tree_hash, [0u8; 32]);
}

#[test]
fn test_import_git_commits_multiple_commits() {
    let mut store = ObjectStore::new();
    let mut refs = RefStore::new();
    let cs = vec![
        git_commit(3, 300, "Third commit\n", &[2], vec![file("file3.txt", "content3")]),
        git_commit(2, 200, "Second commit\n", &[1], vec![file("file2.txt", "content2")]),
        git_commit(1, 100, "First commit\n", &[], vec![file("file1.txt", "content1")]),
    ];
    let m = import_git_commits(&mut store, &mut refs, cs, None);
    let get = |id: u8| read_commit(&store, m.get(&git_key(id)).unwrap()).unwrap();
    let commits = vec![get(1), get(2), get(3)];

    assert_eq!(commits[0].message, "First commit\n");
    assert_eq!(commits[1].message, "Second commit\n");
    assert_eq!(commits[2].message, "Third commit\n");
    assert!(commits[0].parents.is_empty());
    assert_eq!(commits[1].parents.len(), 1);
    assert_eq!(commits[2].parents.len(), 1);
    assert_eq!(commits[1].parents[0], commits[0].commit_hash);
    assert_eq!(commits[2].parents[0], commits[1].commit_hash);
}

#[test]
fn test_import_git_commits_with_multiline_message() {
    let mut store = ObjectStore::new();
    let mut refs = RefStore::new();
    let mut c = git_commit(1, 100, "Short summary", &[], vec![file("test.txt", "hello")]);
    c.body = Some("Longer description here.\nWith multiple lines.\n".to_string());
    import_git_commits(&mut store, &mut refs, vec![c], None);
    let commits = store.list_object_hashes(ObjectType::Commit);
    assert_eq!(commits.len(), 1);
    assert_eq!(
        read_commit(&store, &commits[0]).unwrap().message,
        "Short summary\n\nLonger description here.\nWith multiple lines.\n"
    );
}

#[test]
fn test_import_git_commits_preserves_tree_structure() {
    let mut store = ObjectStore::new();
    let mut refs = RefStore::new();
    let files = vec![
        file("README.md", "# Project"),
        file("src/main.rs", "fn main() {}"),
        file("src/lib/mod.rs", "pub mod lib;"),
    ];
    let m = import_git_commits(
        &mut store,
        &mut refs,
        vec![git_commit(1, 100, "Initial structure\n", &[], files)],
        None,
    );
    let commit = read_commit(&store, m.get(&git_key(1)).unwrap()).unwrap();
    assert_ne!(commit.tree_hash, [0u8; 32]);

    let tree = |h: &[u8; 32]| {
        Tree::from_bytes(store.read_object(ObjectType::Tree, h).unwrap()).unwrap()
    };
    let root_tree = tree(&commit.tree_hash);
    assert!(root_tree.entries.iter().any(|e| e.name == "README.md"));
    let src_entry = root_tree.entries.iter().find(|e| e.name == "src").unwrap();
    let src_tree = tree(&src_entry.oid);
    assert!(src_tree.entries.iter().any(|e| e.name == "main.rs"));
    let lib_entry = src_tree.entries.iter().find(|e| e.name == "lib").unwrap();
    let lib_tree = tree(&lib_entry.oid);
    assert!(lib_tree.entries.iter().any(|e| e.name == "mod.rs"));
}

#[test]
fn test_import_git_commits_deduplication() {
    let mut store = ObjectStore::new();
    let mut refs = RefStore::new();
    let c = || git_commit(1, 100, "Test commit\n", &[], vec![file("test.txt", "hello")]);
    let m1 = import_git_commits(&mut store, &mut refs, vec![c(), c()], None);
    let m2 = import_git_commits(&mut store, &mut refs, vec![c()], None);
    assert_eq!(m1.items.len(), m2.items.len());
    assert_eq!(m1.items[0].1, m2.items[0].1);
    assert_eq!(store.list_object_hashes(ObjectType::Commit).len(), 1);
    assert_eq!(store.list_object_hashes(ObjectType::Tree).len(), 1);
}

#[test]
fn test_import_git_commits_with_author_info() {
    let mut store = ObjectStore::new();
    let mut refs = RefStore::new();
    let mut c = git_commit(1, 100, "Test commit\n", &[], vec![file("test.txt", "hello")]);
    c.author_name = "John Doe".to_string();
    c.author_email = "john@example.com".to_string();
    import_git_commits(&mut store, &mut refs, vec![c], None);
    let commits = store.list_object_hashes(ObjectType::Commit);
    assert_eq!(commits.len(), 1);
    let commit = read_commit(&store, &commits[0]).unwrap();
    assert!(commit.author.contains("john@example.com"));
    assert!(commit.author.contains("John Doe"));
    assert!(commit.author_time > 0);
    assert!(commit.commit_time > 0);
}

#[test]
fn test_import_git_commits_hash_consistency() {
    let mut store = ObjectStore::new();
    let mut refs = RefStore::new();
    let c = git_commit(1, 100, "Test commit\n", &[], vec![file("test.txt", "hello")]);
    let m = import_git_commits(&mut store, &mut refs, vec![c], None);
    let commit = read_commit(&store, &m.items[0].1).unwrap();
    assert_eq!(commit.commit_hash, commit.compute_hash());
}

#[test]
fn test_import_git_commits_returns_git_to_helix_map() {
    let mut store = ObjectStore::new();
    let mut refs = RefStore::new();
    let c = git_commit(1, 100, "Test commit\n", &[], vec![file("test.txt", "hello")]);
    let m = import_git_commits(&mut store, &mut refs, vec![c], None);
    let from_map = m.get(&git_key(1)).expect("the commit is in the map");
    let hashes = store.list_object_hashes(ObjectType::Commit);
    assert_eq!(hashes.len(), 1);
    assert_eq!(&read_commit(&store, &hashes[0]).unwrap().commit_hash, from_map);
}

#[test]
fn test_import_git_commits_updates_helix_head() {
    let mut store = ObjectStore::new();
    let mut refs = RefStore::new();
    let c = git_commit(1, 100, "Test commit\n", &[], vec![file("test.txt", "hello")]);
    let id = vec![1u8; 20];
    let m = import_git_commits(&mut store, &mut refs, vec![c], Some(&id));
    let hash = m.get(&git_key(1)).unwrap();
    assert_eq!(refs.head.unwrap().trim(), hash_to_hex(hash));
}

#[test]
fn test_import_git_commits_with_merge_commit() {
    let mut store = ObjectStore::new();
    let mut refs = RefStore::new();
    let cs = vec![
        git_commit(3, 300, "Merge feature\n", &[1, 2], vec![file("main.txt", "main")]),
        git_commit(2, 200, "Feature commit\n", &[1], vec![file("feature.txt", "feature")]),
        git_commit(1, 100, "Initial commit\n", &[], vec![file("main.txt", "main")]),
        git_commit(2, 200, "Feature commit\n", &[1], vec![file("feature.txt", "feature")]),
        git_commit(1, 100, "Initial commit\n", &[], vec![file("main.txt", "main")]),
    ];
    let m = import_git_commits(&mut store, &mut refs, cs, None);
    assert_eq!(store.list_object_hashes(ObjectType::Commit).len(), 3);
    let merge = read_commit(&store, m.get(&git_key(3)).unwrap()).unwrap();
    assert_eq!(merge.parents.len(), 2);
}

#[test]
fn unknown_parents_and_unreadable_files_are_left_out() {
    let mut store = ObjectStore::new();
    let mut refs = RefStore::new();
    let files = vec![
        file("a", "x"),
        GitFile { path: "b".to_string(), kind: GitFileKind::Regular, content: None },
        GitFile { path: "sub".to_string(), kind: GitFileKind::Other, content: Some(vec![]) },
        GitFile { path: "l".to_string(), kind: GitFileKind::Link, content: Some(b"a".to_vec()) },
    ];
    let m = import_git_commits(
        &mut store,
        &mut refs,
        vec![git_commit(1, -5, "t", &[9], files)],
        None,
    );
    let c = read_commit(&store, &m.items[0].1).unwrap();
    assert!(c.parents.is_empty());
    assert_eq!(c.commit_time, u64::MAX - 4);
    let tree = Tree::from_bytes(store.read_object(ObjectType::Tree, &c.tree_hash).unwrap()).unwrap();
    let names: Vec<&str> = tree.entries.iter().map(|e| e.name.as_str()).collect();
    assert_eq!(names, vec!["a", "l"]);
    assert_eq!(tree.entries[1].mode, 0o120000);
}

#[test]
fn test_import_git_branches_sets_default_upstream_for_feature() {
    let mut refs = RefStore::new();
    let m = mapping(&[(1, [1u8; 32]), (2, [2u8; 32])]);
    let branches = vec![git_ref("feature", 2), git_ref("main", 1)];
    import_git_branches(&mut refs, &branches, &None, &m).unwrap();
    assert_eq!(refs.get_upstream("feature"), Some(&"main".to_string()));
    assert_eq!(refs.get_upstream("main"), None);
}

#[test]
fn test_parse_git_branch_upstream_reads_merge_ref() {
    let git_config = r#"
[core]
    repositoryformatversion = 0

[branch "feature"]
    remote = origin
    merge = refs/heads/main

[branch "other"]
    remote = origin
    merge = refs/heads/dev
"#;

    let upstream_feature = parse_git_branch_upstream(git_config, "feature");
    let upstream_other = parse_git_branch_upstream(git_config, "other");
    let upstream_missing = parse_git_branch_upstream(git_config, "nonexistent");

    assert_eq!(upstream_feature.as_deref(), Some("main"));
    assert_eq!(upstream_other.as_deref(), Some("dev"));
    assert_eq!(upstream_missing, None);
}

#[test]
fn test_find_default_branch_prefers_main_then_master_then_first() {
    let branches = vec!["feature".to_string(), "main".to_string(), "bugfix".to_string()];
    assert_eq!(find_default_branch(&branches), Some("main".to_string()));

    let branches = vec!["feature".to_string(), "master".to_string(), "bugfix".to_string()];
    assert_eq!(find_default_branch(&branches), Some("master".to_string()));

    let branches = vec!["foo".to_string(), "bar".to_string()];
    assert_eq!(find_default_branch(&branches), Some("foo".to_string()));

    let branches: Vec<String> = Vec::new();
    assert_eq!(find_default_branch(&branches), None);
}

#[test]
fn test_import_git_branches_single_branch() {
    let mut refs = RefStore::new();
    import_git_branches(&mut refs, &vec![git_ref("main", 1)], &None, &mapping(&[(1, [1u8; 32])]))
        .unwrap();
    assert_eq!(refs.get_ref("refs/heads/main").unwrap().trim(), hash_to_hex(&[1u8; 32]));
}

#[test]
fn test_import_git_branches_nested_branches_preserve_paths() {
    let mut refs = RefStore::new();
    let m = mapping(&[(1, [1u8; 32]), (2, [2u8; 32]), (3, [3u8; 32])]);
    let branches =
        vec![git_ref("main", 1), git_ref("feature/foo", 2), git_ref("bugfix/bar", 3)];
    import_git_branches(&mut refs, &branches, &None, &m).unwrap();
    assert_eq!(refs.get_ref("refs/heads/main").unwrap().trim(), hash_to_hex(&[1u8; 32]));
    assert_eq!(refs.get_ref("refs/heads/feature/foo").unwrap().trim(), hash_to_hex(&[2u8; 32]));
    assert_eq!(refs.get_ref("refs/heads/bugfix/bar").unwrap().trim(), hash_to_hex(&[3u8; 32]));
}

#[test]
fn test_import_git_branches_no_refs_dir_is_noop() {
    let mut refs = RefStore::new();
    import_git_branches(&mut refs, &vec![], &None, &mapping(&[])).unwrap();
    assert!(!refs.has_dir("refs/heads"));
}

#[test]
fn test_import_git_branches_unknown_commit_is_skipped() {
    let mut refs = RefStore::new();
    let result = import_git_branches(&mut refs, &vec![git_ref("main", 1)], &None, &mapping(&[]));
    assert!(result.is_ok());
    assert!(refs.get_ref("refs/heads/main").is_none());
    assert_eq!(refs.get_upstream("main"), None);
}

#[test]
fn test_import_git_branches_invalid_sha_fails() {
    let mut refs = RefStore::new();
    let bad = GitRef { path: "main".to_string(), content: "not-a-hex-sha\n".to_string() };
    assert!(import_git_branches(&mut refs, &vec![bad], &None, &mapping(&[])).is_err());
}

#[test]
fn test_import_git_tags_no_tags_dir_is_noop() {
    let mut refs = RefStore::new();
    import_git_tags(&mut refs, &vec![], &mapping(&[])).unwrap();
    assert!(!refs.has_dir("refs/tags"));
}

#[test]
fn test_import_git_tags_single_tag() {
    let mut refs = RefStore::new();
    import_git_tags(&mut refs, &vec![git_ref("v1.0.0", 1)], &mapping(&[(1, [9u8; 32])])).unwrap();
    assert_eq!(refs.get_ref("refs/tags/v1.0.0").unwrap().trim(), hash_to_hex(&[9u8; 32]));
}

#[test]
fn test_import_git_tags_multiple_and_nested_tags() {
    let mut refs = RefStore::new();
    let tags = vec![git_ref("v1", 1), git_ref("releases/v2", 1), git_ref("hotfix/v3", 1)];
    import_git_tags(&mut refs, &tags, &mapping(&[(1, [7u8; 32])])).unwrap();
    let expected = hash_to_hex(&[7u8; 32]);
    assert_eq!(refs.get_ref("refs/tags/v1").unwrap().trim(), expected);
    assert_eq!(refs.get_ref("refs/tags/releases/v2").unwrap().trim(), expected);
    assert_eq!(refs.get_ref("refs/tags/hotfix/v3").unwrap().trim(), expected);
}

#[test]
fn test_import_git_tags_unknown_commit_is_skipped() {
    let mut refs = RefStore::new();
    import_git_tags(&mut refs, &vec![git_ref("v1", 1)], &mapping(&[])).unwrap();
    assert!(refs.get_ref("refs/tags/v1").is_none());
}

#[test]
fn test_import_git_tags_invalid_sha_errors() {
    let mut refs = RefStore::new();
    let bad = GitRef { path: "v1".to_string(), content: "not-a-hex-sha\n".to_string() };
    assert!(import_git_tags(&mut refs, &vec![bad], &mapping(&[])).is_err());
}

#[test]
fn test_import_git_head_symbolic() {
    let mut refs = RefStore::new();
    import_git_head(&mut refs, "ref: refs/heads/main\n", &mapping(&[])).unwrap();
    assert_eq!(refs.head.unwrap(), "ref: refs/heads/main\n");
}

#[test]
fn test_import_git_head_detached() {
    let mut refs = RefStore::new();
    let content = format!("{}\n", git_key(1));
    import_git_head(&mut refs, &content, &mapping(&[(1, [7u8; 32])])).unwrap();
    assert_eq!(refs.head.unwrap().trim(), hash_to_hex(&[7u8; 32]));
}

#[test]
fn test_import_git_head_detached_unknown_commit_errors() {
    let mut refs = RefStore::new();
    let content = format!("{}\n", git_key(1));
    let result = import_git_head(&mut refs, &content, &mapping(&[]));
    assert_eq!(result, Err(GitHeadError::UnknownCommit));
    assert!(refs.head.is_none());
}

#[test]
fn addresses_become_https() {
    assert_eq!(format_url("git@github.com:user/repo.git"), "https://github.com/user/repo.git");
    assert_eq!(
        format_url("ssh://git@github.com/user/repo.git"),
        "https://github.com/user/repo.git"
    );
    assert_eq!(format_url("https://example.com/r.git"), "https://example.com/r.git");
    assert_eq!(format_url("http://http://example.com/r"), "https://example.com/r");
    assert_eq!(format_url("example.com/r"), "https://example.com/r");
    assert_eq!(format_url("git@:x"), "https://git@:x");
    assert_eq!(format_url("git@host:"), "https://git@host:");
    assert_eq!(format_url("git@host:a\nb"), "https://git@host:a\nb");
    assert_eq!(format_url("git@h:a:b/c"), "https://h/a:b/c");
}

fn remotes() -> Vec<GitRemote> {
    vec![
        GitRemote {
            name: "origin".to_string(),
            fetch_url: Some("git@h:p".to_string()),
            push_url: None,
        },
        GitRemote {
            name: "up".to_string(),
            fetch_url: Some("https://a/b".to_string()),
            push_url: Some("http://c/d".to_string()),
        },
        GitRemote { name: "none".to_string(), fetch_url: None, push_url: None },
    ]
}

#[test]
fn remotes_are_taken_over() {
    let mut config = Some("[other]\nkey = 1\n\n[remotes]\nkeep = \"me\"\n".to_string());
    assert_eq!(import_git_remotes(&mut config, &remotes()), Ok(2));
    let value: toml::Value = config.unwrap().parse().unwrap();
    let url = |key: &str| value["remotes"].get(key).and_then(|v| v.as_str());
    assert_eq!(url("origin_pull"), Some("https://h/p"));
    assert_eq!(url("origin_push"), Some("https://h/p"));
    assert_eq!(url("up_pull"), Some("https://a/b"));
    assert_eq!(url("up_push"), Some("https://c/d"));
    assert_eq!(url("keep"), Some("me"));
    assert_eq!(url("none_push"), None);
    assert_eq!(value["other"]["key"].as_integer(), Some(1));
    let mut created = None;
    assert_eq!(import_git_remotes(&mut created, &remotes()), Ok(2));
    assert!(created.unwrap().starts_with("[remotes]\norigin_pull = \"https://h/p\"\n"));
    for unfit in ["no toml", "remotes = 1\n"] {
        let mut config = Some(unfit.to_string());
        assert_eq!(import_git_remotes(&mut config, &remotes()), Err(ConfigError::Unfit));
        assert_eq!(config.unwrap(), unfit);
    }
}

#[test]
fn test_import_git_remotes_no_remotes_creates_no_toml() {
    let mut config = None;
    assert_eq!(import_git_remotes(&mut config, &vec![]), Ok(0));
    assert!(config.is_none(), "helix.toml should not be created when there are no remotes");
}

#[test]
fn author_is_taken_over_where_it_is_whole() {
    let s = |t: &str| Some(t.to_string());
    let config = s("[user]\nname = \"B\"\nage = 1\n");
    let taken = import_git_config(&s("A"), &s("a@b"), &config).unwrap().unwrap();
    assert_eq!(taken.shown, "A <a@b>");
    assert_eq!(taken.config, "[user]\nage = 1\nemail = \"a@b\"\nname = \"A\"\n");
    assert_eq!(import_git_config(&s("A"), &s("  "), &config), Ok(None));
    assert_eq!(import_git_config(&None, &s("a@b"), &config), Ok(None));
    assert_eq!(import_git_config(&s("A"), &s("a@b"), &None), Ok(None));
    assert_eq!(import_git_config(&s("A"), &s("a@b"), &s("= x")), Err(ConfigError::Unfit));
    assert_eq!(import_git_config(&s("A"), &s("a@b"), &s("user = 2")), Err(ConfigError::Unfit));
    assert_eq!(with_user("", "A", "a@b"), s("[user]\nemail = \"a@b\"\nname = \"A\"\n"));
}

#[test]
fn upstream_of_git_comes_first() {
    let mut refs = RefStore::new();
    let m = mapping(&[(1, [1u8; 32])]);
    let config = Some("[branch \"f\"]\n\tmerge = refs/heads/dev\n".to_string());
    let branches = vec![git_ref("master", 1), git_ref("f", 1), git_ref("g", 1)];
    import_git_branches(&mut refs, &branches, &config, &m).unwrap();
    assert_eq!(refs.get_upstream("f"), Some(&"dev".to_string()));
    assert_eq!(refs.get_upstream("g"), Some(&"master".to_string()));
    assert_eq!(refs.get_upstream("master"), None);
}

#[test]
fn mapping_file_holds_a_line_for_each_commit() {
    let m = mapping(&[(1, [1u8; 32])]);
    assert_eq!(
        git_helix_mapping(&m),
        format!("{} {}\n", hash_to_hex(&[1u8; 32]), git_key(1))
    );
}

#[test]
fn whole_repository_is_taken_over() {
    let mut store = ObjectStore::new();
    let mut refs = RefStore::new();
    let mut config = Some("[ignore]\npatterns = []\n".to_string());
    let git = GitRepository {
        index: Some(vec![git_entry("test.txt", id(1), working(1))]),
        head_tree: head_tree(&[("test.txt", id(1))]),
        commits: vec![git_commit(1, 100, "One\n", &[], vec![file("test.txt", "hello")])],
        head_id: Some(vec![1u8; 20]),
        branches: vec![git_ref("main", 1)],
        tags: vec![git_ref("v1", 1)],
        config: None,
        head: "ref: refs/heads/main\n".to_string(),
        remotes: remotes(),
        user_name: Some("A".to_string()),
        user_email: Some("a@b".to_string()),
    };
    let mut index = None;
    let done = SyncEngine::new("/r")
        .import_from_git(&mut store, &mut refs, &mut config, &mut index, git, &rules(), 7)
        .unwrap();
    assert_eq!(done.summary.commits_count, 1);
    assert_eq!(done.summary.files_count, 1);
    assert_eq!(done.summary.remotes_count, 2);
    assert_eq!(done.summary.author, Some("A <a@b>".to_string()));
    let value: toml::Value = config.unwrap().parse().unwrap();
    assert_eq!(value["user"]["name"].as_str(), Some("A"));
    assert_eq!(value["user"]["email"].as_str(), Some("a@b"));
    assert_eq!(value["remotes"]["up_push"].as_str(), Some("https://c/d"));
    assert!(value["ignore"]["patterns"].is_array());
    assert_eq!(generation_of(&index), 1);
    let h = hex_to_hash(refs.get_ref("refs/heads/main").unwrap()).unwrap();
    assert_eq!(read_commit(&store, &h).unwrap().message, "One\n");
    assert_eq!(refs.get_ref("refs/tags/v1"), refs.get_ref("refs/heads/main"));
    assert_eq!(refs.head.unwrap(), "ref: refs/heads/main\n");
}

fn staged_only() -> GitRepository {
    GitRepository {
        index: Some(vec![git_entry("test.txt", id(1), working(1))]),
        head_tree: head_tree(&[]),
        commits: vec![],
        head_id: None,
        branches: vec![],
        tags: vec![],
        config: None,
        head: "ref: refs/heads/main\n".to_string(),
        remotes: vec![],
        user_name: Some("Test".to_string()),
        user_email: Some("test@test.com".to_string()),
    }
}

fn load(
    found: VerifyResult,
    index: &mut Option<Vec<u8>>,
    git: GitRepository,
) -> Result<Loaded, LoadError> {
    let mut store = ObjectStore::new();
    let mut refs = RefStore::new();
    let mut config = None;
    HelixIndexData::load_or_rebuild(
        "/r",
        found,
        &mut store,
        &mut refs,
        &mut config,
        index,
        git,
        &rules(),
        7,
    )
}

#[test]
fn test_load_or_rebuild_first_time() {
    let loaded = load(VerifyResult::Missing, &mut None, staged_only()).unwrap();
    assert_eq!(loaded.index.generation(), 1);
    assert_eq!(loaded.index.entries().len(), 1);
    assert_eq!(loaded.line.unwrap(), "Building helix.idx for the first time...");
}

#[test]
fn test_load_or_rebuild_cached() {
    // First load - builds index
    let mut index = None;
    let index1 = load(VerifyResult::Missing, &mut index, staged_only()).unwrap();
    assert_eq!(index1.index.generation(), 1);

    // Second load - uses existing index (no rebuild needed)
    let index2 = load(VerifyResult::Valid, &mut index, staged_only()).unwrap();
    assert_eq!(index2.index.generation(), 1);
    assert!(index2.imported.is_none());
    assert!(index2.line.is_none());

    let index3 = load(VerifyResult::WrongRepo, &mut index, staged_only()).unwrap();
    assert_eq!(index3.index.generation(), 2);
    assert_eq!(generation_of(&index), 2);
    assert_eq!(index3.line.unwrap(), "helix.idx is from a different repo, rebuilding...");
}

#[test]
fn loading_what_cannot_be_read() {
    let e = load(VerifyResult::Valid, &mut None, staged_only()).unwrap_err();
    assert!(matches!(e, LoadError::Index(IndexError::Missing(p)) if p == "/r/.helix/helix.idx"));
    let mut damaged = Some(vec![1u8; 200]);
    assert_eq!(generation_of(&damaged), 0);
    let e = load(VerifyResult::Valid, &mut damaged, staged_only()).unwrap_err();
    assert!(matches!(e, LoadError::Index(IndexError::Header(_))));
    let loaded = load(VerifyResult::Corrupted, &mut damaged, staged_only()).unwrap();
    assert_eq!(loaded.index.generation(), 1);
    assert_eq!(generation_of(&damaged), 1);
    assert_eq!(loaded.line.unwrap(), "helix.idx is corrupted, rebuilding...");
    let mut git = staged_only();
    git.branches = vec![GitRef { path: "x".to_string(), content: "no hash".to_string() }];
    let mut index = None;
    let e = load(VerifyResult::Missing, &mut index, git).unwrap_err();
    assert!(matches!(e, LoadError::Import(ImportError::Branch(_))));
    assert_eq!(generation_of(&index), 1);
}

#[test]
fn parents_are_kept_whatever_the_clocks_say() {
    let mut store = ObjectStore::new();
    let mut refs = RefStore::new();
    let commits = vec![
        git_commit(3, 100, "child of both", &[1, 2], vec![file("a", "3")]),
        git_commit(2, 100, "same second", &[1], vec![file("a", "2")]),
        git_commit(1, 500, "clock ahead", &[], vec![file("a", "1")]),
    ];
    let m = import_git_commits(&mut store, &mut refs, commits, None);
    let of = |id: u8| *m.get(&git_key(id)).unwrap();
    assert_eq!(read_commit(&store, &of(1)).unwrap().parents, Vec::<[u8; 32]>::new());
    assert_eq!(read_commit(&store, &of(2)).unwrap().parents, vec![of(1)]);
    assert_eq!(read_commit(&store, &of(3)).unwrap().parents, vec![of(1), of(2)]);
}
