//! Adding, branching and committing.
use helix::add_command::{
    add, get_file_mode, should_add_file, try_add, AddError, AddOptions, WorkFile,
};
use helix::add_select::expand_paths;
use helix::branch_command::{
    branch_action, create_branch, delete_branch, get_all_branches, get_current_branch,
    rename_branch, switch_branch, validate_branch_name, BranchAction, BranchError, BranchOptions,
};
use helix::commit_command::{
    commit, get_author, show_staged, try_commit, CommitFailure, CommitOptions, UserConfig,
};
use helix::hash::{hash_bytes, hash_to_hex};
use helix::helix_index::api::HelixIndexData;
use helix::helix_index::commit_store::read_commit;
use helix::helix_index::flag_text::text_of_flags;
use helix::helix_index::format::{Entry, EntryFlags, FormatError, Header};
use helix::helix_index::reader::HelixIndex;
use helix::ignore::IgnoreRules;
use helix::object_store::{ObjectStore, ObjectType};
use helix::refs::{read_head, RefStore};

struct Repo {
    store: ObjectStore,
    refs: RefStore,
    index: HelixIndexData,
    native: bool,
    files: Vec<WorkFile>,
}

fn init() -> Repo {
    let mut refs = RefStore::new();
    refs.set_head("ref: refs/heads/main\n".to_string());
    Repo {
        store: ObjectStore::new(),
        refs,
        index: HelixIndexData {
            repo_path: "/repo".to_string(),
            data: HelixIndex { header: Header::new(1, 0, 1), entries: vec![] },
        },
        native: false,
        files: vec![],
    }
}

fn nobody() -> UserConfig {
    UserConfig { name: None, email: None }
}

fn strings(v: &[&str]) -> Vec<String> {
    v.iter().map(|s| s.to_string()).collect()
}

impl Repo {
    fn write(&mut self, path: &str, content: &[u8]) {
        self.files.retain(|f| f.path != path);
        self.files.push(WorkFile {
            path: path.to_string(),
            content: content.to_vec(),
            mtime: Some(1000),
            permissions: 0o644,
        });
    }

    fn add(&mut self, paths: &[&str], options: AddOptions) -> Option<Vec<u8>> {
        self.add_by(&IgnoreRules::load(&vec![], &vec![], &vec![]), paths, options).0.unwrap()
    }

    fn add_by(
        &mut self,
        rules: &IgnoreRules,
        paths: &[&str],
        options: AddOptions,
    ) -> (Result<Option<Vec<u8>>, AddError>, Vec<String>) {
        let mut lines = vec![];
        let added = add(
            &mut self.index,
            &mut self.store,
            &self.files,
            rules,
            &strings(paths),
            options,
            "/repo/.helix/helix.idx",
            &mut lines,
        );
        (added, lines)
    }

    fn stage(&mut self, path: &str, content: &[u8]) {
        let oid = self.store.write_object(ObjectType::Blob, content.to_vec());
        let mut e = Entry::new(path.to_string(), content.len() as u64, 0, oid, 0o100644);
        e.flags = EntryFlags::from_bits_retain(EntryFlags::TRACKED | EntryFlags::STAGED);
        self.index.entries_mut().push(e);
    }

    fn try_commit(&mut self, options: CommitOptions) -> Result<[u8; 32], CommitFailure> {
        let user = Ok(UserConfig {
            name: Some("Test User".to_string()),
            email: Some("test@example.com".to_string()),
        });
        commit(
            &mut self.store,
            &mut self.refs,
            &mut self.index,
            &mut self.native,
            &options,
            &user,
            &nobody(),
            1_700_000_000,
            &mut vec![],
        )
        .map(|o| o.hash)
    }

    fn commit(&mut self, message: &str) -> [u8; 32] {
        self.try_commit(CommitOptions { message: message.to_string(), ..Default::default() })
            .unwrap()
    }

    fn initial(&mut self) -> [u8; 32] {
        self.write("test.txt", b"content");
        self.add(&["test.txt"], AddOptions::default());
        self.commit("Initial commit")
    }
}

#[test]
fn test_add_single_file() {
    let mut r = init();
    r.write("test.txt", b"hello world");
    let bytes = r.add(&["test.txt"], AddOptions { verbose: true, ..Default::default() }).unwrap();
    let data = HelixIndex::parse(&bytes).unwrap();

    assert_eq!(data.entries.len(), 1);
    assert_eq!(data.entries[0].path, "test.txt");
    assert!(data.entries[0].flags.contains(EntryFlags::TRACKED));
    assert!(data.entries[0].flags.contains(EntryFlags::STAGED));
    assert!(r.store.has_object(ObjectType::Blob, &data.entries[0].oid));
}

#[test]
fn test_add_multiple_files() {
    let mut r = init();
    r.write("file1.txt", b"content 1");
    r.write("file2.txt", b"content 2");
    r.write("file3.txt", b"content 3");
    r.add(&["file1.txt", "file2.txt", "file3.txt"], AddOptions::default());

    assert_eq!(r.index.entries().len(), 3);
    for entry in r.index.entries() {
        assert!(entry.flags.contains(EntryFlags::STAGED));
    }
}

#[test]
fn test_add_directory() {
    let mut r = init();
    r.write("src/main.rs", b"fn main() {}");
    r.write("src/lib.rs", b"pub fn test() {}");
    r.add(&["src"], AddOptions::default());

    assert_eq!(r.index.entries().len(), 2);
    assert!(r.index.entries().iter().any(|e| e.path == "src/main.rs"));
    assert!(r.index.entries().iter().any(|e| e.path == "src/lib.rs"));
}

#[test]
fn test_add_all() {
    let mut r = init();
    r.write("file1.txt", b"one");
    r.write("file2.txt", b"two");
    r.write("dir/file3.txt", b"three");
    r.add(&["."], AddOptions::default());
    assert_eq!(r.index.entries().len(), 3);
}

#[test]
fn test_add_blob_deduplication() {
    let mut r = init();
    r.write("file1.txt", b"same content");
    r.write("file2.txt", b"same content");
    r.add(&["file1.txt", "file2.txt"], AddOptions::default());

    assert_eq!(r.index.entries().len(), 2);
    assert_eq!(r.index.entries()[0].oid, r.index.entries()[1].oid);
    assert_eq!(r.store.list_object_hashes(ObjectType::Blob).len(), 1);
}

#[test]
fn test_add_idempotent() {
    let mut r = init();
    r.write("test.txt", b"content");
    r.add(&["test.txt"], AddOptions::default());
    let gen1 = r.index.generation();

    r.add(&["test.txt"], AddOptions::default());
    assert_eq!(r.index.generation(), gen1);
}

#[test]
fn test_add_modified_file() {
    let mut r = init();
    r.write("test.txt", b"version 1");
    r.add(&["test.txt"], AddOptions::default());
    let oid1 = r.index.entries()[0].oid;

    r.write("test.txt", b"version 2");
    r.add(&["test.txt"], AddOptions::default());
    let oid2 = r.index.entries()[0].oid;

    assert_ne!(oid1, oid2);
}

#[test]
fn test_add_dry_run() {
    let mut r = init();
    r.write("test.txt", b"content");
    let file = r.add(&["test.txt"], AddOptions { dry_run: true, ..Default::default() });
    assert!(file.is_none());
    assert_eq!(r.index.entries().len(), 0);
}

#[test]
fn test_add_respects_helix_directory() {
    let mut r = init();
    r.write(".helix/test/file.txt", b"internal");
    r.write("normal.txt", b"normal");
    r.add(&["."], AddOptions::default());

    assert_eq!(r.index.entries().len(), 1);
    assert_eq!(r.index.entries()[0].path, "normal.txt");
}

#[test]
fn test_add_performance() {
    let mut r = init();
    for i in 0..100 {
        r.write(&format!("file{}.txt", i), format!("content {}", i).as_bytes());
    }
    r.add(&["."], AddOptions::default());
    assert_eq!(r.index.entries().len(), 100);
}

#[test]
fn adding_needs_paths_and_times() {
    let mut r = init();
    let rules = IgnoreRules::load(&vec![], &vec![], &vec![]);
    let (none, lines) = r.add_by(&rules, &[], AddOptions::default());
    assert!(matches!(none, Err(AddError::NoPaths)));
    assert!(lines.is_empty());
    r.write("a", b"x");
    r.files[0].mtime = None;
    match r.add_by(&rules, &["a"], AddOptions::default()).0 {
        Err(AddError::NoTime(p)) => assert_eq!(p, "a"),
        _ => panic!("added without a time"),
    }
    r.files[0].mtime = Some(1);
    let long = "n".repeat(201);
    r.write(&long, b"x");
    let (refused, lines) = r.add_by(&rules, &[&long], AddOptions::default());
    assert!(matches!(refused, Err(AddError::Index(_))));
    assert_eq!(
        lines.last().unwrap(),
        &format!("  {} -> flags: EntryFlags(TRACKED | STAGED), STAGED=true", long)
    );
}

#[test]
fn paths_are_expanded_in_order() {
    let mut r = init();
    r.write("b/x", b"1");
    r.write("a", b"2");
    r.write("b/.git/config", b"3");
    assert_eq!(expand_paths(&r.files, &strings(&[".", "a"])), strings(&["a", "b/x"]));
    assert_eq!(expand_paths(&r.files, &strings(&["none"])), strings(&[]));
    assert!(should_add_file(&r.index, &r.store, &r.files[0], AddOptions::default()));
    assert_eq!(get_file_mode(0o700), 0o100755);
    assert_eq!(get_file_mode(0o600), 0o100644);
}

#[test]
fn test_get_current_branch_before_commit() {
    assert_eq!(get_current_branch(&init().refs), "main");
}

#[test]
fn test_create_branch() {
    let mut r = init();
    r.initial();
    create_branch(&mut r.refs, "feature", BranchOptions::default()).unwrap();

    let main_hash = r.refs.get_ref("refs/heads/main").unwrap();
    let feature_hash = r.refs.get_ref("refs/heads/feature").unwrap();
    assert_eq!(main_hash.trim(), feature_hash.trim());
}

#[test]
fn test_create_branch_already_exists() {
    let mut r = init();
    r.initial();
    create_branch(&mut r.refs, "feature", BranchOptions::default()).unwrap();

    let result = create_branch(&mut r.refs, "feature", BranchOptions::default());
    assert!(result.is_err());
    assert!(result.unwrap_err().message().contains("already exists"));
}

#[test]
fn test_create_branch_with_force() {
    let mut r = init();
    r.initial();
    create_branch(&mut r.refs, "feature", BranchOptions::default()).unwrap();

    let result = create_branch(
        &mut r.refs,
        "feature",
        BranchOptions { force: true, ..Default::default() },
    );
    assert!(result.is_ok());
}

#[test]
fn test_delete_branch() {
    let mut r = init();
    r.initial();
    create_branch(&mut r.refs, "feature", BranchOptions::default()).unwrap();
    delete_branch(&mut r.refs, "feature", BranchOptions::default()).unwrap();
    assert!(!r.refs.present("refs/heads/feature"));
}

#[test]
fn test_delete_current_branch_fails() {
    let mut r = init();
    r.initial();
    let result = delete_branch(&mut r.refs, "main", BranchOptions::default());
    assert!(result.is_err());
    assert!(result.unwrap_err().message().contains("current branch"));
}

#[test]
fn test_switch_branch() {
    let mut r = init();
    r.initial();
    create_branch(&mut r.refs, "feature", BranchOptions::default()).unwrap();

    switch_branch(&mut r.refs, "feature").unwrap();
    assert_eq!(get_current_branch(&r.refs), "feature");

    switch_branch(&mut r.refs, "main").unwrap();
    assert_eq!(get_current_branch(&r.refs), "main");
}

#[test]
fn test_rename_branch() {
    let mut r = init();
    r.initial();
    create_branch(&mut r.refs, "old-name", BranchOptions::default()).unwrap();
    rename_branch(&mut r.refs, "old-name", "new-name", BranchOptions::default()).unwrap();

    assert!(!r.refs.present("refs/heads/old-name"));
    assert!(r.refs.present("refs/heads/new-name"));
}

#[test]
fn test_rename_current_branch_updates_head() {
    let mut r = init();
    r.initial();
    rename_branch(&mut r.refs, "main", "master", BranchOptions::default()).unwrap();
    assert_eq!(get_current_branch(&r.refs), "master");
}

#[test]
fn test_list_branches() {
    let mut r = init();
    r.initial();
    create_branch(&mut r.refs, "feature1", BranchOptions::default()).unwrap();
    create_branch(&mut r.refs, "feature2", BranchOptions::default()).unwrap();

    let branches = get_all_branches(&r.refs);

    assert_eq!(branches.len(), 3);
    assert!(branches.contains(&"main".to_string()));
    assert!(branches.contains(&"feature1".to_string()));
    assert!(branches.contains(&"feature2".to_string()));
}

#[test]
fn test_validate_branch_name() {
    assert!(validate_branch_name("main").is_ok());
    assert!(validate_branch_name("feature").is_ok());
    assert!(validate_branch_name("bug-fix").is_ok());
    assert!(validate_branch_name("dev_123").is_ok());

    assert!(validate_branch_name("").is_err());
    assert!(validate_branch_name("feature/test").is_err());
    assert!(validate_branch_name(".hidden").is_err());
    assert!(validate_branch_name("-bad").is_err());
    assert!(validate_branch_name("bad..name").is_err());
    assert!(validate_branch_name("HEAD").is_err());
}

#[test]
fn test_branch_without_commits() {
    let mut r = init();
    let result = create_branch(&mut r.refs, "feature", BranchOptions::default());
    assert!(result.is_err());
    assert!(result.unwrap_err().message().contains("No commits yet"));
}

#[test]
fn names_are_refused_for_their_reasons() {
    assert_eq!(validate_branch_name("").unwrap_err(), BranchError::EmptyName);
    assert_eq!(validate_branch_name("a/b").unwrap_err(), BranchError::SlashInName);
    assert_eq!(validate_branch_name(".a").unwrap_err(), BranchError::BadFirstCharacter);
    assert_eq!(validate_branch_name("a..b").unwrap_err(), BranchError::DotsInName);
    assert_eq!(validate_branch_name("HEAD").unwrap_err(), BranchError::ReservedName);
}

#[test]
fn missing_branches_are_refused() {
    let mut r = init();
    r.initial();
    let o = BranchOptions::default();
    assert!(matches!(delete_branch(&mut r.refs, "x", o), Err(BranchError::DoesNotExist(_))));
    assert!(matches!(rename_branch(&mut r.refs, "x", "y", o), Err(BranchError::DoesNotExist(_))));
    assert!(matches!(switch_branch(&mut r.refs, "x"), Err(BranchError::NoSuchBranch(_))));
    assert!(matches!(
        switch_branch(&mut r.refs, "sandboxes/x"),
        Err(BranchError::NoSuchSandbox(_))
    ));
    r.refs.set_ref("refs/heads/dir/a".to_string(), "00".to_string());
    let f = BranchOptions { force: true, ..o };
    assert!(matches!(create_branch(&mut r.refs, "dir", f), Err(BranchError::IsDirectory(_))));
    r.refs.set_ref("refs/sandboxes/s".to_string(), "00".to_string());
    assert!(get_all_branches(&r.refs).contains(&"sandboxes/s".to_string()));
}

#[test]
fn branch_arguments() {
    let mut r = init();
    r.initial();
    let o = BranchOptions::default();
    let act = |name, new, list, o| branch_action(&r.refs, name, new, list, o);
    assert_eq!(act(None, None, false, o), BranchAction::Browse);
    assert_eq!(act(Some("main"), None, false, o), BranchAction::Switch("main".to_string()));
    assert_eq!(act(Some("new"), None, false, o), BranchAction::Create("new".to_string()));
    let d = BranchOptions { delete: true, ..o };
    assert_eq!(act(None, None, false, d), BranchAction::NeedsName);
    assert_eq!(
        act(Some("sandboxes/s"), None, false, d),
        BranchAction::DestroySandbox("s".to_string())
    );
    let m = BranchOptions { rename: true, ..o };
    assert_eq!(act(Some("a"), None, false, m), BranchAction::NeedsNewName);
    assert_eq!(act(Some("sandboxes/s"), None, false, m), BranchAction::RefuseRename);
    assert_eq!(
        act(Some("a"), Some("b"), false, m),
        BranchAction::Rename("a".to_string(), "b".to_string())
    );
}

#[test]
fn test_initial_commit() {
    let mut r = init();
    r.stage("README.md", b"# Hello World");
    let commit_hash = r.commit("Initial commit");

    let commit_obj = read_commit(&r.store, &commit_hash).unwrap();
    assert_eq!(commit_obj.message, "Initial commit");
    assert!(commit_obj.is_initial());
    assert_eq!(commit_obj.get_hash(), commit_hash);
    assert_eq!(read_head(&r.refs).unwrap(), commit_hash);
}

#[test]
fn test_second_commit() {
    let mut r = init();
    r.stage("file1.txt", b"content 1");
    let first_hash = r.commit("First commit");

    r.stage("file2.txt", b"content 2");
    let second_hash = r.commit("Second commit");

    let second_commit = read_commit(&r.store, &second_hash).unwrap();
    assert_eq!(second_commit.parents.len(), 1);
    assert_eq!(second_commit.parents[0], first_hash);
}

#[test]
fn test_commit_without_staged_files() {
    let mut r = init();
    let result = r.try_commit(CommitOptions {
        message: "Empty commit".to_string(),
        ..Default::default()
    });
    assert!(result.is_err());
    assert!(result.unwrap_err().message().contains("No changes staged"));
}

#[test]
fn test_commit_with_empty_message() {
    let mut r = init();
    r.stage("test.txt", b"test");
    let result =
        r.try_commit(CommitOptions { message: "".to_string(), ..Default::default() });
    assert!(result.is_err());
    assert!(result.unwrap_err().message().contains("cannot be empty"));
}

#[test]
fn test_commit_clears_staged_flags() {
    let mut r = init();
    r.stage("file1.txt", b"content 1");
    r.stage("file2.txt", b"content 2");
    let count = |r: &Repo| {
        r.index.entries().iter().filter(|e| e.flags.contains(EntryFlags::STAGED)).count()
    };
    assert_eq!(count(&r), 2);
    r.commit("Test commit");
    assert_eq!(count(&r), 0);
}

#[test]
fn test_commit_allow_empty() {
    let mut r = init();
    let commit_hash = r
        .try_commit(CommitOptions {
            message: "Empty commit".to_string(),
            allow_empty: true,
            ..Default::default()
        })
        .unwrap();
    assert_eq!(read_commit(&r.store, &commit_hash).unwrap().message, "Empty commit");
}

#[test]
fn test_show_staged() {
    let mut r = init();
    r.stage("file1.txt", b"content 1");
    r.stage("file2.txt", b"content 2");
    let lines = show_staged(&r.index).join("\n");
    assert!(lines.contains("file1.txt") && lines.contains("file2.txt"));
}

#[test]
fn test_commit_with_custom_author() {
    let mut r = init();
    r.stage("test.txt", b"test");
    let commit_hash = r
        .try_commit(CommitOptions {
            message: "Test commit".to_string(),
            author: Some("Custom Author <custom@example.com>".to_string()),
            ..Default::default()
        })
        .unwrap();
    let commit_obj = read_commit(&r.store, &commit_hash).unwrap();
    assert_eq!(commit_obj.author, "Custom Author <custom@example.com>");
}

#[test]
fn test_commit_performance() {
    let mut r = init();
    for i in 0..100 {
        r.stage(&format!("file{}.txt", i), format!("content {}", i).as_bytes());
    }
    let hash = r.commit("Commit 100 files");
    assert!(r.store.has_object(ObjectType::Commit, &hash));
}

#[test]
fn commits_are_refused_for_their_reasons() {
    let mut r = init();
    let amend = CommitOptions { message: "m".to_string(), amend: true, ..Default::default() };
    r.stage("a", b"1");
    assert!(matches!(r.try_commit(amend), Err(CommitFailure::CannotAmend)));
    let o = CommitOptions { message: "m".to_string(), ..Default::default() };
    let refused = commit(
        &mut r.store,
        &mut r.refs,
        &mut r.index,
        &mut r.native,
        &o,
        &Ok(nobody()),
        &nobody(),
        1,
        &mut vec![],
    );
    assert!(matches!(refused, Err(CommitFailure::NoAuthor)));
    let broken = Err("bad file".to_string());
    let refused = commit(
        &mut r.store,
        &mut r.refs,
        &mut r.index,
        &mut r.native,
        &o,
        &broken,
        &nobody(),
        1,
        &mut vec![],
    );
    assert!(matches!(refused, Err(CommitFailure::Config(_))));
    r.commit("one");
    for e in r.index.entries_mut().iter_mut() {
        e.flags.insert(EntryFlags::STAGED);
    }
    assert!(matches!(r.try_commit(o), Err(CommitFailure::Identical)));
}

#[test]
fn authors_are_put_together() {
    let s = |t: &str| Some(t.to_string());
    let user = |name, email| UserConfig { name, email };
    assert_eq!(get_author(&user(s(" A "), s("a@b")), &nobody()), s("A <a@b>"));
    assert_eq!(get_author(&user(s("A"), None), &nobody()), s("A"));
    assert_eq!(get_author(&user(None, s("a@b")), &nobody()), None);
    let environment = user(s("E"), s("e@f"));
    assert_eq!(get_author(&user(None, s("a@b")), &environment), s("E <e@f>"));
    assert_eq!(get_author(&user(s("A"), None), &environment), s("A"));
}

#[test]
fn amending_keeps_the_parents() {
    let mut r = init();
    r.stage("a", b"1");
    let first = r.commit("one");
    r.stage("b", b"2");
    let second = r.commit("two");
    r.stage("c", b"3");
    let amended = r
        .try_commit(CommitOptions {
            message: "two again".to_string(),
            amend: true,
            ..Default::default()
        })
        .unwrap();
    assert_ne!(amended, second);
    assert_eq!(read_commit(&r.store, &amended).unwrap().parents, vec![first]);
    assert_eq!(hash_bytes(b"3"), r.index.entries()[2].oid);
}

fn staged_by(files: &[&str], paths: &[&str]) -> Vec<String> {
    let mut r = init();
    for f in files {
        r.write(f, f.as_bytes());
    }
    r.add(paths, AddOptions::default());
    r.index.get_staged()
}

#[test]
fn paths_are_taken_by_their_names() {
    let files = ["a.txt", "src/main.rs", "src/deep/x.rs", "src2/y.rs"];
    assert_eq!(staged_by(&files, &["./a.txt"]), strings(&["a.txt"]));
    assert_eq!(staged_by(&files, &["src/"]), strings(&["src/deep/x.rs", "src/main.rs"]));
    assert_eq!(staged_by(&files, &["src//deep/."]), strings(&["src/deep/x.rs"]));
    assert!(staged_by(&files, &["a.txt/"]).is_empty());
    assert!(staged_by(&files, &["missing"]).is_empty());
    assert_eq!(staged_by(&files, &["./"]).len(), 4);
}

#[test]
fn patterns_mean_the_files_that_they_match() {
    let files = ["a.txt", "b.md", "src/c.txt", "d*.txt", "dd.txt", ".git/e.txt"];
    assert_eq!(staged_by(&files, &["*.md"]), strings(&["b.md"]));
    assert_eq!(staged_by(&files, &["src/*.txt"]), strings(&["src/c.txt"]));
    assert_eq!(staged_by(&files, &["d*.txt"]), strings(&["d*.txt"]));
    assert!(!staged_by(&files, &["*.txt"]).contains(&".git/e.txt".to_string()));
}

#[test]
fn adding_says_what_it_does() {
    let mut r = init();
    r.write("a", b"1");
    r.write("b", b"2");
    r.write("b.log", b"3");
    let rules = IgnoreRules::load(&strings(&["*.log"]), &vec![], &vec![]);
    let verbose = AddOptions { verbose: true, ..Default::default() };
    let generation = r.index.generation();
    let (file, lines) = r.add_by(&rules, &["."], verbose);
    assert!(file.unwrap().is_some());
    let first = format!("Loaded index (generation {})", generation);
    let last = format!("Index generation: {}", generation + 1);
    assert_eq!(
        lines,
        strings(&[
            &first,
            "DEBUG: Index has 0 entries",
            &first,
            "Currently tracked: 0",
            "Currently staged: 0",
            "DEBUG: expand_paths found 3 candidates:",
            "  candidate: a",
            "  candidate: b",
            "  candidate: b.log",
            "Found 3 candidate files",
            "should add?? a",
            "  -> untracked, adding",
            "should add?? b",
            "  -> untracked, adding",
            "  skipping 'b.log' (ignored)",
            "DEBUG: files_to_add = [\"a\", \"b\"]",
            "Staging 2 files...",
            "  add 'a'",
            "  add 'b'",
            "Reading and hashing 2 files...",
            "Writing blobs to storage...",
            "Updating index entries...",
            "DEBUG: creating entry for a with flags EntryFlags(TRACKED | STAGED)",
            "DEBUG stage_files: index now has 0 entries",
            "DEBUG: inserting new entry for a",
            "DEBUG: creating entry for b with flags EntryFlags(TRACKED | STAGED)",
            "DEBUG stage_files: index now has 1 entries",
            "  STAGED: a",
            "DEBUG: inserting new entry for b",
            "DEBUG stage_files: index now has 2 entries",
            "  a -> flags: EntryFlags(TRACKED | STAGED), STAGED=true",
            "  b -> flags: EntryFlags(TRACKED | STAGED), STAGED=true",
            "DEBUG: persisted index to /repo/.helix/helix.idx",
            "Staged 2 files",
            &last,
        ])
    );
    let (again, lines) = r.add_by(&rules, &["."], verbose);
    assert!(again.unwrap().is_none());
    assert_eq!(lines[lines.len() - 2], "staged count 2");
    assert_eq!(lines[lines.len() - 1], "No new files to add (2 files already staged)");
    assert_eq!(r.index.generation(), generation + 1);
}

#[test]
fn adding_says_why_a_file_is_taken() {
    let mut r = init();
    let rules = IgnoreRules::load(&vec![], &vec![], &vec![]);
    r.write("a", b"1");
    r.add(&["a"], AddOptions::default());
    let (_, lines) = r.add_by(&rules, &["a"], AddOptions::default());
    assert_eq!(
        lines,
        strings(&[
            "DEBUG: Index has 1 entries",
            "  a | index_mtime=1000 | disk_mtime=1000 | modified=false",
            "DEBUG: expand_paths found 1 candidates:",
            "  candidate: a",
            "should add?? a",
            "  entry.mtime=1000, current_mtime=1000",
            "  staged.contains=true",
            "  -> staged and unchanged, skipping",
            "DEBUG: files_to_add = []",
            "staged count 1",
            "No new files to add (1 already staged, ready to commit)",
        ])
    );
    r.index.entries_mut()[0].flags = EntryFlags::from_bits_retain(EntryFlags::TRACKED);
    r.files[0].mtime = Some(1001);
    let (_, lines) =
        r.add_by(&rules, &["a"], AddOptions { dry_run: true, ..Default::default() });
    assert_eq!(
        lines,
        strings(&[
            "DEBUG: Index has 1 entries",
            "  a | index_mtime=1000 | disk_mtime=1001 | modified=true",
            "DEBUG: expand_paths found 1 candidates:",
            "  candidate: a",
            "should add?? a",
            "  entry.mtime=1000, current_mtime=1001",
            "  staged.contains=false",
            "  checking mtime: 1001 != 1000 = true",
            "  -> modified (mtime differs), adding",
            "DEBUG: files_to_add = [\"a\"]",
            "Would add: a",
        ])
    );
    r.files[0].mtime = Some(1000);
    r.store = ObjectStore::new();
    let (_, lines) = r.add_by(&rules, &["a"], AddOptions::default());
    assert!(lines.contains(&"  -> blob missing, adding".to_string()));
    assert!(lines.contains(&"DEBUG: updating existing entry for a".to_string()));
}

#[test]
fn flags_in_words() {
    assert_eq!(text_of_flags(EntryFlags::empty()), "EntryFlags(0x0)");
    assert_eq!(text_of_flags(EntryFlags::from_bits_retain(3)), "EntryFlags(TRACKED | STAGED)");
    assert_eq!(
        text_of_flags(EntryFlags::from_bits_retain(0x1f0_8100)),
        "EntryFlags(SYMLINK | RESERVED7 | 0x1f00000)"
    );
}

#[test]
fn other_contents_of_the_same_second_are_added() {
    let mut r = init();
    r.write("a", b"one");
    r.add(&["a"], AddOptions::default());
    r.write("a", b"two");
    assert_eq!(r.files[0].mtime, Some(r.index.entries()[0].mtime_sec));
    assert!(should_add_file(&r.index, &r.store, &r.files[0], AddOptions::default()));
    assert!(r.add(&["a"], AddOptions::default()).is_some());
    assert_eq!(r.index.entries()[0].oid, hash_bytes(b"two"));
    assert!(!should_add_file(&r.index, &r.store, &r.files[0], AddOptions::default()));
}

#[test]
fn paths_may_lead_up() {
    let files = ["a.txt", "sub/b.txt", "sub/deep/c.txt", "../x"];
    assert_eq!(staged_by(&files, &["sub/../a.txt"]), strings(&["sub/../a.txt"]));
    assert_eq!(
        staged_by(&files, &["sub/deep/.."]),
        strings(&["sub/deep/../b.txt", "sub/deep/../deep/c.txt"])
    );
    assert_eq!(staged_by(&files, &["../x"]), strings(&["../x"]));
    assert_eq!(staged_by(&files, &["sub/../../x"]), strings(&["sub/../../x"]));
    assert!(staged_by(&files, &["none/../a.txt"]).is_empty());
    assert!(staged_by(&files, &["a.txt/../sub/b.txt"]).is_empty());
    assert!(staged_by(&files, &["sub/../none"]).is_empty());
    let mut r = init();
    r.write("a.txt", b"1");
    r.write("sub/b.txt", b"2");
    r.add(&["sub/../a.txt"], AddOptions::default());
    assert_eq!(r.index.entries()[0].oid, hash_bytes(b"1"));
}

#[test]
fn paths_from_the_root_mean_no_file_of_the_tree() {
    let files = ["a.txt", "sub/b.txt"];
    assert!(staged_by(&files, &["/a.txt"]).is_empty());
    assert!(staged_by(&files, &["/"]).is_empty());
}

#[test]
fn the_last_generation_is_not_counted_up() {
    let mut r = init();
    r.index.data.header.generation = u64::MAX;
    r.write("a", b"1");
    let rules = IgnoreRules::load(&vec![], &vec![], &vec![]);
    let mut lines = vec![];
    let mut attempt = |r: &mut Repo, options: AddOptions| {
        try_add(
            &mut r.index,
            &mut r.store,
            &r.files,
            &rules,
            &strings(&["a"]),
            options,
            "index",
            &mut lines,
        )
    };
    assert!(attempt(&mut r, AddOptions::default()).is_none());
    assert!(r.index.entries().is_empty());
    let dry = attempt(&mut r, AddOptions { dry_run: true, ..Default::default() });
    assert!(matches!(dry, Some(Ok(None))));
    r.index.data.header.generation = 1;
    assert!(matches!(attempt(&mut r, AddOptions::default()), Some(Ok(Some(_)))));
    r.index.data.header.generation = u64::MAX;
    assert!(matches!(attempt(&mut r, AddOptions::default()), Some(Ok(None))));
}

#[test]
fn committing_says_what_it_does() {
    let mut r = init();
    r.stage("a", b"1");
    let generation = r.index.generation();
    let options = CommitOptions {
        message: "one\ntwo".to_string(),
        author: Some("A".to_string()),
        verbose: true,
        ..Default::default()
    };
    let user = Ok(nobody());
    let mut lines = vec![];
    let made = commit(
        &mut r.store,
        &mut r.refs,
        &mut r.index,
        &mut r.native,
        &options,
        &user,
        &nobody(),
        1,
        &mut lines,
    )
    .unwrap();
    let c = read_commit(&r.store, &made.hash).unwrap();
    let short = c.get_short_hash();
    assert_eq!(
        lines,
        vec![
            format!("Loaded index (generation {})", generation),
            "Staging area: 1 files".to_string(),
            "  a".to_string(),
            "Building tree from 1 entries...".to_string(),
            format!("Created tree: {}", &hash_to_hex(&c.tree_hash)[..8]),
            "Writing commit object...".to_string(),
            format!("Created commit: {}", short),
            "Updated HEAD".to_string(),
            format!("[{}] one", short),
            "1 files changed".to_string(),
        ]
    );
}

#[test]
fn refused_commits_say_how_far_they_came() {
    let mut r = init();
    let attempt = |r: &mut Repo, message: &str, author: Option<&str>, amend: bool| {
        let options = CommitOptions {
            message: message.to_string(),
            author: author.map(|a| a.to_string()),
            verbose: true,
            amend,
            ..Default::default()
        };
        let mut lines = vec![];
        let made = try_commit(
            &mut r.store,
            &mut r.refs,
            &mut r.index,
            &mut r.native,
            &options,
            &Ok(nobody()),
            &nobody(),
            1,
            &mut lines,
        );
        (made, lines)
    };
    let (made, lines) = attempt(&mut r, " ", None, false);
    assert!(matches!(made, Some(Err(CommitFailure::EmptyMessage))));
    assert!(lines.is_empty());
    let (made, lines) = attempt(&mut r, "m", None, false);
    assert!(matches!(made, Some(Err(CommitFailure::NothingStaged))));
    assert_eq!(lines, strings(&["Loaded index (generation 1)"]));
    r.stage("a", b"1");
    let (made, lines) = attempt(&mut r, "m", None, true);
    assert!(matches!(made, Some(Err(CommitFailure::CannotAmend))));
    assert_eq!(
        lines,
        strings(&["Loaded index (generation 1)", "Staging area: 1 files", "  a"])
    );
    let (made, lines) = attempt(&mut r, "m", None, false);
    assert!(matches!(made, Some(Err(CommitFailure::NoAuthor))));
    assert_eq!(lines.len(), 5);
    assert_eq!(lines[3], "Building tree from 1 entries...");
    r.index.data.header.generation = u64::MAX;
    let (made, lines) = attempt(&mut r, "m", Some("A"), false);
    assert!(made.is_none());
    assert_eq!(lines.len(), 5);
    assert!(read_head(&r.refs).is_err());
    r.index.data.header.generation = 1;
    assert!(matches!(attempt(&mut r, "m", Some("A"), false).0, Some(Ok(_))));
    for e in r.index.entries_mut().iter_mut() {
        e.flags.insert(EntryFlags::STAGED);
    }
    r.native = false;
    let (made, lines) = attempt(&mut r, "m", Some("A"), false);
    assert!(matches!(made, Some(Ok(_))));
    assert_eq!(lines[5], "Creating first native Helix commit after import.");
}

#[test]
fn paths_that_do_not_fit_are_named_by_their_length() {
    let mut r = init();
    r.write(&"x".repeat(201), b"1");
    r.write(&"y".repeat(300), b"1");
    let rules = IgnoreRules::load(&vec![], &vec![], &vec![]);
    let refused = r.add_by(&rules, &["."], AddOptions::default()).0;
    assert!(matches!(
        refused,
        Err(AddError::Index(FormatError::PathLengthLongerThanMaxSize(201)))
    ));
}

#[test]
fn references_are_found_by_the_names_in_their_path() {
    let mut r = init();
    let first = r.initial();
    create_branch(&mut r.refs, "dev", BranchOptions::default()).unwrap();
    switch_branch(&mut r.refs, "./dev").unwrap();
    assert_eq!(r.refs.head, Some("ref: refs/heads/./dev\n".to_string()));
    assert_eq!(read_head(&r.refs), Ok(first));
    r.write("b.txt", b"b");
    r.add(&["b.txt"], AddOptions::default());
    let second = r.commit("Second");
    assert_eq!(r.refs.get_ref("refs/heads/dev"), Some(&hash_to_hex(&second)));
    assert_eq!(read_head(&r.refs), Ok(second));
    delete_branch(&mut r.refs, ".//main", BranchOptions::default()).unwrap();
    assert!(r.refs.get_ref("refs/heads/main").is_none());
    assert!(switch_branch(&mut r.refs, "./main").is_err());
}
