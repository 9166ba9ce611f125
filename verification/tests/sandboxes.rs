//! Sandboxes and where a command runs.
use helix::add_command::WorkFile;
use helix::checkout::CheckoutAction;
use helix::commit_command::UserConfig;
use helix::helix_index::commit_store::read_commit;
use helix::hash::{hash_bytes, hash_to_hex, hex_to_hash};
use helix::helix_index::commit::Commit;
use helix::helix_index::format::{Entry, EntryFlags, FileStat};
use helix::helix_index::reader::HelixIndex;
use helix::helix_index::tree::TreeBuilder;
use helix::object_store::{ObjectStore, ObjectType};
use helix::refs::RefStore;
use helix::repo_context::{FsFacts, RepoContext};
use helix::sandbox_command::{
    commit_sandbox, compute_sandbox_diff, create_sandbox, destroy_sandbox, get_author,
    author_of_text, get_sandbox_changes, merge_sandbox, prepare_sandbox, sandbox_path,
    switch_sandbox,
    validate_sandbox_name, CommitOptions, CreateOptions, DestroyOptions, ListOptions, MergeOptions,
    Sandbox, SandboxChange, SandboxChangeKind, SandboxError, SandboxManifest,
};
use helix::sandbox_tui::app::{
    header_counts, list_sandboxes, sandbox_status, App, SandboxFiles, SandboxInfo,
};
use helix::sandbox_tui::ui::{format_age, format_age_short, format_timestamp};
use helix::text_map::TextMap;

fn work(path: &str, content: &[u8]) -> WorkFile {
    WorkFile {
        path: path.to_string(),
        content: content.to_vec(),
        mtime: Some(5),
        permissions: 0o644,
    }
}

struct Repo {
    store: ObjectStore,
    refs: RefStore,
    base: [u8; 32],
}

fn repo(files: &[(&str, &[u8])]) -> Repo {
    let mut store = ObjectStore::new();
    let mut entries = vec![];
    for (p, c) in files {
        let oid = store.write_object(ObjectType::Blob, c.to_vec());
        let mut e = Entry::new(p.to_string(), c.len() as u64, 0, oid, 0o100644);
        e.flags = EntryFlags::from_bits_retain(EntryFlags::TRACKED);
        entries.push(e);
    }
    let tree = TreeBuilder::build_from_entries(&mut store, &entries);
    let c = Commit::initial(tree, "A".to_string(), "one".to_string(), 1);
    let base = store.write_object(ObjectType::Commit, c.to_bytes());
    let mut refs = RefStore::new();
    refs.set_head("ref: refs/heads/main\n".to_string());
    refs.set_ref("refs/heads/main".to_string(), hash_to_hex(&base));
    Repo { store, refs, base }
}

fn manifest(base: &[u8; 32], name: &str, created: u64) -> SandboxManifest {
    let mut m = SandboxManifest::new(name, base, "id".to_string(), created);
    m.branch = Some(format!("sandboxes/{}", name));
    m
}

const CONFIG: &str = "[user]\nname = \"A\"\nemail = \"a@b\"\n";

#[test]
fn sandbox_names() {
    assert!(validate_sandbox_name("bug-fix_1").is_ok());
    assert!(validate_sandbox_name("größe").is_ok());
    assert!(matches!(validate_sandbox_name(""), Err(SandboxError::EmptyName)));
    assert!(matches!(validate_sandbox_name(&"a".repeat(65)), Err(SandboxError::NameTooLong)));
    assert!(validate_sandbox_name(&"a".repeat(64)).is_ok());
    assert!(matches!(validate_sandbox_name("a/b"), Err(SandboxError::InvalidName(_))));
    assert!(matches!(validate_sandbox_name("a b"), Err(SandboxError::InvalidName(_))));
    assert!(matches!(validate_sandbox_name("a.b"), Err(SandboxError::InvalidName(_))));
}

#[test]
fn changes_against_the_base() {
    let mut base: TextMap<[u8; 32]> = TextMap::new();
    base.insert("same".to_string(), hash_bytes(b"s"));
    base.insert("changed".to_string(), hash_bytes(b"1"));
    base.insert("gone".to_string(), hash_bytes(b"g"));
    base.insert(".hidden".to_string(), hash_bytes(b"h"));
    let files = vec![
        work("new/x", b"n"),
        work("same", b"s"),
        work("changed", b"2"),
        work("target/out", b"t"),
        work("node_modules/p", b"t"),
        work(".hidden", b"h"),
    ];
    let shown: Vec<(char, String)> = compute_sandbox_diff(&base, &files)
        .iter()
        .map(|c| (c.status_char(), c.path.clone()))
        .collect();
    assert_eq!(
        shown,
        vec![
            ('D', ".hidden".to_string()),
            ('M', "changed".to_string()),
            ('D', "gone".to_string()),
            ('A', "new/x".to_string()),
        ]
    );
}

#[test]
fn changes_that_cannot_be_told() {
    let r = repo(&[("a", b"1")]);
    let mut m = manifest(&r.base, "s", 1);
    assert!(get_sandbox_changes(&r.store, &m, &vec![work("a", b"1")]).unwrap().is_empty());
    m.base_commit = "zz".to_string();
    assert!(matches!(
        get_sandbox_changes(&r.store, &m, &vec![]),
        Err(SandboxError::InvalidBase(_))
    ));
    m.base_commit = "00".repeat(32);
    assert!(matches!(
        get_sandbox_changes(&r.store, &m, &vec![]),
        Err(SandboxError::NoCommit(_))
    ));
    let mut store = ObjectStore::new();
    store.write_object_with_hash(ObjectType::Commit, &[0u8; 32], vec![1]);
    assert!(matches!(
        get_sandbox_changes(&store, &m, &vec![]),
        Err(SandboxError::CommitTooShort)
    ));
    store.write_object_with_hash(ObjectType::Commit, &[1u8; 32], vec![1; 33]);
    m.base_commit = "01".repeat(32);
    assert!(matches!(get_sandbox_changes(&store, &m, &vec![]), Err(SandboxError::Damaged(_))));
}

#[test]
fn sandboxes_are_created_from_the_current_commit() {
    let mut r = repo(&[("dir/a", b"1"), ("b", b"2")]);
    let o = CreateOptions { base_commit: None, verbose: true };
    let setup = prepare_sandbox(&r.store, &r.refs, "/repo", "s", false, o).unwrap();
    assert_eq!(setup.base_commit, r.base);
    assert_eq!(
        setup.lines,
        vec![
            format!("Creating sandbox 's' from commit {}", &hash_to_hex(&r.base)[..8]),
            format!(
                "Checking out tree {} to /repo/.helix/sandboxes/s/workdir",
                &hash_to_hex(&read_commit(&r.store, &r.base).unwrap().tree_hash)[..8]
            ),
        ]
    );
    let written: Vec<String> = setup
        .actions
        .iter()
        .filter_map(|a| match a {
            CheckoutAction::WriteFile { path, .. } => Some(path.clone()),
            _ => None,
        })
        .collect();
    assert_eq!(written, vec!["b".to_string(), "dir/a".to_string()]);
    let mut stats: TextMap<FileStat> = TextMap::new();
    stats.insert("b".to_string(), FileStat { len: 1, mtime: Some(9), permissions: 0o755 });
    let done = create_sandbox(
        &r.store,
        &mut r.refs,
        "/repo",
        "s",
        &setup,
        &stats,
        "id".to_string(),
        77,
        o,
    )
    .unwrap();
    assert_eq!(done.sandbox.root, "/repo/.helix/sandboxes/s");
    assert_eq!(done.sandbox.workdir, "/repo/.helix/sandboxes/s/workdir");
    assert_eq!(done.sandbox.manifest.branch, Some("sandboxes/s".to_string()));
    assert_eq!(done.sandbox.manifest.base_commit_hash().unwrap(), r.base);
    assert_eq!(r.refs.head, Some("ref: refs/heads/sandboxes/s\n".to_string()));
    let at = hex_to_hash(r.refs.get_ref("refs/heads/sandboxes/s").unwrap()).unwrap();
    assert_eq!(at, r.base);
    assert_eq!(done.activation.headline, "Created and switched to sandbox s (2 files)");
    assert_eq!(done.lines, vec!["Created sandbox index with 2 entries".to_string()]);
    let index = HelixIndex::parse(&done.index_file).unwrap();
    assert_eq!(index.entries[0].path, "b");
    assert_eq!(index.entries[0].file_mode, 0o100755);
    assert_eq!(index.entries[1].path, "dir/a");
    assert_eq!(index.header.created_at, 77);
}

#[test]
fn sandboxes_are_refused_for_their_reasons() {
    let r = repo(&[("a", b"1")]);
    let o = CreateOptions::default();
    let taken = prepare_sandbox(&r.store, &r.refs, "/repo", "s", true, o);
    assert_eq!(taken.unwrap_err().message().unwrap(), "Sandbox 's' already exists");
    let none = prepare_sandbox(&r.store, &RefStore::new(), "/repo", "s", false, o);
    assert!(matches!(none, Err(SandboxError::NoHead(_))));
    let unknown = CreateOptions { base_commit: Some([9u8; 32]), verbose: false };
    let missing = prepare_sandbox(&r.store, &r.refs, "/repo", "s", false, unknown);
    assert!(matches!(missing, Err(SandboxError::Checkout(_))));
}

#[test]
fn switching_moves_the_head() {
    let mut r = repo(&[("a", b"1")]);
    let m = manifest(&r.base, "s", 1);
    let a = switch_sandbox(&mut r.refs, "/repo", "s", Some(&m)).unwrap();
    assert_eq!(a.headline, "Switched to sandbox s");
    assert_eq!(a.branch_line, "Branch:  sandboxes/s");
    assert_eq!(a.active_file, "name=s\nworkdir=/repo/.helix/sandboxes/s/workdir\n");
    assert_eq!(r.refs.head, Some("ref: refs/heads/sandboxes/s\n".to_string()));
    let e = switch_sandbox(&mut r.refs, "/repo", "x", None).unwrap_err();
    assert_eq!(
        e.message().unwrap(),
        "Sandbox 'x' does not exist. Create it with 'helix sandbox create x'"
    );
    let mut bare = m.clone();
    bare.branch = None;
    let a = switch_sandbox(&mut r.refs, "/repo", "s", Some(&bare)).unwrap();
    assert_eq!(a.branch_line, "Branch:  (none)");
}

#[test]
fn destroying_needs_no_changes_or_force() {
    let mut r = repo(&[("a", b"1")]);
    let m = manifest(&r.base, "s", 1);
    r.refs.set_ref("refs/heads/sandboxes/s".to_string(), hash_to_hex(&r.base));
    let o = DestroyOptions { force: false, verbose: true };
    let e = destroy_sandbox(&r.store, &mut r.refs, "s", Some(&m), &vec![], o).unwrap_err();
    assert!(matches!(e, SandboxError::HasChanges(_, 1)));
    assert!(e.message().unwrap().contains("has 1 uncommitted change(s)"));
    assert!(r.refs.present("refs/heads/sandboxes/s"));
    let f = DestroyOptions { force: true, verbose: true };
    let lines = destroy_sandbox(&r.store, &mut r.refs, "s", Some(&m), &vec![], f).unwrap();
    assert_eq!(
        lines,
        vec!["Deleted branch 'sandboxes/s'".to_string(), "Destroyed sandbox 's'".to_string()]
    );
    assert!(!r.refs.present("refs/heads/sandboxes/s"));
    let gone = destroy_sandbox(&r.store, &mut r.refs, "s", None, &vec![], f);
    assert!(matches!(gone, Err(SandboxError::Missing(_))));
    let clean =
        destroy_sandbox(&r.store, &mut r.refs, "s", Some(&m), &vec![work("a", b"1")], o).unwrap();
    assert_eq!(clean, vec!["Destroyed sandbox 's'".to_string()]);
}

#[test]
fn commits_of_a_sandbox() {
    let mut r = repo(&[("a", b"1")]);
    let m = manifest(&r.base, "s", 1);
    let o = |message: &str| CommitOptions {
        message: message.to_string(),
        author: None,
        verbose: true,
    };
    let files = vec![work("a", b"2"), work("b/c", b"3")];
    let mut lines = vec![];
    let none = commit_sandbox(
        &mut r.store, &mut r.refs, "s", Some(&m), &files, &o("  "), Some(CONFIG), 9, &mut lines,
    );
    assert!(matches!(none, Err(SandboxError::EmptyMessage)));
    let same = commit_sandbox(
        &mut r.store, &mut r.refs, "s", Some(&m), &vec![work("a", b"1")], &o("m"), Some(CONFIG), 9, &mut lines,
    );
    assert!(matches!(same, Err(SandboxError::NoChanges(_))));
    let missing =
        commit_sandbox(&mut r.store, &mut r.refs, "s", None, &files, &o("m"), Some(CONFIG), 9, &mut lines);
    assert!(matches!(missing, Err(SandboxError::Missing(_))));
    let nobody = "[user]\nname = \"\"\nemail = \"a@b\"\n";
    let anonymous = commit_sandbox(
        &mut r.store, &mut r.refs, "s", Some(&m), &files, &o("m"), Some(nobody), 9, &mut lines,
    );
    assert!(matches!(anonymous, Err(SandboxError::NoAuthor)));
    assert_eq!(lines, vec!["Committing 2 changes in sandbox 's'".to_string()]);
    let mut lines = vec![];
    let done = commit_sandbox(
        &mut r.store, &mut r.refs, "s", Some(&m), &files, &o("m"), Some(CONFIG), 9, &mut lines,
    )
    .unwrap();
    assert_eq!(lines[0], "Committing 2 changes in sandbox 's'");
    assert!(lines[1].starts_with("Created commit "));
    assert_eq!(done.commit_file, hash_to_hex(&done.hash));
    assert_eq!(r.refs.get_ref("refs/heads/sandboxes/s"), Some(&done.commit_file));
    assert!(r.store.has_object(ObjectType::Blob, &hash_bytes(b"3")));
    let user = UserConfig { name: Some("A".to_string()), email: Some("a@b".to_string()) };
    assert_eq!(get_author(&user), Some("A <a@b>".to_string()));
    assert_eq!(author_of_text(Some(CONFIG)), Some("A <a@b>".to_string()));
    assert_eq!(author_of_text(Some("[user]\nname = \"A\"\nemail = 1\n")), None);
    assert_eq!(author_of_text(Some("user = \"A\"\n")), None);
    assert_eq!(author_of_text(Some("no toml")), None);
    assert_eq!(author_of_text(None), None);
}

#[test]
fn merging_is_a_fast_forward_or_refused() {
    let mut r = repo(&[("a", b"1")]);
    let m = manifest(&r.base, "s", 1);
    let o = MergeOptions::default();
    let mut lines = vec![];
    let gone = merge_sandbox(&mut r.refs, "/repo", "s", None, &o, &mut lines);
    assert!(matches!(gone, Err(SandboxError::Missing(_))));
    let none = merge_sandbox(&mut r.refs, "/repo", "s", Some(&m), &o, &mut lines);
    assert!(matches!(none, Err(SandboxError::BranchMissing)));
    r.refs.set_ref("refs/heads/sandboxes/s".to_string(), hash_to_hex(&r.base));
    let e = merge_sandbox(&mut r.refs, "/repo", "s", Some(&m), &o, &mut lines).unwrap_err();
    assert!(e.message().unwrap().contains("cd /repo/.helix/sandboxes/s/workdir"));
    r.refs.set_ref("refs/heads/sandboxes/s".to_string(), hash_to_hex(&[3u8; 32]));
    assert!(lines.is_empty());
    let h = merge_sandbox(&mut r.refs, "/repo", "s", Some(&m), &o, &mut lines).unwrap();
    assert_eq!(h, [3u8; 32]);
    assert_eq!(lines, vec!["Fast-forward merged 's' into 'main'".to_string()]);
    assert_eq!(r.refs.get_ref("refs/heads/main").unwrap(), &hash_to_hex(&[3u8; 32]));
    let again = merge_sandbox(&mut r.refs, "/repo", "s", Some(&m), &o, &mut lines);
    assert!(matches!(again, Err(SandboxError::Diverged(_))));
    let into = MergeOptions { into_branch: Some("dev".to_string()), verbose: true };
    let mut lines = vec![];
    merge_sandbox(&mut r.refs, "/repo", "s", Some(&m), &into, &mut lines).unwrap();
    assert_eq!(lines[0], "Merging sandbox 's' into dev");
    assert_eq!(lines[1], "Created branch 'dev' at 03030303");
    let again = merge_sandbox(&mut r.refs, "/repo", "s", Some(&m), &into, &mut lines);
    assert!(matches!(again, Err(SandboxError::Diverged(_))));
    assert_eq!(lines.len(), 3);
    assert_eq!(lines[2], "Merging sandbox 's' into dev");
    let mut bare = m.clone();
    bare.branch = None;
    let none = merge_sandbox(&mut r.refs, "/repo", "s", Some(&bare), &o, &mut lines);
    assert!(matches!(none, Err(SandboxError::NoBranch)));
    r.refs.set_ref("refs/heads/sandboxes/s".to_string(), "zz".to_string());
    let bad = merge_sandbox(&mut r.refs, "/repo", "s", Some(&m), &o, &mut lines);
    assert!(matches!(bad, Err(SandboxError::InvalidBranch(_))));
}

#[test]
fn default_options() {
    assert!(!DestroyOptions::default().force);
    assert!(!ListOptions::default().verbose);
    assert!(CreateOptions::default().base_commit.is_none());
    assert_eq!(sandbox_path("/r", "x"), "/r/.helix/sandboxes/x");
}

#[test]
fn where_a_command_runs() {
    let s = |v: &[&str]| v.iter().map(|x| x.to_string()).collect::<Vec<String>>();
    let facts = FsFacts {
        present: s(&["/r/.helix/sandboxes/one/manifest.toml"]),
        dirs: s(&["/r/.helix", "/r/.helix/sandboxes/one/.helix"]),
    };
    let c = RepoContext::detect(&facts, "/r/src/deep").unwrap();
    assert_eq!(c.repo_root, "/r");
    assert_eq!(c.index_path, "/r/.helix/helix.idx");
    assert!(!c.is_sandbox());
    assert_eq!(c.sandbox_name(), None);
    let c = RepoContext::detect(&facts, "/r/.helix/sandboxes/one/workdir/src").unwrap();
    assert!(c.is_sandbox());
    assert_eq!(c.repo_root, "/r");
    assert_eq!(c.workdir, "/r/.helix/sandboxes/one/workdir");
    assert_eq!(c.index_path, "/r/.helix/sandboxes/one/helix.idx");
    assert_eq!(c.sandbox_name(), Some("one".to_string()));
    assert!(RepoContext::detect(&facts, "/elsewhere").is_none());
    let at_root = FsFacts { present: vec![], dirs: s(&["/.helix"]) };
    assert_eq!(RepoContext::detect(&at_root, "/x").unwrap().repo_root, "/");
}

fn info(changes: Vec<SandboxChange>) -> SandboxInfo {
    SandboxInfo {
        manifest: manifest(&[1u8; 32], "s", 1),
        root: "/r".to_string(),
        workdir: "/w".to_string(),
        changes,
    }
}

#[test]
fn summaries_count_each_kind() {
    assert_eq!(info(vec![]).change_summary(), "clean");
    let change = |k| SandboxChange { path: "p".to_string(), kind: k };
    let i = info(vec![
        change(SandboxChangeKind::Added),
        change(SandboxChangeKind::Deleted),
        change(SandboxChangeKind::Added),
    ]);
    assert_eq!(i.change_summary(), "+2 -1");
}

#[test]
fn ages_in_words() {
    assert_eq!(format_age(100, 130), "just now");
    assert_eq!(format_age(100, 50), "just now");
    assert_eq!(format_age(0, 120), "2 min ago");
    assert_eq!(format_age(0, 7200), "2 hours ago");
    assert_eq!(format_age(0, 172_800), "2 days ago");
    assert_eq!(format_age_short(0, 120), "2m ago");
    assert_eq!(format_timestamp(0, 172_800), "0 (2d ago)");
}

#[test]
fn listings_show_the_newest_first() {
    let r = repo(&[("a", b"1")]);
    let found = |name: &str, created: u64, files: Vec<WorkFile>| SandboxFiles {
        sandbox: Sandbox {
            manifest: manifest(&r.base, name, created),
            root: format!("/s/{}", name),
            workdir: format!("/s/{}/workdir", name),
        },
        files,
    };
    let short = hash_to_hex(&r.base)[..8].to_string();
    let lines = list_sandboxes(
        &r.store,
        vec![found("old", 10, vec![work("a", b"1")]), found("new", 70, vec![])],
        100,
    );
    assert_eq!(
        lines,
        vec![
            "Sandboxes:\n".to_string(),
            format!("  new  (base: {}, just now, 1 changes)", short),
            format!("  old  (base: {}, 1 min ago, clean)", short),
            "".to_string(),
        ]
    );
    assert_eq!(list_sandboxes(&r.store, vec![], 1)[0], "No sandboxes found.");
    let (changes, lines) =
        sandbox_status(&r.store, "new", Some(&found("new", 1, vec![]))).unwrap();
    assert_eq!(changes.len(), 1);
    assert_eq!(lines[2], "  D a");
    assert!(sandbox_status(&r.store, "x", None).is_err());
    let app = App::new(
        &r.store,
        "/x/repo",
        vec![found("old", 10, vec![work("a", b"1")]), found("new", 70, vec![])],
    );
    assert_eq!(app.repo_name, "repo");
    assert_eq!(app.sandboxes[0].manifest.name, "new");
    let h = header_counts(&app);
    assert_eq!((h.sandboxes, h.clean, h.dirty, h.changes), (2, 1, 1, 1));
}
