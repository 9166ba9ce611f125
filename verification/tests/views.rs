//! The terminal views.
use helix::branch_tui::app::{App as BranchApp, Focus, Trouble};
use helix::branch_tui::listing::get_remote_tracking;
use helix::hash::{hash_bytes, hash_to_hex};
use helix::helix_index::api::HelixIndexData;
use helix::helix_index::commit::Commit;
use helix::helix_index::commit_store::CommitStore;
use helix::helix_index::format::{Entry, EntryFlags, Header};
use helix::helix_index::reader::HelixIndex;
use helix::helix_index::tree::TreeBuilder;
use helix::ignore::IgnoreRules;
use helix::keys::{KeyCode, KeyPress};
use helix::list_actions::{file_action_for, list_action_for, page_down, page_up, scroll_list, ListAction};
use helix::merge_command::{ConflictResolution, ConflictType};
use helix::merge_tui::actions::{action_for, Action};
use helix::merge_tui::app::{App as MergeApp, Outcome};
use helix::merge_tui::ui::{
    compute_line_diff, conflict_diff, conflict_type_label, diff_max_scroll, header_status,
    panel_rows, resolution_label, shorten_path, truncate_line, DiffKind,
};
use helix::object_store::{ObjectStore, ObjectType};
use helix::refs::RefStore;
use helix::sandbox_command::{Sandbox, SandboxManifest};
use helix::sandbox_tui::app::{App as SandboxApp, SandboxFiles, Section as SandboxSection};
use helix::status::app::{App as StatusApp, Effect, FileStatus, Section, StatusError};

fn key(code: KeyCode) -> KeyPress {
    KeyPress { code, control: false }
}

fn ch(c: char) -> KeyPress {
    key(KeyCode::Char(c))
}

fn ctrl(c: char) -> KeyPress {
    KeyPress { code: KeyCode::Char(c), control: true }
}

#[test]
fn keys_of_the_merge_view() {
    assert_eq!(action_for(ch('q')), Some(Action::Quit));
    assert_eq!(action_for(ctrl('c')), Some(Action::Cancel));
    assert_eq!(action_for(ch('c')), None);
    assert_eq!(action_for(ch('2')), Some(Action::TakeSandbox));
    assert_eq!(action_for(key(KeyCode::Tab)), Some(Action::ToggleExpand));
    assert_eq!(action_for(key(KeyCode::PageDown)), Some(Action::ScrollDiffPageDown));
}

fn tree(store: &mut ObjectStore, files: &[(&str, &[u8])]) -> [u8; 32] {
    let mut entries = vec![];
    for (p, c) in files {
        let oid = store.write_object(ObjectType::Blob, c.to_vec());
        entries.push(Entry::new(p.to_string(), c.len() as u64, 0, oid, 0o100644));
    }
    TreeBuilder::build_from_entries(store, &entries)
}

fn commit(store: &mut ObjectStore, parents: Vec<[u8; 32]>, files: &[(&str, &[u8])]) -> [u8; 32] {
    let t = tree(store, files);
    let c = Commit::new(t, parents, "A".to_string(), "m".to_string(), 1);
    store.write_object(ObjectType::Commit, c.to_bytes())
}

fn merge_app() -> (ObjectStore, MergeApp) {
    let mut s = ObjectStore::new();
    let base = commit(&mut s, vec![], &[("a", b"a\n"), ("b", b"b\n"), ("c", b"c\n")]);
    let target = commit(&mut s, vec![base], &[("a", b"a1"), ("b", b"b1\n"), ("c", b"c\n"), ("n", b"1")]);
    let sandbox = commit(&mut s, vec![base], &[("a", b"a2\n"), ("c", b"c2\n"), ("n", b"2")]);
    let app =
        MergeApp::new(&s, "/r", "main", "box", base, target, sandbox, "A <a@b>").unwrap();
    (s, app)
}

#[test]
fn conflicts_are_decided_one_by_one() {
    let (mut s, mut app) = merge_app();
    assert!(app.has_conflicts());
    assert_eq!(app.conflicts.len(), 3);
    assert_eq!(app.resolved_count(), 0);
    assert_eq!(header_status(&app), "0 / 3 resolved");
    app.handle_key(ch('n'));
    assert_eq!(app.selected_conflict, 1);
    app.handle_key(ch('p'));
    assert_eq!(app.selected_conflict, 0);
    app.handle_key(ch('p'));
    assert_eq!(app.selected_conflict, 2);
    app.handle_key(ch('k'));
    app.handle_key(ch('k'));
    app.handle_key(ch('q'));
    assert_eq!(app.outcome(), Outcome::Continue);
    while !app.all_resolved() {
        app.handle_key(ch('a'));
    }
    assert_eq!(app.outcome(), Outcome::Merge);
    let i = app.conflicts.iter().position(|c| c.conflict.path == "a").unwrap();
    assert_eq!(
        app.conflicts[i].resolution,
        Some(ConflictResolution::Merged(b"a1\na2\n".to_vec()))
    );
    assert_eq!(header_status(&app), "All resolved");
    let done = app.execute(&mut s, 5).unwrap();
    assert_eq!(done.conflicts_resolved, 3);
    assert!(s.has_object(ObjectType::Commit, &done.commit_hash));
    assert!(s.has_object(ObjectType::Blob, &hash_bytes(b"a1\na2\n")));
}

#[test]
fn helps_scrolls_and_cancels() {
    let (mut s, mut app) = merge_app();
    app.handle_key(ch('?'));
    assert!(app.show_help);
    app.handle_key(key(KeyCode::Esc));
    assert!(!app.show_help && !app.should_cancel);
    app.diff_max_scroll = 15;
    app.handle_key(key(KeyCode::Down));
    app.handle_key(key(KeyCode::PageDown));
    assert_eq!(app.diff_scroll, 11);
    app.handle_key(key(KeyCode::PageDown));
    assert_eq!(app.diff_scroll, 15);
    app.handle_key(key(KeyCode::PageUp));
    assert_eq!(app.diff_scroll, 5);
    app.handle_key(key(KeyCode::End));
    assert_eq!(app.diff_scroll, 15);
    app.handle_key(key(KeyCode::Home));
    assert_eq!(app.diff_scroll, 0);
    app.handle_key(ch('e'));
    assert!(app.conflicts[0].expanded);
    app.handle_key(ch('b'));
    app.handle_key(key(KeyCode::Enter));
    assert!(!app.should_quit);
    assert!(app.execute(&mut s, 5).is_err());
    app.handle_key(key(KeyCode::Esc));
    assert_eq!(app.outcome(), Outcome::Cancelled);
    app.update_visible_height(12);
    assert_eq!(app.visible_height, 2);
    assert!(app.selected_conflict_mut().is_some());
}

#[test]
fn base_is_only_taken_where_there_is_one() {
    let (_, mut app) = merge_app();
    let i = app.conflicts.iter().position(|c| c.conflict.path == "n").unwrap();
    app.selected_conflict = i;
    app.handle_action(Action::TakeBase);
    assert!(app.conflicts[i].resolution.is_none());
    assert_eq!(app.conflicts[i].conflict.conflict_type, ConflictType::BothAdded);
    app.handle_action(Action::TakeTarget);
    assert_eq!(app.conflicts[i].resolution, Some(ConflictResolution::TakeTarget));
}

#[test]
fn lines_side_by_side() {
    let (t, s) = compute_line_diff("a\nb\nc\n", "a\nx\n");
    let kinds: Vec<DiffKind> = t.iter().map(|l| l.kind).collect();
    assert_eq!(kinds, vec![DiffKind::Context, DiffKind::Modified, DiffKind::Removed]);
    assert_eq!(s.len(), 2);
    assert_eq!(s[1].text, "x");
    let rows = panel_rows(&t, 1, 1, 20);
    assert_eq!(rows.len(), 1);
    assert_eq!(rows[0].number, "  2 ");
    assert_eq!(rows[0].text, "b");
    assert_eq!(diff_max_scroll(3, 10, 4), 6);
    assert_eq!(diff_max_scroll(3, 1, 4), 0);
    let (_, added) = compute_line_diff("", "q\n");
    assert_eq!(added[0].kind, DiffKind::Added);
}

#[test]
fn contents_of_a_conflict_are_shown_as_text() {
    let (_, mut app) = merge_app();
    let state = &mut app.conflicts[0];
    state.target_content = b"x\xff\nsame\n".to_vec();
    state.sandbox_content = b"y\nsame\nmore\n".to_vec();
    let (target, sandbox) = conflict_diff(state);
    assert_eq!(target[0].text, "x\u{fffd}");
    let kinds: Vec<DiffKind> = sandbox.iter().map(|l| l.kind).collect();
    assert_eq!(kinds, vec![DiffKind::Modified, DiffKind::Context, DiffKind::Added]);
}

#[test]
fn texts_are_shortened() {
    assert_eq!(truncate_line("abcdef", 5), "ab...");
    assert_eq!(truncate_line("abcde", 5), "abcde");
    assert_eq!(truncate_line("äöü", 5), "ä...");
    assert_eq!(truncate_line("abc", 2), "...");
    assert_eq!(shorten_path("src/very/long/path/file.rs"), "...ong/path/file.rs".replace("...ong", "...long"));
    assert_eq!(shorten_path("short"), "short");
    assert_eq!(conflict_type_label(ConflictType::ModifyDelete), "mod/del");
    assert_eq!(resolution_label(&Some(ConflictResolution::Delete)), "DELETE file");
    assert_eq!(resolution_label(&None), "Unresolved - choose an action below");
}

#[test]
fn keys_of_the_lists() {
    assert_eq!(list_action_for(ctrl('d')), Some(ListAction::PageDown));
    assert_eq!(list_action_for(ch('d')), None);
    assert_eq!(list_action_for(ch(' ')), None);
    assert_eq!(file_action_for(ch(' ')), Some(ListAction::ToggleStage));
    assert_eq!(file_action_for(ch('A')), Some(ListAction::UnstageAll));
    assert_eq!(file_action_for(key(KeyCode::Home)), Some(ListAction::GoToTop));
    assert_eq!(scroll_list(0, 5, 3, 10), 3);
    assert_eq!(scroll_list(9, 2, 3, 10), 2);
    assert_eq!(scroll_list(9, 9, 3, 10), 7);
    assert_eq!(page_up(12), 2);
    assert_eq!(page_up(3), 0);
    assert_eq!(page_down(3, 100), 13);
    assert_eq!(page_down(95, 100), 99);
}

fn branches() -> (CommitStore, RefStore) {
    let mut c = CommitStore::new();
    let a = commit(&mut c.store, vec![], &[("x", b"1")]);
    let b = commit(&mut c.store, vec![a], &[("x", b"2")]);
    let mut refs = RefStore::new();
    refs.set_head("ref: refs/heads/main\n".to_string());
    refs.set_ref("refs/heads/main".to_string(), hash_to_hex(&b));
    refs.set_ref("refs/heads/alpha".to_string(), hash_to_hex(&a));
    refs.set_ref("refs/heads/beta".to_string(), "zz".to_string());
    refs.set_upstream("alpha".to_string(), "main".to_string());
    (c, refs)
}

#[test]
fn branches_are_listed() {
    let (c, refs) = branches();
    let config = Some("[branch \"alpha\"]\n  remote = origin\n  merge = refs/heads/a\n".to_string());
    let app = BranchApp::new(&c, &refs, &config, "/x/repo", Some("s")).unwrap();
    let names: Vec<&str> = app.branches.iter().map(|b| b.name.as_str()).collect();
    assert_eq!(names, vec!["main", "alpha", "beta"]);
    assert_eq!(app.selected_index, 0);
    assert_eq!(app.repo_name, "repo (sandbox: s)");
    assert_eq!(app.branches[0].commit_count, 2);
    assert_eq!(app.branches[1].commit_count, 1);
    assert_eq!(app.branches[1].remote_tracking, Some("origin/a".to_string()));
    assert_eq!(app.branches[1].upstream, Some("main".to_string()));
    assert!(app.branches[2].last_commit_hash.is_none());
    assert_eq!(app.branch_commit_lists.get("main").unwrap().len(), 2);
}

#[test]
fn remote_tracking_is_read_from_the_section() {
    let c = Some("[core]\n[branch \"a\"]\nremote = o\nmerge = refs/heads/m\n[x]\nremote = p\n".to_string());
    assert_eq!(get_remote_tracking(&c, "a"), Some("o/m".to_string()));
    assert_eq!(get_remote_tracking(&c, "other"), None);
    assert_eq!(get_remote_tracking(&None, "a"), None);
    let c = Some("[branch \"maintenance\"]\nremote = o\nmerge = refs/heads/m\n".to_string());
    assert_eq!(get_remote_tracking(&c, "main"), None);
    assert_eq!(get_remote_tracking(&c, "maintenance"), Some("o/m".to_string()));
    let c = Some(
        "[branch \"a\"] # ours\nremote = o\nmerge = refs/heads/m\n[core] ; end\nremote = p\n"
            .to_string(),
    );
    assert_eq!(get_remote_tracking(&c, "a"), Some("o/m".to_string()));
}

#[test]
fn branch_view_moves_and_switches() {
    let (c, mut refs) = branches();
    let config = None;
    let mut app = BranchApp::new(&c, &refs, &config, "/x/repo", None).unwrap();
    app.update_visible_height(14);
    assert_eq!(app.visible_height, 2);
    assert!(app.handle_key(ch('j'), &c, &mut refs, &config).is_none());
    assert_eq!(app.selected_index, 1);
    let bad = app.handle_key(ch('j'), &c, &mut refs, &config);
    assert!(matches!(bad, Some(Trouble::Commits(_))));
    assert_eq!(app.selected_index, 2);
    assert_eq!(app.scroll_offset, 1);
    app.handle_key(ch('j'), &c, &mut refs, &config);
    assert_eq!(app.selected_index, 0);
    app.handle_key(ch('l'), &c, &mut refs, &config);
    assert_eq!(app.focus, Focus::CommitList);
    app.handle_key(ch('j'), &c, &mut refs, &config);
    app.handle_key(ch('j'), &c, &mut refs, &config);
    assert_eq!(app.selected_commit_index, 1);
    app.handle_key(ch('g'), &c, &mut refs, &config);
    assert_eq!(app.selected_commit_index, 0);
    app.handle_key(ch('h'), &c, &mut refs, &config);
    app.handle_key(ch('c'), &c, &mut refs, &config);
    assert!(!app.checkout_mode);
    app.handle_key(ch('j'), &c, &mut refs, &config);
    app.handle_key(ch('c'), &c, &mut refs, &config);
    assert!(app.checkout_mode);
    app.handle_key(ch('n'), &c, &mut refs, &config);
    assert!(!app.checkout_mode && !app.should_quit);
    app.handle_key(key(KeyCode::Enter), &c, &mut refs, &config);
    assert!(app.should_quit);
    assert_eq!(refs.head, Some("ref: refs/heads/alpha\n".to_string()));
}

#[test]
fn branch_view_deletes_and_renames() {
    let (c, mut refs) = branches();
    let config = None;
    let mut app = BranchApp::new(&c, &refs, &config, "/x/repo", None).unwrap();
    app.handle_key(ch('d'), &c, &mut refs, &config);
    assert!(!app.delete_mode);
    app.handle_key(ch('j'), &c, &mut refs, &config);
    app.handle_key(ch('r'), &c, &mut refs, &config);
    assert_eq!(app.new_branch_name, "alpha");
    app.handle_key(key(KeyCode::Backspace), &c, &mut refs, &config);
    app.handle_key(ch('X'), &c, &mut refs, &config);
    app.handle_key(key(KeyCode::Enter), &c, &mut refs, &config);
    assert!(refs.present("refs/heads/alphX") && !refs.present("refs/heads/alpha"));
    assert!(!app.rename_mode);
    app.handle_key(ch('j'), &c, &mut refs, &config);
    app.handle_key(ch('d'), &c, &mut refs, &config);
    app.handle_key(ch('y'), &c, &mut refs, &config);
    assert!(!refs.present("refs/heads/alphX"));
    assert_eq!(app.branches.len(), 2);
    app.handle_key(ch('r'), &c, &mut refs, &config);
    app.handle_key(ch('/'), &c, &mut refs, &config);
    let refused = app.handle_key(key(KeyCode::Enter), &c, &mut refs, &config);
    assert!(matches!(refused, Some(Trouble::Branch(_))));
    app.create_branch("fresh", &c, &mut refs, &config).unwrap();
    assert!(app.branches.iter().any(|b| b.name == "fresh"));
}

fn status_app() -> StatusApp {
    let entry = |p: &str, bits: u32| {
        let mut e = Entry::new(p.to_string(), 1, 1, [0u8; 32], 0o100644);
        e.flags = EntryFlags::from_bits_retain(bits);
        e
    };
    let t = EntryFlags::TRACKED;
    let index = HelixIndexData {
        repo_path: "/r".to_string(),
        data: HelixIndex {
            header: Header::new(1, 4, 1),
            entries: vec![
                entry("m", t | EntryFlags::MODIFIED | EntryFlags::STAGED),
                entry("clean", t),
                entry("d", t | EntryFlags::DELETED),
                entry("a", t | EntryFlags::STAGED),
            ],
        },
    };
    let walked: Vec<String> = ["clean", "new", ".git/config", "sub/.helix", "m"]
        .iter()
        .map(|s| s.to_string())
        .collect();
    let rules = IgnoreRules::load(&vec![], &vec![], &vec![]);
    StatusApp::new("/x/r", Some("main".to_string()), index, rules, &walked)
}

#[test]
fn changed_files_are_listed_in_order() {
    let app = status_app();
    let shown: Vec<(char, String)> =
        app.files.iter().map(|f| (f.status_char(), f.path().clone())).collect();
    assert_eq!(
        shown,
        vec![
            ('A', "a".to_string()),
            ('D', "d".to_string()),
            ('M', "m".to_string()),
            ('?', "new".to_string()),
        ]
    );
    assert_eq!(app.staged_files, vec!["m".to_string(), "a".to_string()]);
    assert_eq!(app.tracked_files.len(), 4);
    assert_eq!(app.repo_name, "r");
}

#[test]
fn staging_in_the_status_view() {
    let mut app = status_app();
    let done = app.handle_key(ch(' ')).unwrap();
    assert!(matches!(done, Effect::Write(_)));
    assert_eq!(app.staged_files, vec!["m".to_string()]);
    assert_eq!(app.helix_index.generation(), 2);
    app.handle_key(ch(' ')).unwrap();
    assert!(app.staged_files.contains(&"a".to_string()));
    app.handle_key(ch('G')).unwrap();
    assert_eq!(app.get_selected_file(), Some(&FileStatus::Untracked("new".to_string())));
    assert!(matches!(app.handle_key(ch(' ')), Err(StatusError::Stage(_))));
    assert!(matches!(app.handle_key(ch('a')), Err(StatusError::Stage(_))));
    assert!(app.staged_files.contains(&"d".to_string()));
    assert!(matches!(app.handle_key(ch('A')).unwrap(), Effect::Write(_)));
    assert!(app.staged_files.is_empty());
    assert!(app.helix_index.get_staged().is_empty());
}

#[test]
fn keys_that_write_the_index() {
    let mut app = status_app();
    for (c, writes) in [(' ', true), ('a', false), ('A', true), ('j', false), ('r', false)] {
        assert_eq!(app.key_writes(ch(c)), writes);
    }
    app.helix_index.data.header.generation = u64::MAX;
    assert!(app.handle_key(ch('G')).is_ok());
    assert!(!app.key_writes(ch(' ')));
    assert!(matches!(app.handle_key(ch(' ')), Err(StatusError::Stage(_))));
    assert_eq!(app.helix_index.generation(), u64::MAX);
    assert!(app.refresh_due(2) && !app.refresh_due(1));
    app.auto_refresh = false;
    assert!(!app.refresh_due(9));
}

#[test]
fn status_view_moves_and_refreshes() {
    let mut app = status_app();
    app.update_visible_height(8);
    assert_eq!(app.visible_height, 2);
    app.handle_key(ch('j')).unwrap();
    app.handle_key(ch('j')).unwrap();
    assert_eq!((app.selected_index, app.scroll_offset), (2, 1));
    app.handle_key(ch('k')).unwrap();
    assert_eq!(app.selected_index, 1);
    app.handle_key(key(KeyCode::PageDown)).unwrap();
    assert_eq!(app.selected_index, 3);
    assert!(matches!(app.handle_key(ch('t')).unwrap(), Effect::Refresh(false)));
    assert!(!app.show_untracked);
    app.refresh_status(&vec!["new".to_string()]);
    assert_eq!(app.files.len(), 3);
    assert!(matches!(app.handle_key(ch('r')).unwrap(), Effect::Refresh(true)));
    app.clamp_selection();
    assert_eq!(app.selected_index, 2);
    app.handle_key(key(KeyCode::Tab)).unwrap();
    assert_eq!((app.current_section, app.selected_index), (Section::Staged, 0));
    app.handle_key(ch('h')).unwrap();
    assert!(app.sections_collapsed.staged);
    app.handle_key(ch('l')).unwrap();
    assert!(!app.sections_collapsed.staged);
    app.handle_key(ch('?')).unwrap();
    assert!(app.show_help);
    app.handle_key(ch('q')).unwrap();
    assert!(app.should_quit);
}

#[test]
fn sandbox_view_moves() {
    let mut s = ObjectStore::new();
    let base = commit(&mut s, vec![], &[("x", b"1"), ("y", b"2")]);
    let found = |name: &str, created: u64| SandboxFiles {
        sandbox: Sandbox {
            manifest: SandboxManifest::new(name, &base, "i".to_string(), created),
            root: "/s".to_string(),
            workdir: "/s/w".to_string(),
        },
        files: vec![],
    };
    let mut app = SandboxApp::new(&s, "/r", vec![found("a", 1), found("b", 2)]);
    assert_eq!(app.get_selected_sandbox().unwrap().manifest.name, "b");
    assert!(!app.handle_key(key(KeyCode::Tab)));
    assert_eq!(app.current_section, SandboxSection::Changes);
    app.handle_key(ch('j'));
    app.handle_key(ch('j'));
    assert_eq!(app.selected_change_index, 1);
    assert_eq!(app.get_selected_change().unwrap().path, "y");
    app.handle_key(key(KeyCode::Tab));
    app.handle_key(ch('j'));
    assert_eq!((app.selected_sandbox_index, app.selected_change_index), (1, 0));
    app.handle_key(ch('h'));
    assert!(app.sections_collapsed.sandboxes);
    app.handle_key(ch('l'));
    app.handle_key(key(KeyCode::PageDown));
    app.handle_key(ch('g'));
    assert_eq!(app.selected_sandbox_index, 0);
    app.handle_key(ch('G'));
    assert_eq!(app.selected_sandbox_index, 1);
    app.handle_key(key(KeyCode::PageUp));
    app.handle_key(ch('k'));
    assert_eq!(app.selected_sandbox_index, 0);
    app.handle_key(ch('G'));
    assert!(app.handle_key(ch('r')));
    app.refresh_sandboxes(&s, vec![found("a", 1)]);
    assert_eq!(app.selected_sandbox_index, 0);
    app.update_visible_height(20);
    assert_eq!(app.visible_height, 14);
    app.handle_key(ch('?'));
    app.handle_key(key(KeyCode::Esc));
    assert!(app.show_help && app.should_quit);
}
