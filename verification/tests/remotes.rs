//! Pushing, pulling and the rest.
use helix::commit_graph::{count_commits, walk_commits_between};
use helix::config::{Config, GlobalConfig, MessageLevel, RepoConfig};
use helix::handshake::{handshake_reply, handshake_request, HandshakeError};
use helix::hash::{hash_bytes, hash_to_hex};
use helix::helix_index::commit::Commit;
use helix::helix_index::commit_store::read_commit;
use helix::helix_index::format::Entry;
use helix::helix_index::tree::TreeBuilder;
use helix::helix_index::tree_walk::collect_all_files;
use helix::object_graph::{parse_tree_entries, EntryKind, GatherError, TreeRefsError};
use helix::object_store::{ObjectStore, ObjectType, StoredObject};
use helix::pull::{finish_fetch, object_path, FetchError};
use helix::pull_command::{finish_pull, start_pull, PullError, PullOptions};
use helix::push::{compute_push_frontier, convert_hash32_to_hex32, convert_hex_to_hash32, ObjectFile};
use helix::push_command::{
    compute_objects_to_push, finish_push, prepare_push, read_remote_tracking,
    resolve_remote_and_ref, start_push, write_remote_tracking, PushError, PushObjectsError,
    PushOptions, PushStep, RefError, RemoteError, RemotesConfig,
};
use helix::refs::RefStore;
use helix::rpc::{PullAck, RpcMessage};
use helix::text_map::TextMap;

fn commit(store: &mut ObjectStore, parents: Vec<[u8; 32]>, files: &[(&str, &[u8])]) -> [u8; 32] {
    let mut entries = vec![];
    for (p, c) in files {
        let oid = store.write_object(ObjectType::Blob, c.to_vec());
        entries.push(Entry::new(p.to_string(), c.len() as u64, 0, oid, 0o100644));
    }
    let t = TreeBuilder::build_from_entries(store, &entries);
    let c = Commit::new(t, parents, "A".to_string(), "m".to_string(), 1);
    store.write_object(ObjectType::Commit, c.to_bytes())
}

fn config() -> Option<RemotesConfig> {
    let mut m: TextMap<String> = TextMap::new();
    m.insert("origin_push".to_string(), "https://h".to_string());
    Some(RemotesConfig { remotes: Some(m) })
}

fn object(kind: ObjectType, data: &[u8]) -> StoredObject {
    StoredObject { kind, hash: hash_bytes(data), data: data.to_vec() }
}

#[test]
fn remotes_are_resolved() {
    let (url, name) = resolve_remote_and_ref(&config(), "origin", "main").unwrap();
    assert_eq!((url.as_str(), name.as_str()), ("https://h", "refs/heads/main"));
    assert_eq!(resolve_remote_and_ref(&None, "o", "b").unwrap_err(), RemoteError::MissingConfig);
    let bare = Some(RemotesConfig { remotes: None });
    assert_eq!(resolve_remote_and_ref(&bare, "o", "b").unwrap_err(), RemoteError::MissingRemotes);
    let e = resolve_remote_and_ref(&config(), "x", "b").unwrap_err();
    assert_eq!(
        e.message(),
        "Remote 'x' not found. Expected key 'x_push' in [remotes] table."
    );
}

#[test]
fn tracking_references_are_read_back() {
    let mut refs = RefStore::new();
    assert!(matches!(read_remote_tracking(&refs, "o", "b"), Err(RefError::Missing(_))));
    write_remote_tracking(&mut refs, "o", "b", &[4u8; 32]);
    assert_eq!(read_remote_tracking(&refs, "o", "b"), Ok([4u8; 32]));
    assert_eq!(
        refs.get_ref("refs/remotes/o/b").unwrap(),
        &format!("{}\n", hash_to_hex(&[4u8; 32]))
    );
    assert!(matches!(read_remote_tracking(&refs, "o", ""), Err(RefError::Unreadable(_))));
    refs.set_ref("refs/remotes/o/c".to_string(), "q".to_string());
    assert!(matches!(read_remote_tracking(&refs, "o", "c"), Err(RefError::Invalid(_))));
    refs.set_ref("refs/remotes/o/d/e".to_string(), "q".to_string());
    assert!(matches!(read_remote_tracking(&refs, "o", "d"), Err(RefError::Unreadable(_))));
}

#[test]
fn commits_between_two_heads() {
    let mut s = ObjectStore::new();
    let a = commit(&mut s, vec![], &[("x", b"1")]);
    let b = commit(&mut s, vec![a], &[("x", b"2")]);
    let c = commit(&mut s, vec![a], &[("x", b"3")]);
    let d = commit(&mut s, vec![b, c, [9u8; 32]], &[("x", b"4")]);
    let ids = |v: Vec<helix::commit_graph::CommitData>| {
        v.into_iter().map(|c| c.hash).collect::<Vec<[u8; 32]>>()
    };
    assert_eq!(ids(walk_commits_between(&s, &d, None).unwrap()), vec![d, b, c, a]);
    assert_eq!(ids(walk_commits_between(&s, &d, Some(b)).unwrap()), vec![d, c, a]);
    assert_eq!(ids(walk_commits_between(&s, &d, Some(a)).unwrap()), vec![d, b, c]);
    assert!(walk_commits_between(&s, &d, Some(d)).unwrap().is_empty());
    assert_eq!(count_commits(&s, &d), 5);
    assert_eq!(count_commits(&s, &a), 1);
    s.write_object_with_hash(ObjectType::Commit, &[9u8; 32], vec![1]);
    assert!(walk_commits_between(&s, &d, None).is_err());
}

#[test]
fn objects_to_push_are_each_sent_once() {
    let mut s = ObjectStore::new();
    let a = commit(&mut s, vec![], &[("x", b"1"), ("d/y", b"1"), ("d/z", b"2")]);
    let b = commit(&mut s, vec![a], &[("x", b"1"), ("d/y", b"1"), ("d/z", b"3")]);
    let all = compute_objects_to_push(&s, &b, None).unwrap();
    let count = |v: &Vec<StoredObject>, k| v.iter().filter(|o| o.kind == k).count();
    assert_eq!(count(&all, ObjectType::Commit), 2);
    assert_eq!(count(&all, ObjectType::Tree), 4);
    assert_eq!(count(&all, ObjectType::Blob), 3);
    assert_eq!(all[0].hash, b);
    let some = compute_objects_to_push(&s, &b, Some(a)).unwrap();
    assert_eq!(count(&some, ObjectType::Commit), 1);
    assert_eq!(count(&some, ObjectType::Tree), 2);
    assert_eq!(count(&some, ObjectType::Blob), 1);
    assert!(compute_objects_to_push(&s, &b, Some(b)).unwrap().is_empty());
    s.delete_object(ObjectType::Blob, &hash_bytes(b"3"));
    let e = compute_objects_to_push(&s, &b, None).unwrap_err();
    assert_eq!(
        e,
        PushObjectsError::Objects(GatherError::Missing(ObjectType::Blob, hash_bytes(b"3")))
    );
}

#[test]
fn nothing_is_pushed_that_the_server_has() {
    let mut s = ObjectStore::new();
    let a = commit(&mut s, vec![], &[("x", b"1"), ("d/y", b"2")]);
    let b = commit(&mut s, vec![a], &[("x", b"3"), ("d/y", b"2")]);
    let c = commit(&mut s, vec![a], &[("x", b"1"), ("d/y", b"2"), ("z", b"4")]);
    let d = commit(&mut s, vec![b, c], &[("x", b"3"), ("d/y", b"2"), ("z", b"4")]);
    let keys = |v: Vec<StoredObject>| -> Vec<(ObjectType, [u8; 32])> {
        v.iter().map(|o| (o.kind, o.hash)).collect()
    };
    let sent = keys(compute_objects_to_push(&s, &d, Some(b)).unwrap());
    assert!(sent.contains(&(ObjectType::Commit, d)));
    assert!(sent.contains(&(ObjectType::Commit, c)));
    assert!(!sent.contains(&(ObjectType::Commit, a)));
    assert!(!sent.contains(&(ObjectType::Blob, hash_bytes(b"2"))));
    assert!(!sent.contains(&(ObjectType::Blob, hash_bytes(b"1"))));
    assert!(sent.contains(&(ObjectType::Blob, hash_bytes(b"4"))));
    let all = keys(compute_objects_to_push(&s, &d, None).unwrap());
    let there = keys(compute_objects_to_push(&s, &b, None).unwrap());
    assert_eq!(sent.len() + there.len(), all.len());
    for k in &all {
        assert_eq!(sent.contains(k), !there.contains(k));
    }
    assert_eq!(keys(compute_objects_to_push(&s, &d, Some([9u8; 32])).unwrap()), all);
}

#[test]
fn references_of_trees() {
    assert_eq!(parse_tree_entries(&[0]), Err(TreeRefsError::TooShort));
    assert_eq!(parse_tree_entries(&[0, 0, 0, 0]), Ok(vec![]));
    assert_eq!(parse_tree_entries(&[1, 0, 0, 0, 2]), Err(TreeRefsError::HeaderTruncated));
    let mut b = vec![1, 0, 0, 0, 2];
    b.extend([0u8; 12]);
    b.extend([1, 0, b'n']);
    assert_eq!(parse_tree_entries(&b), Err(TreeRefsError::OidTruncated));
    b.extend([7u8; 32]);
    assert_eq!(parse_tree_entries(&b), Ok(vec![(EntryKind::Tree, [7u8; 32])]));
    b[4] = 3;
    assert_eq!(parse_tree_entries(&b), Ok(vec![(EntryKind::File, [7u8; 32])]));
}

#[test]
fn pushing_step_by_step() {
    let mut s = ObjectStore::new();
    let a = commit(&mut s, vec![], &[("x", b"1")]);
    let mut refs = RefStore::new();
    refs.set_ref("refs/heads/main".to_string(), hash_to_hex(&a));
    let o = PushOptions { verbose: true, ..Default::default() };
    let none = start_push(false, &config(), &refs, "repo", "origin", "main", o);
    assert_eq!(none.unwrap_err(), PushError::NotARepository);
    let lost = start_push(true, &config(), &refs, "repo", "origin", "other", o);
    assert!(matches!(lost, Err(PushError::LocalRef(_))));
    let start = start_push(true, &config(), &refs, "repo", "origin", "main", o).unwrap();
    assert_eq!(start.lines[0], "Pushing refs/heads/main to origin at https://h");
    assert_eq!(start.lines[1], "  old_target = <none>");
    assert_eq!(start.announcement.len(), 2);
    let dry = PushOptions { dry_run: true, ..o };
    match prepare_push(&s, &start, None, "repo", "origin", "main", dry).unwrap() {
        PushStep::Stop(line) => assert_eq!(line, "(dry run) Would push from origin to main"),
        _ => panic!("sent on a dry run"),
    }
    match prepare_push(&s, &start, Some(a), "repo", "origin", "main", o).unwrap() {
        PushStep::Stop(line) => assert_eq!(line, "Everything up to date."),
        _ => panic!("sent what is there"),
    }
    match prepare_push(&s, &start, None, "repo", "origin", "main", o).unwrap() {
        PushStep::Send(lines, ms) => {
            assert_eq!(lines, vec!["Sending 3 objects...".to_string()]);
            assert_eq!(ms.len(), 6);
            assert!(matches!(ms[0], RpcMessage::Hello(_)));
            assert!(matches!(ms[2], RpcMessage::PushObject(_)));
            assert!(matches!(ms[5], RpcMessage::PushDone));
        }
        _ => panic!("not sent"),
    }
    let failed = finish_push(&mut refs, &start, RpcMessage::PushAck(3), false, "origin", "main");
    assert_eq!(failed, Err(PushError::Unexpected));
    let error = RpcMessage::Error(5, "no".to_string());
    let refused = finish_push(&mut refs, &start, error, true, "origin", "main");
    assert_eq!(refused, Err(PushError::Server(5, "no".to_string())));
    assert!(read_remote_tracking(&refs, "origin", "main").is_err());
    let done = finish_push(&mut refs, &start, RpcMessage::PushAck(3), true, "origin", "main");
    assert_eq!(done, Ok("Pushed 3 objects to origin/main".to_string()));
    assert_eq!(read_remote_tracking(&refs, "origin", "main"), Ok(a));
}

#[test]
fn handshakes() {
    let ms = handshake_request("r", "refs/heads/x", [1u8; 32], None);
    match &ms[1] {
        RpcMessage::PushRequest(p) => {
            assert_eq!(p.old_target, [0u8; 32]);
            assert_eq!(p.new_target, [1u8; 32]);
        }
        _ => panic!("no request"),
    }
    let h = handshake_reply(RpcMessage::PushResponse(Some([2u8; 32]))).unwrap();
    assert_eq!(h.remote_head, Some([2u8; 32]));
    assert!(h.line.ends_with(&hash_to_hex(&[2u8; 32])));
    let none = handshake_reply(RpcMessage::PushResponse(None)).unwrap();
    assert!(none.line.ends_with(&"0".repeat(64)));
    let e = handshake_reply(RpcMessage::Error(1, "x".to_string())).unwrap_err();
    assert_eq!(e, HandshakeError::Remote(1, "x".to_string()));
    assert_eq!(handshake_reply(RpcMessage::PushDone).unwrap_err(), HandshakeError::Unexpected);
}

fn ack(head: [u8; 32], sent: u64, up_to_date: bool) -> RpcMessage {
    RpcMessage::PullAck(PullAck { sent_objects: sent, new_remote_head: head, up_to_date })
}

fn pull(ms: Vec<RpcMessage>) -> (ObjectStore, RefStore, Result<Vec<String>, PullError>) {
    let mut s = ObjectStore::new();
    let mut refs = RefStore::new();
    let o = PullOptions { verbose: false, dry_run: false };
    let mut lines = vec![];
    let r =
        finish_pull(&mut s, &mut refs, &ms, "refs/heads/main", "origin", "main", o, &mut lines);
    (s, refs, r.map(|_| lines))
}

#[test]
fn pulling_stores_objects_and_moves_references() {
    let (s, refs, r) = pull(vec![
        RpcMessage::PullObject(object(ObjectType::Blob, b"x")),
        RpcMessage::PullDone,
        ack([6u8; 32], 1, false),
    ]);
    assert_eq!(
        r.unwrap(),
        vec![
            "Pulled 1 objects from origin/main".to_string(),
            "Updated refs/heads/main -> 06060606".to_string(),
        ]
    );
    assert!(s.has_object(ObjectType::Blob, &hash_bytes(b"x")));
    assert_eq!(refs.get_ref("refs/heads/main"), refs.get_ref("refs/remotes/origin/main"));
}

#[test]
fn pulled_commits_are_those_that_were_pushed() {
    let mut s = ObjectStore::new();
    let a = commit(&mut s, vec![], &[("x", b"1"), ("d/y", b"2")]);
    let b = commit(&mut s, vec![a], &[("x", b"1"), ("d/y", b"3"), ("d/e/z", b"4")]);
    let mut ms: Vec<RpcMessage> = compute_objects_to_push(&s, &b, None)
        .unwrap()
        .into_iter()
        .map(RpcMessage::PullObject)
        .collect();
    let n = ms.len() as u64;
    ms.push(RpcMessage::PullDone);
    ms.push(ack(b, n, false));
    let (pulled, _, r) = pull(ms);
    assert!(r.is_ok());
    for h in [a, b] {
        let c = read_commit(&pulled, &h).unwrap();
        assert_eq!(c.tree_hash, read_commit(&s, &h).unwrap().tree_hash);
        let files = collect_all_files(&pulled, &c.tree_hash).unwrap();
        let before = collect_all_files(&s, &c.tree_hash).unwrap();
        assert_eq!(files.items, before.items);
        for (_, oid) in files.items {
            assert_eq!(
                pulled.read_object(ObjectType::Blob, &oid),
                s.read_object(ObjectType::Blob, &oid)
            );
        }
    }
}

#[test]
fn pulls_that_bring_nothing() {
    assert_eq!(pull(vec![ack([6u8; 32], 1, true)]).2.unwrap(), vec!["Already up to date."]);
    assert_eq!(
        pull(vec![ack([6u8; 32], 0, false)]).2.unwrap(),
        vec!["Remote branch main has no commits."]
    );
    assert_eq!(pull(vec![ack([6u8; 32], 1, false)]).2, Err(PullError::EarlyAck));
    assert_eq!(pull(vec![]).2, Err(PullError::Unreadable));
    assert_eq!(pull(vec![RpcMessage::PushDone]).2, Err(PullError::Unexpected));
    assert_eq!(
        pull(vec![RpcMessage::Error(2, "e".to_string())]).2,
        Err(PullError::Server(2, "e".to_string()))
    );
    let mut wrong = object(ObjectType::Blob, b"x");
    wrong.hash = [1u8; 32];
    let (s, _, r) = pull(vec![RpcMessage::PullObject(wrong)]);
    assert_eq!(r, Err(PullError::HashMismatch([1u8; 32], hash_bytes(b"x"))));
    assert!(s.objects.is_empty());
    let (s, refs, r) = pull(vec![
        RpcMessage::PullObject(object(ObjectType::Blob, b"x")),
        RpcMessage::PullDone,
    ]);
    assert_eq!(r, Err(PullError::Unreadable));
    assert_eq!(s.objects.len(), 1);
    assert!(refs.refs.items.is_empty());
}

#[test]
fn pulling_talks_where_it_is_asked_to() {
    let mut s = ObjectStore::new();
    let mut refs = RefStore::new();
    let mut ms: Vec<RpcMessage> = (0..100u32)
        .map(|i| RpcMessage::PullObject(object(ObjectType::Blob, &i.to_le_bytes())))
        .collect();
    ms.push(RpcMessage::PullDone);
    ms.push(ack([6u8; 32], 100, false));
    let o = PullOptions { verbose: true, dry_run: false };
    let mut lines = vec![];
    finish_pull(&mut s, &mut refs, &ms, "refs/heads/main", "origin", "main", o, &mut lines)
        .unwrap();
    assert_eq!(lines[0], "  Received 100 objects...");
    assert_eq!(lines[1], "Received PullDone");
    assert_eq!(lines[2], "Writing 100 objects to store...");
    assert!(lines[3].starts_with("PullAck: 100 objects, new head: 0606"));
    assert_eq!(lines.len(), 6);
    let start = start_pull(true, &config(), &refs, "repo", "origin", "main", o).unwrap();
    assert!(start.lines[1].ends_with(&hash_to_hex(&[6u8; 32])));
    assert!(start.request.is_some());
    let dry = PullOptions { verbose: false, dry_run: true };
    let start = start_pull(true, &config(), &refs, "repo", "origin", "main", dry).unwrap();
    assert_eq!(start.lines, vec!["(dry run) Would pull from origin/main".to_string()]);
    assert!(start.request.is_none());
    assert!(start_pull(false, &config(), &refs, "r", "o", "b", o).is_err());
    ms.truncate(101);
    let mut lines = vec![];
    let cut =
        finish_pull(&mut s, &mut refs, &ms, "refs/heads/main", "origin", "main", o, &mut lines);
    assert_eq!(cut, Err(PullError::Unreadable));
    assert_eq!(lines.len(), 3);
    ms[100] = RpcMessage::Error(1, "e".to_string());
    let mut lines = vec![];
    let refused =
        finish_pull(&mut s, &mut refs, &ms, "refs/heads/main", "origin", "main", o, &mut lines);
    assert_eq!(refused, Err(PullError::Server(1, "e".to_string())));
    assert_eq!(lines, vec!["  Received 100 objects...".to_string()]);
}

#[test]
fn fetching_keeps_what_came_before_a_fault() {
    let mut s = ObjectStore::new();
    let mut refs = RefStore::new();
    let ms = vec![
        RpcMessage::PullObject(object(ObjectType::Blob, b"x")),
        RpcMessage::PullDone,
        ack([6u8; 32], 1, false),
    ];
    assert_eq!(
        finish_fetch(&mut s, &mut refs, &ms, false, "o", "b"),
        Err(FetchError::Http)
    );
    let line = finish_fetch(&mut s, &mut refs, &ms, true, "o", "b").unwrap();
    assert_eq!(
        line,
        format!("Fetched 1 objects; updated remotes/o/b -> {}", hash_to_hex(&[6u8; 32]))
    );
    let cut = vec![RpcMessage::PullObject(object(ObjectType::Tree, b"y"))];
    assert_eq!(
        finish_fetch(&mut s, &mut refs, &cut, true, "o", "b"),
        Err(FetchError::Unreadable)
    );
    assert!(s.has_object(ObjectType::Tree, &hash_bytes(b"y")));
    assert_eq!(
        object_path(ObjectType::Tree, &[1u8; 32]),
        format!(".helix/objects/trees/{}", hash_to_hex(&[1u8; 32]))
    );
}

#[test]
fn everything_there_is() {
    let f = |n: u8| ObjectFile { name: hash_to_hex(&[n; 32]), data: vec![n] };
    let all = compute_push_frontier(vec![f(1)], vec![f(2)], vec![f(3), f(4)]).unwrap();
    let kinds: Vec<ObjectType> = all.iter().map(|o| o.kind).collect();
    assert_eq!(
        kinds,
        vec![ObjectType::Commit, ObjectType::Tree, ObjectType::Blob, ObjectType::Blob]
    );
    let bad = ObjectFile { name: "q".to_string(), data: vec![] };
    assert!(compute_push_frontier(vec![bad], vec![], vec![]).is_err());
    assert_eq!(convert_hex_to_hash32(&convert_hash32_to_hex32(&[5u8; 32])), Ok([5u8; 32]));
}

#[test]
fn configurations() {
    let none = RepoConfig::default;
    let c = Config::load(none(), None, "model-a");
    assert_eq!(c.model, "model-a");
    assert_eq!(c.api_key, None);
    assert_eq!(c.message_level, MessageLevel::Normal);
    let g = GlobalConfig {
        model: Some("m".to_string()),
        api_base: None,
        api_key: Some("k".to_string()),
        message_level: MessageLevel::Quiet,
    };
    let c = Config::load(none(), Some(g), "model-a");
    assert_eq!(c.model, "m");
    assert_eq!(c.api_base, Config::load(none(), None, "").api_base);
    assert_eq!(c.api_key, Some("k".to_string()));
    assert_eq!(c.message_level, MessageLevel::Quiet);
    assert!(RepoConfig::default().ignore.is_none());
    let g = GlobalConfig {
        model: Some("g".to_string()),
        api_base: Some("https://g".to_string()),
        api_key: Some("k".to_string()),
        message_level: MessageLevel::Quiet,
    };
    let repo = RepoConfig {
        ignore: None,
        model: Some("r".to_string()),
        api_base: None,
        api_key: None,
        message_level: Some(MessageLevel::Verbose),
    };
    let c = Config::load(repo, Some(g), "model-a");
    assert_eq!(c.model, "r");
    assert_eq!(c.api_base, "https://g");
    assert_eq!(c.api_key, Some("k".to_string()));
    assert_eq!(c.message_level, MessageLevel::Verbose);
    assert_eq!(MessageLevel::default(), MessageLevel::Normal);
}

#[test]
fn exchanges_that_fail_say_why() {
    let push = |e: PushError| e.message();
    let pull = |e: PullError| e.message();
    let text = |s: &str| Some(s.to_string());
    assert_eq!(push(PushError::NotARepository), text("Not a Helix repo (no .helix directory)"));
    assert_eq!(push(PushError::Server(5, "no".to_string())), text("Remote error 5: no"));
    let refs = RefStore::new();
    let lost =
        start_push(true, &config(), &refs, "repo", "origin", "x", PushOptions::default());
    assert_eq!(push(lost.unwrap_err()), text("Failed to read local branch head"));
    let none = start_push(true, &None, &refs, "repo", "origin", "x", PushOptions::default());
    assert_eq!(
        push(none.unwrap_err()),
        text("Missing helix.toml in repo root. Run `helix init` to initialize a repo")
    );
    assert_eq!(push(PushError::Unexpected), None);
    assert_eq!(pull(PullError::NotARepository), text("Not a Helix repo (no .helix directory)"));
    assert_eq!(pull(PullError::EarlyAck), text("Unexpected PullAck before PullDone"));
    assert_eq!(pull(PullError::Server(2, "e".to_string())), text("Server error: 2 - e"));
    assert_eq!(
        pull(PullError::HashMismatch([0xab; 32], [1; 32])),
        Some(format!("Hash mismatch: expected {}, got {}", "ab".repeat(32), "01".repeat(32)))
    );
    assert_eq!(pull(PullError::Unreadable), None);
    assert_eq!(
        HandshakeError::Remote(1, "x".to_string()).message(),
        "Remote error 1 during handshake: x"
    );
    assert_eq!(HandshakeError::Unexpected.message(), "Unexpected response during handshake");
}
