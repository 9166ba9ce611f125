//! The index file and staging.
use helix::hash::{checksum_bytes, hash_bytes};
use helix::helix_index::api::{load_plan, DirtyPath, HelixIndexData, LoadPlan, VerifyResult};
use helix::helix_index::format::{Entry, EntryFlags, Header};
use helix::helix_index::reader::{HelixIndex, IndexError, Reader};
use helix::ignore::IgnoreRules;

fn rules() -> IgnoreRules {
    IgnoreRules::load(&vec![], &vec![], &vec![])
}

fn flags(bits: u32) -> EntryFlags {
    EntryFlags::from_bits_retain(bits)
}

fn entry(path: &str, bits: u32) -> Entry {
    let mut e = Entry::new(path.to_string(), 100, 1234567890, [0u8; 32], 0o100644);
    e.flags = flags(bits);
    e
}

fn index(entries: Vec<Entry>) -> HelixIndexData {
    let header = Header::new(1, entries.len() as u32, 10);
    HelixIndexData { repo_path: "/repo".to_string(), data: HelixIndex { header, entries } }
}

fn file(entries: Vec<Entry>) -> Vec<u8> {
    let header = Header::new(1, entries.len() as u32, 10);
    HelixIndex { header, entries }.to_bytes().unwrap()
}

#[test]
fn test_parallel_filtering() {
    let entries: Vec<Entry> = (0..1000)
        .map(|i| {
            let bits = if i % 3 == 0 {
                EntryFlags::TRACKED | EntryFlags::STAGED
            } else if i % 3 == 1 {
                EntryFlags::TRACKED | EntryFlags::MODIFIED
            } else {
                EntryFlags::UNTRACKED
            };
            entry(&format!("file{}.txt", i), bits)
        })
        .collect();
    let bytes = file(entries);
    let cached = Reader::new("/repo").read_cached(Some(&bytes)).unwrap();

    assert_eq!(cached.staged_files().len(), 334);
    assert_eq!(cached.modified_files().len(), 333);
    assert_eq!(cached.untracked_files().len(), 333);
}

#[test]
fn test_parallel_count() {
    let entries: Vec<Entry> = (0..100)
        .map(|i| {
            let mut e = entry(&format!("file{}.txt", i), EntryFlags::TRACKED);
            e.size = i as u64;
            e
        })
        .collect();
    let bytes = file(entries);
    let cached = Reader::new("/repo").read_cached(Some(&bytes)).unwrap();

    let large_count = cached.count_matching(|e: &Entry| e.size > 50);
    assert_eq!(large_count, 49);
}

#[test]
fn test_parallel_any() {
    let entries: Vec<Entry> = (0..10)
        .map(|i| Entry::new(format!("file{}.txt", i), 1024, 1000, [0u8; 32], 0))
        .collect();
    let bytes = file(entries);
    let cached = Reader::new("/repo").read_cached(Some(&bytes)).unwrap();

    let has_large = cached.any_matching(|e: &Entry| e.size > 50);
    assert!(has_large);
}

#[test]
fn test_get_staged() {
    let index = index(vec![entry("staged.txt", EntryFlags::TRACKED | EntryFlags::STAGED)]);
    let staged = index.get_staged();

    assert_eq!(staged.len(), 1);
    assert!(staged.contains(&"staged.txt".to_string()));
}

#[test]
fn test_reload() {
    let mut index = index(vec![entry("file1.txt", EntryFlags::TRACKED)]);
    assert_eq!(index.entries().len(), 1);
    assert_eq!(index.generation(), 1);

    let two = HelixIndex {
        header: Header::new(2, 2, 11),
        entries: vec![
            entry("file1.txt", EntryFlags::TRACKED),
            entry("file2.txt", EntryFlags::TRACKED),
        ],
    };
    let bytes = two.to_bytes().unwrap();
    index.reload(&bytes).unwrap();

    assert_eq!(index.entries().len(), 2);
    assert_eq!(index.generation(), 2);
}

#[test]
fn test_apply_worktree_changes_tracked() {
    let mut index = index(vec![entry("tracked.txt", EntryFlags::TRACKED)]);

    let dirty = vec![DirtyPath { path: "tracked.txt".to_string(), present: true }];
    index.apply_worktree_changes(&dirty, &rules());

    let modified = index.get_modified();
    assert_eq!(modified.len(), 1);
    assert!(modified.contains(&"tracked.txt".to_string()));
}

#[test]
fn test_apply_worktree_changes_untracked() {
    let mut index = index(vec![]);

    let dirty = vec![DirtyPath { path: "untracked.txt".to_string(), present: true }];
    index.apply_worktree_changes(&dirty, &rules());

    let untracked = index.get_untracked();
    assert_eq!(untracked.len(), 1);
    assert!(untracked.contains(&"untracked.txt".to_string()));
}

#[test]
fn ignored_files_do_not_become_untracked() {
    let mut index = index(vec![entry("a.log", EntryFlags::TRACKED)]);
    let dirty = vec![
        DirtyPath { path: "a.log".to_string(), present: true },
        DirtyPath { path: "b.log".to_string(), present: true },
        DirtyPath { path: "c.txt".to_string(), present: true },
    ];
    let rules = IgnoreRules::load(&vec!["*.log".to_string()], &vec![], &vec![]);
    index.apply_worktree_changes(&dirty, &rules);
    assert_eq!(index.get_untracked(), vec!["c.txt".to_string()]);
    assert!(index.get_modified().contains(&"a.log".to_string()));
}

#[test]
fn removed_files_are_deleted_or_forgotten() {
    let mut index = index(vec![
        entry("tracked.txt", EntryFlags::TRACKED | EntryFlags::STAGED),
        entry("new.txt", EntryFlags::UNTRACKED),
    ]);
    let dirty = vec![
        DirtyPath { path: "new.txt".to_string(), present: false },
        DirtyPath { path: "tracked.txt".to_string(), present: false },
    ];
    index.apply_worktree_changes(&dirty, &rules());
    assert_eq!(index.get_deleted(), vec!["tracked.txt".to_string()]);
    assert!(index.is_staged("tracked.txt"));
    assert!(index.get_untracked().is_empty());
}

#[test]
fn test_entries_mut() {
    let mut index = index(vec![]);
    assert_eq!(index.entries_mut().len(), 0);

    let mut e = entry("test.txt", EntryFlags::TRACKED | EntryFlags::STAGED);
    e.oid = hash_bytes(b"test");
    index.entries_mut().push(e);

    assert_eq!(index.entries_mut().len(), 1);
}

#[test]
fn test_persist() {
    let mut index = index(vec![]);
    let gen1 = index.generation();

    let mut e = entry("test.txt", EntryFlags::TRACKED | EntryFlags::STAGED);
    e.oid = hash_bytes(b"test");
    index.entries_mut().push(e);

    let bytes = index.persist().unwrap();
    let data = Reader::new("/repo").read(Some(&bytes)).unwrap();

    assert_eq!(data.header.generation, gen1 + 1);
    assert_eq!(data.entries.len(), 1);
    assert_eq!(data.entries[0].path, "test.txt");
}

#[test]
fn test_persist_increments_generation() {
    let mut index = index(vec![]);
    let gen1 = index.generation();

    index.persist().unwrap();
    let gen2 = index.generation();
    assert_eq!(gen2, gen1 + 1);

    index.persist().unwrap();
    let gen3 = index.generation();
    assert_eq!(gen3, gen2 + 1);
}

#[test]
fn test_persist_updates_entry_count() {
    let mut index = index(vec![]);
    for i in 0..5 {
        let mut e = entry(&format!("file{}.txt", i), EntryFlags::TRACKED);
        e.oid = hash_bytes(format!("content{}", i).as_bytes());
        index.entries_mut().push(e);
    }

    let bytes = index.persist().unwrap();
    let data = Reader::new("/repo").read(Some(&bytes)).unwrap();

    assert_eq!(data.header.entry_count, 5);
    assert_eq!(data.entries.len(), 5);
}

#[test]
fn test_repo_path() {
    let bytes = file(vec![]);
    let index = HelixIndexData::load("/some/repo", &bytes).unwrap();
    assert_eq!(index.repo_path, "/some/repo");
}

#[test]
fn test_stage_file_not_tracked() {
    let mut index = index(vec![]);
    let result = index.stage_file("untracked.txt");

    assert!(result.is_err());
    assert!(result.unwrap_err().message().contains("not tracked"));
}

#[test]
fn test_unstage_file() {
    let mut index = index(vec![entry("test.txt", EntryFlags::TRACKED | EntryFlags::STAGED)]);
    index.unstage_file("test.txt").unwrap();

    let entry = &index.entries()[0];
    assert!(entry.flags.contains(EntryFlags::TRACKED));
    assert!(!entry.flags.contains(EntryFlags::STAGED));
}

#[test]
fn test_stage_multiple_files() {
    let mut index = index(vec![
        entry("file1.txt", EntryFlags::TRACKED),
        entry("file2.txt", EntryFlags::TRACKED),
        entry("file3.txt", EntryFlags::TRACKED),
    ]);

    index.stage_files(&vec!["file1.txt".to_string(), "file2.txt".to_string()]).unwrap();

    assert!(index.entries()[0].flags.contains(EntryFlags::STAGED));
    assert!(index.entries()[1].flags.contains(EntryFlags::STAGED));
    assert!(!index.entries()[2].flags.contains(EntryFlags::STAGED));
}

#[test]
fn test_stage_all() {
    let mut index = index(vec![
        entry("file1.txt", EntryFlags::TRACKED),
        entry("file2.txt", EntryFlags::TRACKED),
        entry("file3.txt", EntryFlags::TRACKED),
    ]);
    index.stage_all();
    for entry in index.entries() {
        assert!(entry.flags.contains(EntryFlags::STAGED));
    }
}

#[test]
fn test_unstage_all() {
    let mut index = index(vec![
        entry("file1.txt", EntryFlags::TRACKED | EntryFlags::STAGED),
        entry("file2.txt", EntryFlags::TRACKED | EntryFlags::STAGED),
    ]);
    index.unstage_all();
    for entry in index.entries() {
        assert!(entry.flags.contains(EntryFlags::TRACKED));
        assert!(!entry.flags.contains(EntryFlags::STAGED));
    }
}

#[test]
fn test_stage_already_staged() {
    let mut index = index(vec![entry("test.txt", EntryFlags::TRACKED | EntryFlags::STAGED)]);
    index.stage_file("test.txt").unwrap();
    assert!(index.entries()[0].flags.contains(EntryFlags::STAGED));
}

#[test]
fn test_unstage_not_staged() {
    let mut index = index(vec![entry("test.txt", EntryFlags::TRACKED)]);
    index.unstage_file("test.txt").unwrap();
    assert!(!index.entries()[0].flags.contains(EntryFlags::STAGED));
}

#[test]
fn missing_file_is_said_to_be_missing() {
    match Reader::new("/repo").read(None) {
        Err(IndexError::Missing(p)) => assert_eq!(p, "/repo/.helix/helix.idx"),
        _ => panic!("a file was read"),
    }
}

#[test]
fn damaged_files_are_refused() {
    let good = file(vec![entry("a", EntryFlags::TRACKED)]);
    assert!(matches!(HelixIndex::parse(&good[0..100]), Err(IndexError::TooSmall)));
    let mut wrong_magic = good.clone();
    wrong_magic[0] = 0;
    assert!(matches!(HelixIndex::parse(&wrong_magic), Err(IndexError::Header(_))));
    let mut changed = good.clone();
    changed[130] ^= 1;
    assert!(matches!(HelixIndex::parse(&changed), Err(IndexError::ChecksumMismatch)));
    let mut too_many = good.clone();
    too_many[48] = 2;
    assert!(matches!(HelixIndex::parse(&too_many), Err(IndexError::UnexpectedEnd(1))));
    let mut bad_entry = good.clone();
    bad_entry[128..130].copy_from_slice(&300u16.to_le_bytes());
    assert!(matches!(HelixIndex::parse(&bad_entry), Err(IndexError::Entry(0, _))));
}

#[test]
fn large_index_round_trip() {
    let entries: Vec<Entry> = (0..4000).map(|i| entry(&format!("f{}", i), EntryFlags::TRACKED)).collect();
    let bytes = file(entries);
    assert!(bytes.len() > 1_000_000);
    let back = HelixIndex::parse(&bytes).unwrap();
    assert_eq!(back.entries.len(), 4000);
    assert_eq!(back.entries[3999].path, "f3999");
    let n = bytes.len() - 32;
    assert_eq!(&checksum_bytes(&bytes[..n])[..], &bytes[n..]);
    let mut other = bytes;
    other[n] ^= 1;
    assert!(matches!(HelixIndex::parse(&other), Err(IndexError::ChecksumMismatch)));
}

#[test]
fn first_matching_entry_is_found() {
    let bytes = file(vec![
        entry("a", EntryFlags::TRACKED),
        entry("b", EntryFlags::STAGED),
        entry("c", EntryFlags::STAGED),
    ]);
    let c = Reader::new("/repo").read_cached(Some(&bytes)).unwrap();
    let found = c.find_entry(|e: &Entry| e.flags.contains(EntryFlags::STAGED)).unwrap();
    assert_eq!(found.path, "b");
    assert!(c.find_entry(|e: &Entry| e.path == "d").is_none());
}

#[test]
fn look_up_and_queries() {
    let bytes = file(vec![
        entry("src/a.rs", EntryFlags::TRACKED | EntryFlags::STAGED),
        entry("src/b.rs", EntryFlags::TRACKED | EntryFlags::MODIFIED),
        entry("doc/c.md", EntryFlags::TRACKED | EntryFlags::CONFLICT),
    ]);
    let r = Reader::new("/repo");
    let c = r.read_cached(Some(&bytes)).unwrap();
    assert!(c.contains("src/a.rs"));
    assert!(c.get("src/x.rs").is_none());
    assert_eq!(c.entries_in_dir("src").len(), 2);
    assert_eq!(c.collect_staged_paths(), vec!["src/a.rs".to_string()]);
    assert_eq!(c.collect_modified_paths(), vec!["src/b.rs".to_string()]);
    assert_eq!(c.conflict_files().len(), 1);
    assert_eq!(c.tracked_files().len(), 3);
    assert_eq!(c.header().entry_count, 3);
    assert!(c.find_entry(|e: &Entry| e.path == "doc/c.md").is_some());
    assert_eq!(r.entry_count(&bytes).unwrap(), 3);
    assert_eq!(r.generation(&bytes).unwrap(), 1);
    assert_eq!(r.read_header(&bytes).unwrap().entry_count, 3);
    assert_eq!(c.into_data().entries.len(), 3);
}

#[test]
fn load_plans() {
    assert_eq!(load_plan(VerifyResult::Valid), LoadPlan::Read);
    assert!(matches!(load_plan(VerifyResult::Missing), LoadPlan::Rebuild(_)));
    assert!(matches!(load_plan(VerifyResult::Corrupted), LoadPlan::Rebuild(_)));
    assert!(matches!(load_plan(VerifyResult::WrongRepo), LoadPlan::Rebuild(_)));
}

#[test]
fn queries_by_flags() {
    let i = index(vec![
        entry("a", EntryFlags::TRACKED | EntryFlags::MODIFIED),
        entry("b", EntryFlags::TRACKED | EntryFlags::DELETED),
        entry("c", EntryFlags::UNTRACKED),
        entry("d", EntryFlags::TRACKED | EntryFlags::MODIFIED | EntryFlags::STAGED),
    ]);
    assert_eq!(i.get_unstaged(), vec!["a".to_string()]);
    assert_eq!(i.get_deleted(), vec!["b".to_string()]);
    assert_eq!(i.get_untracked(), vec!["c".to_string()]);
    assert_eq!(i.get_files_to_add(), vec!["a".to_string(), "b".to_string(), "c".to_string()]);
    assert_eq!(i.get_tracked().len(), 3);
    assert!(i.is_tracked("a"));
    assert!(!i.is_tracked("c"));
}

#[test]
fn unstaging_undoes_staging_of_one_file() {
    let mut i = index(vec![entry("a", EntryFlags::TRACKED), entry("b", EntryFlags::TRACKED)]);
    i.stage_file("a").unwrap();
    assert!(i.is_staged("a") && !i.is_staged("b"));
    i.unstage_file("a").unwrap();
    assert_eq!(i.entries()[0].flags.bits(), EntryFlags::TRACKED);
    assert!(i.unstage_files(&vec!["nope".to_string()]).is_err());
}

#[test]
fn a_footer_may_lie_in_the_reserve_of_the_last_entry() {
    let whole = file(vec![entry("a", EntryFlags::TRACKED)]);
    let mut short = whole[..128 + 264].to_vec();
    short.extend(checksum_bytes(&whole[..128 + 264]));
    assert_eq!(HelixIndex::parse(&short).unwrap().entries[0].path, "a");
    for i in 128 + 264..short.len() {
        let mut other = short.clone();
        other[i] ^= 1;
        assert!(matches!(HelixIndex::parse(&other), Err(IndexError::ChecksumMismatch)));
    }
}

#[test]
fn paths_are_the_same_by_their_components() {
    let mut i = index(vec![
        entry("a/b", EntryFlags::TRACKED),
        entry("a//b", EntryFlags::TRACKED | EntryFlags::STAGED),
        entry("c", EntryFlags::TRACKED),
    ]);
    assert!(i.is_tracked("a/./b/") && i.is_staged("a/b") && !i.is_tracked("./c"));
    assert_eq!(i.get_tracked(), vec!["a/b".to_string(), "c".to_string()]);
    assert_eq!(i.get_staged(), vec!["a//b".to_string()]);
    i.stage_file("c//").unwrap();
    assert!(i.entries()[2].flags.contains(EntryFlags::STAGED));
    i.unstage_file("c/.").unwrap();
    assert!(!i.entries()[2].flags.contains(EntryFlags::STAGED));
    assert!(i.stage_file("/c").is_err());
}
