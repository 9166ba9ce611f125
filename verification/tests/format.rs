//! Headers, entries and footers of the index file.
use helix::hash::hash_bytes;
use helix::helix_index::format::{
    Entry, EntryFlags, FileStat, Footer, FormatError, Header, MAGIC, VERSION,
};

fn flags(bits: u32) -> EntryFlags {
    EntryFlags::from_bits_retain(bits)
}

#[test]
fn test_header_serialization() {
    let header = Header::new(1, 10, 1_700_000_000);

    let bytes = header.to_bytes();
    assert_eq!(bytes.len(), Header::HEADER_SIZE);

    let parsed = Header::from_bytes(&bytes).unwrap();
    assert_eq!(parsed.magic, header.magic);
    assert_eq!(parsed.version, header.version);
    assert_eq!(parsed.generation, header.generation);
    assert_eq!(parsed.entry_count, header.entry_count);
}

#[test]
fn test_header_magic_validation() {
    let mut bytes = vec![0u8; Header::HEADER_SIZE];
    bytes[0..6].copy_from_slice(b"WRONG!");

    let result = Header::from_bytes(&bytes);
    assert!(result.is_err());
    match result.unwrap_err() {
        FormatError::InvalidMagic(_) => {}
        other => panic!("Expected InvalidMagic FormatError Type, got {:?}", other),
    }
}

#[test]
fn test_entry_serialization() {
    let oid = hash_bytes(b"test content");
    let entry = Entry::new("src/main.rs".to_string(), 1024, 1234567890, oid, 0o100644);

    let bytes = entry.to_bytes().unwrap();
    assert_eq!(bytes.len(), Entry::ENTRY_MAX_SIZE);

    let parsed = Entry::from_bytes(&bytes).unwrap();
    assert_eq!(parsed.path, entry.path);
    assert_eq!(parsed.size, entry.size);
    assert_eq!(parsed.mtime_sec, entry.mtime_sec);
    assert_eq!(parsed.oid, entry.oid);
    assert_eq!(parsed.file_mode, entry.file_mode);
}

#[test]
fn test_entry_path_too_long() {
    let long_path = "a".repeat(Entry::ENTRY_MAX_PATH_LEN + 1);
    let oid = hash_bytes(b"test");
    let entry = Entry::new(long_path, 1024, 1234567890, oid, 0o100644);

    let result = entry.to_bytes();
    assert!(result.is_err());
    match result.unwrap_err() {
        FormatError::PathLengthLongerThanMaxSize(_) => {}
        other => panic!("Path too long, got {:?}", other),
    }
}

#[test]
fn test_entry_flags() {
    let mut f = flags(EntryFlags::TRACKED);
    assert!(f.contains(EntryFlags::TRACKED));
    assert!(!f.contains(EntryFlags::STAGED));

    f.insert(EntryFlags::STAGED);
    assert!(f.contains(EntryFlags::TRACKED | EntryFlags::STAGED));

    f.remove(EntryFlags::TRACKED);
    assert!(!f.contains(EntryFlags::TRACKED));
    assert!(f.contains(EntryFlags::STAGED));
}

#[test]
fn test_entry_is_clean() {
    let clean = flags(EntryFlags::TRACKED);
    assert!(clean.is_clean());

    let modified = flags(EntryFlags::TRACKED | EntryFlags::MODIFIED);
    assert!(!modified.is_clean());

    let deleted = flags(EntryFlags::TRACKED | EntryFlags::DELETED);
    assert!(!deleted.is_clean());
}

#[test]
fn test_entry_needs_attention() {
    let clean = flags(EntryFlags::TRACKED);
    assert!(!clean.needs_attention());

    let modified = flags(EntryFlags::TRACKED | EntryFlags::MODIFIED);
    assert!(modified.needs_attention());

    let deleted = flags(EntryFlags::TRACKED | EntryFlags::DELETED);
    assert!(deleted.needs_attention());

    let conflict = flags(EntryFlags::TRACKED | EntryFlags::CONFLICT);
    assert!(conflict.needs_attention());
}

#[test]
fn test_oid_size() {
    let oid = hash_bytes(b"test");
    assert_eq!(oid.len(), 32, "OID should be 32 bytes for BLAKE3");
}

#[test]
fn test_entry_roundtrip_with_blake3() {
    let content = b"hello world from helix";
    let oid = hash_bytes(content);

    let entry = Entry::new(
        "test.txt".to_string(),
        content.len() as u64,
        1234567890,
        oid,
        0o100644,
    );

    let bytes = entry.to_bytes().unwrap();
    let parsed = Entry::from_bytes(&bytes).unwrap();

    assert_eq!(parsed.oid, oid);
    assert_eq!(parsed.oid.len(), 32);
}

#[test]
fn test_entry_max_path() {
    let max_path = "a".repeat(Entry::ENTRY_MAX_PATH_LEN);
    let oid = hash_bytes(b"test");

    let entry = Entry::new(max_path, 1024, 1234567890, oid, 0o100644);

    let bytes = entry.to_bytes().unwrap();
    let parsed = Entry::from_bytes(&bytes).unwrap();

    assert_eq!(parsed.path.len(), Entry::ENTRY_MAX_PATH_LEN);
}

#[test]
fn test_header_constants() {
    assert_eq!(MAGIC, *b"HLIX");
    assert_eq!(VERSION, 2, "Version should be 2 for BLAKE3 format");
    assert_eq!(Header::HEADER_SIZE, 128);
}

#[test]
fn test_multiple_entries_roundtrip() {
    let entries = vec![
        Entry::new("file1.txt".to_string(), 100, 111, hash_bytes(b"1"), 0o100644),
        Entry::new("file2.txt".to_string(), 200, 222, hash_bytes(b"2"), 0o100644),
        Entry::new("file3.txt".to_string(), 300, 333, hash_bytes(b"3"), 0o100755),
    ];

    for entry in &entries {
        let bytes = entry.to_bytes().unwrap();
        let parsed = Entry::from_bytes(&bytes).unwrap();
        assert_eq!(&parsed, entry);
    }
}

#[test]
fn header_of_another_version_is_refused() {
    let mut bytes = Header::new(1, 0, 5).to_bytes();
    bytes[4..8].copy_from_slice(&999u32.to_le_bytes());
    match Header::from_bytes(&bytes) {
        Err(FormatError::UnsupportedVersion(v)) => assert_eq!(v, 999),
        other => panic!("got {:?}", other),
    }
}

#[test]
fn short_header_is_refused() {
    let bytes = vec![0u8; 10];
    match Header::from_bytes(&bytes) {
        Err(FormatError::InvalidHeader(_)) => {}
        other => panic!("got {:?}", other),
    }
}

#[test]
fn header_bytes_are_laid_out_in_order() {
    let mut header = Header::new(7, 3, 100);
    header.created_at = 9;
    let b = header.to_bytes();
    assert_eq!(&b[0..4], b"HLIX");
    assert_eq!(&b[4..8], &2u32.to_le_bytes());
    assert_eq!(&b[8..16], &7u64.to_le_bytes());
    assert_eq!(&b[16..48], &[0u8; 32]);
    assert_eq!(&b[48..52], &3u32.to_le_bytes());
}

#[test]
fn first_generation_marks_its_creation() {
    assert_eq!(Header::new(1, 0, 55).created_at, 55);
    assert_eq!(Header::new(2, 0, 55).created_at, 0);
    assert_eq!(Header::new(2, 0, 55).last_modified, 55);
}

#[test]
fn entry_path_must_be_utf8() {
    let entry = Entry::new("abc".to_string(), 1, 2, [1u8; 32], 0o100644);
    let mut bytes = entry.to_bytes().unwrap();
    bytes[2] = 0xff;
    match Entry::from_bytes(&bytes) {
        Err(FormatError::InvalidPathEncoding(path)) => assert_eq!(path, vec![0xff, b'b', b'c']),
        other => panic!("got {:?}", other),
    }
}

#[test]
fn entry_with_a_long_path_length_is_refused() {
    let entry = Entry::new("abc".to_string(), 1, 2, [1u8; 32], 0o100644);
    let mut bytes = entry.to_bytes().unwrap();
    bytes[0..2].copy_from_slice(&300u16.to_le_bytes());
    match Entry::from_bytes(&bytes) {
        Err(FormatError::PathLengthTooLong(_)) => {}
        other => panic!("got {:?}", other),
    }
}

#[test]
fn entry_of_a_blob_takes_what_the_file_system_says() {
    let stat = FileStat { len: 12, mtime: Some(77), permissions: 0o755 };
    let e = Entry::from_blob("run.sh".to_string(), [3u8; 32], Some(stat));
    assert_eq!(e.size, 12);
    assert_eq!(e.mtime_sec, 77);
    assert_eq!(e.file_mode, 0o100755);
    assert_eq!(e.flags.bits(), EntryFlags::TRACKED);
    let missing = Entry::from_blob("x".to_string(), [3u8; 32], None);
    assert_eq!(missing.size, 0);
    assert_eq!(missing.file_mode, 0o100644);
}

#[test]
fn flags_are_taken_only_where_they_exist() {
    assert!(EntryFlags::from_bits(EntryFlags::TRACKED | EntryFlags::SYMLINK).is_some());
    assert!(EntryFlags::from_bits(0x8000_0000).is_none());
    assert!(flags(EntryFlags::STAGED).intersects(EntryFlags::STAGED | EntryFlags::DELETED));
    assert_eq!(EntryFlags::empty().bits(), 0);
}

#[test]
fn footer_round_trip() {
    let f = Footer::new([9u8; 32]);
    let b = f.to_bytes();
    assert_eq!(Footer::from_bytes(&b).unwrap().checksum, [9u8; 32]);
    assert!(Footer::from_bytes(&b[0..31]).is_err());
}

#[test]
fn format_errors_in_words() {
    let words = |e: FormatError| e.message();
    assert_eq!(words(FormatError::InvalidMagic([1, 20, 0, 255])), "Invalid magic bytes: [1, 20, 0, 255]");
    assert_eq!(words(FormatError::UnsupportedVersion(9)), "Unsupported version: 9");
    assert_eq!(words(FormatError::InvalidHeader("x".to_string())), "Invalid header: x");
    assert_eq!(words(FormatError::InvalidEntry("x".to_string())), "Invalid entry: x");
    assert_eq!(words(FormatError::InvalidFooter("x".to_string())), "Invalid footer: x");
    assert_eq!(words(FormatError::ChecksumMismatch), "Checksum mismatch");
    assert_eq!(
        words(FormatError::PathLengthLongerThanMaxSize(201)),
        "Path length exceeds max size: 201"
    );
    assert_eq!(words(FormatError::PathLengthTooLong(7)), "Path length too long: 7");
    let e = std::str::from_utf8(&[255u8]).unwrap_err();
    let text = e.to_string();
    assert_eq!(
        words(FormatError::InvalidPathEncoding(vec![255u8])),
        format!("Path is not encoded correctly: {}", text)
    );
}

#[test]
fn paths_of_entries_take_two_hundred_bytes() {
    assert_eq!(Entry::ENTRY_MAX_PATH_LEN, 200);
    assert_eq!(Entry::ENTRY_MAX_SIZE, 296);
}
