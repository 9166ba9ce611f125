//! Showing changes.
use helix::add_command::{add, AddOptions, WorkFile};
use helix::commit_command::{commit, CommitOptions, UserConfig};
use helix::diff_command::{
    diff, diff_header, diff_stat, get_head_tree_files, path_matches, read_blob_as_string,
    show_stat, DiffError, DiffOptions, FileChanges,
};
use helix::helix_index::api::HelixIndexData;
use helix::helix_index::format::Header;
use helix::helix_index::reader::HelixIndex;
use helix::ignore::IgnoreRules;
use helix::line_diff::{
    compute_stat, count_changes, create_stat_bar, show_groups, unified_diff, ChangeTag, LineChange,
};
use helix::object_store::{ObjectStore, ObjectType};
use helix::refs::RefStore;

struct Repo {
    store: ObjectStore,
    refs: RefStore,
    index: HelixIndexData,
    files: Vec<WorkFile>,
}

fn init() -> Repo {
    let mut refs = RefStore::new();
    refs.set_head("ref: refs/heads/main\n".to_string());
    Repo {
        store: ObjectStore::new(),
        refs,
        index: HelixIndexData {
            repo_path: "/repo".to_string(),
            data: HelixIndex { header: Header::new(1, 0, 1), entries: vec![] },
        },
        files: vec![],
    }
}

fn plain() -> DiffOptions {
    DiffOptions { no_color: true, ..Default::default() }
}

fn staged() -> DiffOptions {
    DiffOptions { staged: true, ..plain() }
}

impl Repo {
    fn write(&mut self, path: &str, content: &str) {
        self.remove(path);
        self.files.push(WorkFile {
            path: path.to_string(),
            content: content.as_bytes().to_vec(),
            mtime: Some(content.bytes().map(|b| b as u64).sum()),
            permissions: 0o644,
        });
    }

    fn remove(&mut self, path: &str) {
        self.files.retain(|f| f.path != path);
    }

    fn add(&mut self, path: &str) {
        let rules = IgnoreRules::load(&vec![], &vec![], &vec![]);
        add(
            &mut self.index,
            &mut self.store,
            &self.files,
            &rules,
            &vec![path.to_string()],
            AddOptions::default(),
            "index",
            &mut vec![],
        )
        .unwrap();
    }

    fn commit(&mut self) {
        let mut native = false;
        let user = Ok(UserConfig { name: None, email: None });
        commit(
            &mut self.store,
            &mut self.refs,
            &mut self.index,
            &mut native,
            &CommitOptions {
                message: "Initial commit".to_string(),
                author: Some("Test <test@test.com>".to_string()),
                allow_empty: false,
                amend: false,
                verbose: false,
            },
            &user,
            &UserConfig { name: None, email: None },
            7,
            &mut vec![],
        )
        .unwrap();
    }

    fn diff(&self, paths: &[&str], options: DiffOptions) -> String {
        let paths: Vec<String> = paths.iter().map(|s| s.to_string()).collect();
        diff(&self.index, &self.store, &self.refs, &self.files, &paths, &options).unwrap()
    }

    fn stat(&self, options: DiffOptions) -> String {
        diff_stat(&self.index, &self.store, &self.refs, &self.files, &vec![], &options).unwrap()
    }
}

#[test]
fn test_diff_no_changes() {
    let mut r = init();
    r.write("test.txt", "hello world\n");
    r.add("test.txt");
    let out = r.diff(&[], DiffOptions { verbose: true, ..Default::default() });
    assert_eq!(out, "No unstaged changes\n");
}

#[test]
fn test_diff_modified_file() {
    let mut r = init();
    r.write("test.txt", "hello world\n");
    r.add("test.txt");
    r.write("test.txt", "hello modified\n");
    assert_eq!(
        r.diff(&[], plain()),
        "diff --helix a/test.txt b/test.txt\nmodified mode 100644\n--- a/test.txt\n+++ b/test.txt\n-hello world\n+hello modified\n"
    );
}

#[test]
fn test_diff_staged() {
    let mut r = init();
    r.write("test.txt", "hello world\n");
    r.add("test.txt");
    let out = r.diff(&[], staged());
    assert!(out.contains("new file mode 100644"));
    assert!(out.ends_with("+hello world\n"));
}

#[test]
fn test_diff_with_path_filter() {
    let mut r = init();
    r.write("file1.txt", "content 1\n");
    r.write("file2.txt", "content 2\n");
    r.add(".");
    r.write("file1.txt", "modified 1\n");
    r.write("file2.txt", "modified 2\n");
    let out = r.diff(&["file1.txt"], plain());
    assert!(out.contains("file1.txt") && !out.contains("file2.txt"));
}

#[test]
fn test_diff_deleted_file() {
    let mut r = init();
    r.write("to_delete.txt", "this will be deleted\n");
    r.add("to_delete.txt");
    r.remove("to_delete.txt");
    let out = r.diff(&[], plain());
    assert!(out.contains("deleted mode 100644"));
    assert!(out.ends_with("-this will be deleted\n"));
}

#[test]
fn test_diff_multiple_deleted_files() {
    let mut r = init();
    r.write("file1.txt", "content 1\n");
    r.write("file2.txt", "content 2\n");
    r.write("file3.txt", "content 3\n");
    r.add(".");
    r.remove("file1.txt");
    r.remove("file3.txt");
    let out = r.diff(&[], plain());
    assert!(out.contains("file1.txt") && out.contains("file3.txt") && !out.contains("file2.txt"));
}

#[test]
fn test_diff_empty_file() {
    let mut r = init();
    r.write("empty.txt", "");
    r.add("empty.txt");
    r.write("empty.txt", "now has content\n");
    assert!(r.diff(&[], plain()).ends_with("+now has content\n"));
}

#[test]
fn test_diff_file_becomes_empty() {
    let mut r = init();
    r.write("will_empty.txt", "has content\n");
    r.add("will_empty.txt");
    r.write("will_empty.txt", "");
    assert!(r.diff(&[], plain()).ends_with("-has content\n"));
}

#[test]
fn test_diff_directory_filter() {
    let mut r = init();
    r.write("src/main.rs", "fn main() {}\n");
    r.write("src/lib.rs", "pub fn lib() {}\n");
    r.write("tests/test.rs", "fn test() {}\n");
    r.add(".");
    r.write("src/main.rs", "fn main() { println!(); }\n");
    r.write("src/lib.rs", "pub fn lib() { other(); }\n");
    r.write("tests/test.rs", "fn test() { assert!(true); }\n");
    let out = r.diff(&["src"], plain());
    assert!(out.contains("src/main.rs") && out.contains("src/lib.rs"));
    assert!(!out.contains("tests/test.rs"));
}

#[test]
fn test_diff_staged_after_commit() {
    let mut r = init();
    r.write("committed.txt", "original content\n");
    r.add("committed.txt");
    r.commit();
    r.write("committed.txt", "modified content\n");
    r.add("committed.txt");
    let out = r.diff(&[], staged());
    assert!(out.contains("-original content\n+modified content\n"));
}

#[test]
fn test_diff_unstaged_after_commit() {
    let mut r = init();
    r.write("committed.txt", "original content\n");
    r.add("committed.txt");
    r.commit();
    r.write("committed.txt", "working tree changes\n");
    assert!(r.diff(&[], plain()).contains("-original content\n+working tree changes\n"));
}

#[test]
fn test_diff_stat_mode() {
    let mut r = init();
    r.write("file1.txt", "line1\nline2\nline3\n");
    r.write("file2.txt", "content\n");
    r.add(".");
    r.write("file1.txt", "line1\nmodified\nline3\nnew\n");
    r.write("file2.txt", "changed\n");
    assert_eq!(
        r.stat(plain()),
        " file1.txt |    3 \x1b[32m++\x1b[31m-\x1b[0m\n file2.txt |    2 \x1b[32m+\x1b[31m-\x1b[0m\n 2 files changed, 3 insertions(+), 2 deletions(-)\n"
    );
}

#[test]
fn test_diff_stat_staged() {
    let mut r = init();
    r.write("new_file.txt", "new content\nline 2\n");
    r.add("new_file.txt");
    assert_eq!(
        r.stat(staged()),
        " new_file.txt |    2 \x1b[32m++\x1b[31m\x1b[0m\n 1 file changed, 2 insertions(+), 0 deletions(-)\n"
    );
}

#[test]
fn test_compute_stat() {
    let old = "line1\nline2\nline3\n";
    let new = "line1\nmodified\nline3\nnew line\n";

    let (additions, deletions) = compute_stat(old, new);

    assert_eq!(deletions, 1);
    assert_eq!(additions, 2);
}

#[test]
fn test_compute_stat_empty_to_content() {
    let (additions, deletions) = compute_stat("", "line1\nline2\nline3\n");
    assert_eq!(additions, 3);
    assert_eq!(deletions, 0);
}

#[test]
fn test_compute_stat_content_to_empty() {
    let (additions, deletions) = compute_stat("line1\nline2\nline3\n", "");
    assert_eq!(additions, 0);
    assert_eq!(deletions, 3);
}

#[test]
fn test_compute_stat_no_changes() {
    let content = "line1\nline2\nline3\n";
    let (additions, deletions) = compute_stat(content, content);
    assert_eq!(additions, 0);
    assert_eq!(deletions, 0);
}

#[test]
fn test_compute_stat_complete_rewrite() {
    let (additions, deletions) = compute_stat("old1\nold2\nold3\n", "new1\nnew2\nnew3\nnew4\n");
    assert_eq!(deletions, 3);
    assert_eq!(additions, 4);
}

#[test]
fn test_create_stat_bar_additions_only() {
    let bar = create_stat_bar(10, 0);
    assert!(bar.contains("+"));
    assert!(!bar.contains("-") || bar.ends_with("\x1b[0m"));
}

#[test]
fn test_create_stat_bar_deletions_only() {
    let bar = create_stat_bar(0, 10);
    assert!(bar.contains("-"));
}

#[test]
fn test_create_stat_bar_mixed() {
    let bar = create_stat_bar(5, 5);
    assert!(bar.contains("+"));
    assert!(bar.contains("-"));
}

#[test]
fn test_create_stat_bar_empty() {
    let bar = create_stat_bar(0, 0);
    assert!(bar.is_empty());
}

#[test]
fn test_diff_no_head_commit() {
    let mut r = init();
    r.write("new.txt", "content\n");
    r.add("new.txt");
    assert!(r.diff(&[], staged()).contains("+content\n"));
}

#[test]
fn test_diff_large_file() {
    let mut r = init();
    let content: String = (0..1000).map(|i| format!("line {}\n", i)).collect();
    r.write("large.txt", &content);
    r.add("large.txt");
    let modified: String = (0..1000)
        .map(|i| {
            if i % 100 == 0 {
                format!("modified line {}\n", i)
            } else {
                format!("line {}\n", i)
            }
        })
        .collect();
    r.write("large.txt", &modified);
    let out = r.diff(&[], plain());
    assert_eq!(out.matches("+modified line").count(), 10);
    assert_eq!(out.matches("\n\n").count(), 9);
}

#[test]
fn test_diff_special_characters_in_content() {
    let mut r = init();
    r.write(
        "special.txt",
        "line with tabs\t\there\n<xml>content</xml>\n\"quoted\" & 'single'\n",
    );
    r.add("special.txt");
    r.write("special.txt", "modified\t\ttabs\n<html>content</html>\n\"new\" & 'quotes'\n");
    assert!(r.diff(&[], plain()).contains("+<html>content</html>\n"));
}

#[test]
fn test_diff_unicode_content() {
    let mut r = init();
    r.write("unicode.txt", "Hello 世界\nПривет\n🎉\n");
    r.add("unicode.txt");
    r.write("unicode.txt", "Modified 世界\nПривет мир\n🎊\n");
    assert!(r.diff(&[], plain()).contains("+Modified 世界\n+Привет мир\n+🎊\n"));
}

#[test]
fn bars_are_at_most_fifty_wide() {
    let bar = create_stat_bar(300, 100);
    assert_eq!(bar.matches('+').count(), 37);
    assert_eq!(bar.matches('-').count(), 13);
    let full = create_stat_bar(usize::MAX, 0);
    assert_eq!(full.matches('+').count(), 50);
}

#[test]
fn colours_and_missing_line_ends() {
    let groups = vec![vec![
        LineChange { tag: ChangeTag::Equal, value: "a\n".to_string(), missing_newline: false },
        LineChange { tag: ChangeTag::Insert, value: "b".to_string(), missing_newline: true },
    ]];
    assert_eq!(show_groups(&groups, true), " a\n+b\n\\ No newline at end of file\n");
    assert_eq!(
        show_groups(&groups, false),
        " a\n\x1b[0m\x1b[32m+b\x1b[0m\n\x1b[2m\\ No newline at end of file\x1b[0m\n"
    );
    assert_eq!(count_changes(&groups[0]), (1, 0));
    assert_eq!(unified_diff("x\n", "y", true), "-x\n+y\n\\ No newline at end of file\n");
    assert_eq!(
        diff_header("p", "deleted", false),
        "\x1b[1mdiff --helix a/p b/p\x1b[0m\n\x1b[1mdeleted mode 100644\x1b[0m\n\x1b[1m--- a/p\x1b[0m\n\x1b[1m+++ b/p\x1b[0m\n"
    );
}

#[test]
fn untracked_files_are_shown_where_they_are_named() {
    let mut r = init();
    r.write("new.txt", "x\n");
    assert_eq!(r.diff(&[], plain()), "");
    assert!(r.diff(&["new.txt"], plain()).contains("new file mode 100644"));
    assert_eq!(r.diff(&[], DiffOptions { verbose: true, ..staged() }), "No staged changes\n");
}

#[test]
fn bytes_that_are_no_text_are_shown_with_replacements() {
    let mut r = init();
    let h = r.store.write_object(ObjectType::Blob, vec![b'a', 0xff]);
    assert_eq!(read_blob_as_string(&r.store, &h), "a\u{fffd}");
    assert_eq!(read_blob_as_string(&r.store, &[0u8; 32]), "");
}

#[test]
fn heads_that_cannot_be_read() {
    let mut r = init();
    assert_eq!(get_head_tree_files(&r.store, &r.refs).unwrap().items.len(), 0);
    r.refs.set_ref("refs/heads/main".to_string(), "zz".to_string());
    assert!(matches!(get_head_tree_files(&r.store, &r.refs), Err(DiffError::Head(_))));
    r.refs.set_ref("refs/heads/main".to_string(), "00".repeat(32));
    assert!(matches!(get_head_tree_files(&r.store, &r.refs), Err(DiffError::Commit(_))));
    r.refs.set_ref("refs/heads/main/x".to_string(), "00".to_string());
    r.refs.remove_ref("refs/heads/main");
    assert!(matches!(get_head_tree_files(&r.store, &r.refs), Err(DiffError::Unreadable(_))));
}

#[test]
fn numbers_agree_with_their_nouns() {
    let rows = vec![FileChanges { path: "a".to_string(), additions: 1, deletions: 1 }];
    let out = show_stat(&rows);
    assert!(out.ends_with(" 1 file changed, 1 insertion(+), 1 deletion(-)\n"));
    assert_eq!(show_stat(&vec![]), "");
}

#[test]
fn filters_match_whole_components() {
    let matches = |path: &str, fs: &[&str]| {
        path_matches(path, &fs.iter().map(|f| f.to_string()).collect::<Vec<String>>())
    };
    assert!(matches("src/main.rs", &["src"]));
    assert!(matches("src/main.rs", &["src/"]));
    assert!(matches("src/main.rs", &["x", "src//main.rs"]));
    assert!(matches("src/main.rs", &["."]));
    assert!(!matches("src2/x", &["src"]));
    assert!(!matches("src/x", &["src/x/y"]));
    assert!(!matches("src/x", &[]));
}
