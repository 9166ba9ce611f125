//! Ignored files.
use globset::GlobSetBuilder;
use helix::ignore::IgnoreRules;

fn strings(v: &[&str]) -> Vec<String> {
    v.iter().map(|s| s.to_string()).collect()
}

fn rules(builder: GlobSetBuilder) -> IgnoreRules {
    IgnoreRules { globset: builder.build().unwrap() }
}

#[test]
fn test_normalize_pattern_directory_slash() {
    let patterns = IgnoreRules::normalize_pattern("target/");
    assert!(patterns.contains(&"target".to_string()));
    assert!(patterns.contains(&"target/**".to_string()));
}

#[test]
fn test_normalize_pattern_glob_star() {
    let patterns = IgnoreRules::normalize_pattern(".helix/*");
    assert!(patterns.contains(&".helix".to_string()));
    assert!(patterns.contains(&".helix/**".to_string()));
}

#[test]
fn test_normalize_pattern_double_star() {
    let patterns = IgnoreRules::normalize_pattern(".git/**");
    assert!(patterns.contains(&".git".to_string()));
    assert!(patterns.contains(&".git/**".to_string()));
}

#[test]
fn test_normalize_pattern_simple_name() {
    let patterns = IgnoreRules::normalize_pattern("HEAD");
    assert!(patterns.contains(&"HEAD".to_string()));
    assert!(patterns.contains(&"HEAD/**".to_string()));
    assert!(patterns.contains(&"**/HEAD".to_string()));
    assert!(patterns.contains(&"**/HEAD/**".to_string()));
}

#[test]
fn test_normalize_pattern_extension() {
    let patterns = IgnoreRules::normalize_pattern("*.log");
    assert!(patterns.contains(&"*.log".to_string()));
}

#[test]
fn test_should_ignore_helix_directory() {
    let mut builder = GlobSetBuilder::new();
    IgnoreRules::add_pattern(&mut builder, ".helix");
    IgnoreRules::add_pattern(&mut builder, ".helix/*");
    let rules = rules(builder);

    assert!(rules.should_ignore(".helix"));
    assert!(rules.should_ignore(".helix/HEAD"));
    assert!(rules.should_ignore(".helix/helix.idx"));
    assert!(rules.should_ignore(".helix/cache/data.bin"));
}

#[test]
fn test_should_ignore_git_directory() {
    let mut builder = GlobSetBuilder::new();
    IgnoreRules::add_pattern(&mut builder, ".git");
    let rules = rules(builder);

    assert!(rules.should_ignore(".git"));
    assert!(rules.should_ignore(".git/HEAD"));
    assert!(rules.should_ignore(".git/objects/abc123"));
}

#[test]
fn test_should_ignore_file_by_name() {
    let mut builder = GlobSetBuilder::new();
    IgnoreRules::add_pattern(&mut builder, "HEAD");
    let rules = rules(builder);

    assert!(rules.should_ignore("HEAD"));
    assert!(rules.should_ignore(".helix/HEAD"));
    assert!(rules.should_ignore("subdir/HEAD"));
}

#[test]
fn test_should_ignore_extension() {
    let mut builder = GlobSetBuilder::new();
    IgnoreRules::add_pattern(&mut builder, "*.log");
    let rules = rules(builder);

    assert!(rules.should_ignore("debug.log"));
    assert!(rules.should_ignore("logs/error.log"));
    assert!(!rules.should_ignore("logfile.txt"));
}

#[test]
fn test_should_not_ignore_normal_files() {
    let mut builder = GlobSetBuilder::new();
    IgnoreRules::add_built_in_patterns(&mut builder);
    let rules = rules(builder);

    assert!(!rules.should_ignore("src/main.rs"));
    assert!(!rules.should_ignore("README.md"));
    assert!(!rules.should_ignore("Cargo.toml"));
}

#[test]
fn test_should_ignore_helix_toml_config() {
    let rules =
        IgnoreRules::load(&vec![], &strings(&["*.tmp", "cache/", "node_modules"]), &vec![]);

    assert!(rules.should_ignore("file.tmp"));
    assert!(rules.should_ignore("cache/data.db"));
    assert!(rules.should_ignore("node_modules/pkg/index.js"));
}

#[test]
fn test_should_ignore_gitignore_patterns() {
    let rules = IgnoreRules::load(
        &strings(&["*.log", "target/", "# Comment", "", ".DS_Store"]),
        &vec![],
        &vec![],
    );

    assert!(rules.should_ignore("debug.log"));
    assert!(rules.should_ignore("target/debug/main"));
    assert!(rules.should_ignore(".DS_Store"));
}

#[test]
fn test_pattern_with_leading_dot_slash() {
    let patterns = IgnoreRules::normalize_pattern("./target/");
    assert!(patterns.contains(&"target".to_string()));
    assert!(patterns.contains(&"target/**".to_string()));
}

#[test]
fn test_built_in_patterns_ignore_helix_internals() {
    let mut builder = GlobSetBuilder::new();
    IgnoreRules::add_built_in_patterns(&mut builder);
    let rules = rules(builder);

    assert!(rules.should_ignore(".helix"));
    assert!(rules.should_ignore(".helix/HEAD"));
    assert!(rules.should_ignore(".helix/helix.idx"));
    assert!(rules.should_ignore(".helix/cache/data"));
    assert!(rules.should_ignore(".helix/objects/abc123"));

    assert!(rules.should_ignore(".git"));
    assert!(rules.should_ignore(".git/HEAD"));
    assert!(rules.should_ignore(".git/index"));

    assert!(!rules.should_ignore("helix.toml"));

    assert!(!rules.should_ignore("src/main.rs"));
    assert!(!rules.should_ignore("README.md"));
}

#[test]
fn broken_patterns_are_passed_over() {
    let rules = IgnoreRules::load(&vec![], &strings(&["a[", "*.tmp"]), &strings(&["*.bak"]));
    assert!(rules.should_ignore("x.tmp"));
    assert!(rules.should_ignore("x.bak"));
    assert!(rules.should_ignore(".git/x"));
    assert!(!rules.should_ignore("a["));
}

#[test]
fn comments_are_no_patterns() {
    let v = IgnoreRules::parse_gitignore(&strings(&["# c", "  ", " x ", "y"]));
    assert_eq!(v, strings(&["x", "y"]));
}
