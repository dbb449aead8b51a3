use dirtree::gitignore::{
    file_name, pattern_line, relative_path, wildcard, GitignoreManager, IgnorePattern,
};
use dirtree::text::{contains, is_less, push_decimal, to_chars};

fn chars(s: &str) -> Vec<char> {
    s.chars().collect()
}

fn manager(lines: &[&str]) -> GitignoreManager {
    let mut m = GitignoreManager::new();
    let lines: Vec<String> = lines.iter().map(|l| l.to_string()).collect();
    m.load_patterns(&lines);
    m
}

#[test]
fn star_matches_any_run() {
    let m = GitignoreManager::new();
    assert!(m.matches_filename_pattern("a.txt", "*.txt"));
    assert!(!m.matches_filename_pattern("a.txt.bak", "*.txt"));
    assert!(m.matches_filename_pattern(".txt", "*.txt"));
    assert!(m.matches_filename_pattern("anything", "*"));
    assert!(m.matches_filename_pattern("", "*"));
    assert!(m.matches_filename_pattern("", "***"));
    assert!(m.matches_filename_pattern("abcXYZdef", "abc*def"));
    assert!(m.matches_filename_pattern("aXbXc", "a*b*c"));
    assert!(!m.matches_filename_pattern("aXbX", "a*b*c"));
}

#[test]
fn question_mark_matches_one_character() {
    let m = GitignoreManager::new();
    assert!(m.matches_filename_pattern("abc", "a?c"));
    assert!(!m.matches_filename_pattern("ac", "a?c"));
    assert!(!m.matches_filename_pattern("abbc", "a?c"));
    assert!(m.matches_filename_pattern("aéc", "a?c"));
    assert!(!m.matches_filename_pattern("", "?"));
}

#[test]
fn literal_pattern_matches_whole_name_only() {
    let m = GitignoreManager::new();
    assert!(m.matches_filename_pattern("Makefile", "Makefile"));
    assert!(!m.matches_filename_pattern("Makefile.am", "Makefile"));
    assert!(!m.matches_filename_pattern("Makefil", "Makefile"));
    assert!(m.matches_filename_pattern("", ""));
    assert!(!m.matches_filename_pattern("a", ""));
}

#[test]
fn many_stars_are_matched_quickly() {
    let text: String = "a".repeat(60);
    let pattern: String = format!("{}b", "*a".repeat(30));
    assert!(!wildcard(&chars(&pattern), &chars(&text)));
}

#[test]
fn directory_pattern_ignores_a_directory_of_that_name() {
    let m = manager(&["build/"]);
    assert!(m.matches("root/build", "root", true));
    assert!(m.matches("root/src/build", "root", true));
    assert!(m.matches("root/src/build/obj", "root", true));
    assert!(!m.matches("root/build/obj", "root", true));
    assert!(!m.matches("root/builds", "root", true));
    assert!(!m.matches("root/src", "root", true));
}

#[test]
fn directory_pattern_is_a_wildcard_for_files() {
    let m = manager(&["b*d/"]);
    assert!(!m.matches("root/build", "root", true));
    assert!(m.matches("root/build", "root", false));
    assert!(!m.matches("root/built", "root", false));
    let m = manager(&["build/"]);
    assert!(m.matches("root/build", "root", false));
    assert!(!m.matches("root/rebuild.sh", "root", false));
}

#[test]
fn negated_pattern_first_keeps_the_file() {
    let m = manager(&["!keep.txt", "*.txt"]);
    assert!(!m.matches("root/keep.txt", "root", false));
    assert!(m.matches("root/other.txt", "root", false));
    assert!(!m.matches("root/other.rs", "root", false));
}

#[test]
fn first_matching_pattern_decides() {
    let m = manager(&["*.txt", "!keep.txt"]);
    assert!(m.matches("root/keep.txt", "root", false));
}

#[test]
fn anchored_pattern_matches_the_relative_path() {
    let m = manager(&["/target"]);
    assert!(m.matches("root/target", "root", true));
    assert!(m.matches("root/target", "root", false));
    assert!(!m.matches("root/sub/target", "root", true));
    let m = manager(&["/docs/api/"]);
    assert!(m.matches("root/docs/api", "root", true));
    assert!(!m.matches("root/api", "root", true));
}

#[test]
fn pattern_matches_inside_the_relative_path() {
    let m = manager(&["gen"]);
    assert!(m.matches("root/a/gen/x.rs", "root", false));
    assert!(m.matches("root/a/generated", "root", false));
    assert!(!m.matches("root/gen2/x.rs", "root", false));
    let m = manager(&["gen/"]);
    assert!(m.matches("root/a/gen/sub", "root", true));
    assert!(!m.matches("root/a/generated/sub", "root", true));
}

#[test]
fn no_patterns_ignore_nothing() {
    let m = GitignoreManager::new();
    assert!(!m.matches("root/a.txt", "root", false));
    let m = manager(&["", "   ", "# *.txt", "\t# note"]);
    assert!(!m.matches("root/a.txt", "root", false));
}

#[test]
fn loading_replaces_the_patterns() {
    let mut m = manager(&["*.txt"]);
    assert!(m.matches("root/a.txt", "root", false));
    m.load_patterns(&vec!["*.rs".to_string()]);
    assert!(!m.matches("root/a.txt", "root", false));
    assert!(m.matches("root/a.rs", "root", false));
    m.load_patterns(&Vec::new());
    assert!(!m.matches("root/a.rs", "root", false));
}

#[test]
fn pattern_lines_are_told_from_comments_and_blanks() {
    assert!(pattern_line(&chars("*.txt")));
    assert!(pattern_line(&chars("  indented")));
    assert!(pattern_line(&chars("a#b")));
    assert!(!pattern_line(&chars("")));
    assert!(!pattern_line(&chars(" \t ")));
    assert!(!pattern_line(&chars("#comment")));
    assert!(!pattern_line(&chars("  # comment")));
    assert!(!pattern_line(&chars("\u{3000}\u{a0}")));
}

#[test]
fn matches_pattern_gives_one_verdict() {
    let m = GitignoreManager::new();
    assert!(m.matches_pattern("a.txt", "a.txt", "*.txt", false));
    assert!(!m.matches_pattern("a.txt", "a.txt", "!*.txt", false));
    assert!(!m.matches_pattern("a.rs", "a.rs", "*.txt", false));
    assert!(m.matches_pattern("build", "build", "build/", true));
    assert!(m.matches_pattern("build", "build", "build/", false));
    assert!(!m.matches_pattern("b", "b", "build/", false));
    assert!(m.matches_pattern("x", "sub/x", "/sub/x", false));
    assert!(!m.matches_pattern("x", "sub/x", "/x", false));
    assert!(!m.matches_pattern("x", "sub/x", "!/sub/x", false));
}

#[test]
fn parse_takes_a_pattern_apart() {
    let p = IgnorePattern::parse(&chars("!/docs/"));
    assert!(p.negated);
    assert!(p.anchored);
    assert!(p.directory_only);
    assert_eq!(p.body, chars("docs"));
    let p = IgnorePattern::parse(&chars("*.txt"));
    assert!(!p.negated);
    assert!(!p.anchored);
    assert!(!p.directory_only);
    assert_eq!(p.body, chars("*.txt"));
    let p = IgnorePattern::parse(&chars("//a/b//"));
    assert!(p.anchored);
    assert!(p.directory_only);
    assert_eq!(p.body, chars("a/b"));
    let p = IgnorePattern::parse(&chars("/"));
    assert!(p.anchored);
    assert!(!p.directory_only);
    assert_eq!(p.body, chars(""));
    let p = IgnorePattern::parse(&chars("!"));
    assert!(p.negated);
    assert_eq!(p.body, chars(""));
}

#[test]
fn file_name_is_the_last_component() {
    assert_eq!(file_name(&chars("a/b/c.txt")), chars("c.txt"));
    assert_eq!(file_name(&chars("c.txt")), chars("c.txt"));
    assert_eq!(file_name(&chars("a/")), chars(""));
    assert_eq!(file_name(&chars("")), chars(""));
}

#[test]
fn relative_path_strips_the_base() {
    assert_eq!(relative_path(&chars("root/a/b"), &chars("root")), chars("a/b"));
    assert_eq!(relative_path(&chars("./a"), &chars(".")), chars("a"));
    assert_eq!(relative_path(&chars("root/a"), &chars("root/")), chars("a"));
    assert_eq!(relative_path(&chars("root"), &chars("root")), chars(""));
    assert_eq!(relative_path(&chars("rooted/a"), &chars("root")), chars(""));
    assert_eq!(relative_path(&chars("other/a"), &chars("root")), chars(""));
    assert_eq!(relative_path(&chars("a/b"), &chars("")), chars("a/b"));
    assert_eq!(relative_path(&chars("a"), &chars("a/b")), chars(""));
}

#[test]
fn to_chars_keeps_every_character() {
    assert_eq!(to_chars("a├é z"), vec!['a', '├', 'é', ' ', 'z']);
    assert_eq!(to_chars(""), Vec::<char>::new());
}

#[test]
fn contains_finds_a_run() {
    assert!(contains(&chars("a/b/c"), &chars("/b/")));
    assert!(contains(&chars("a/b/c"), &chars("")));
    assert!(contains(&chars("abc"), &chars("abc")));
    assert!(contains(&chars("abc"), &chars("bc")));
    assert!(!contains(&chars("abc"), &chars("abcd")));
    assert!(!contains(&chars("a/bc"), &chars("/b/")));
    assert!(contains(&chars(""), &chars("")));
}

#[test]
fn is_less_orders_by_code_point() {
    assert!(is_less(&chars("a"), &chars("b")));
    assert!(!is_less(&chars("b"), &chars("a")));
    assert!(!is_less(&chars("a"), &chars("a")));
    assert!(is_less(&chars("a"), &chars("ab")));
    assert!(!is_less(&chars("ab"), &chars("a")));
    assert!(is_less(&chars("B"), &chars("a")));
    assert!(is_less(&chars("z"), &chars("é")));
    assert!(is_less(&chars(""), &chars("a")));
    assert!(!is_less(&chars(""), &chars("")));
}

#[test]
fn push_decimal_writes_digits() {
    let mut s = String::from("n=");
    push_decimal(&mut s, 0);
    assert_eq!(s, "n=0");
    let mut s = String::new();
    push_decimal(&mut s, 1234567890);
    assert_eq!(s, "1234567890");
    let mut s = String::new();
    push_decimal(&mut s, 10);
    assert_eq!(s, "10");
    let mut s = String::new();
    push_decimal(&mut s, usize::MAX);
    assert_eq!(s, usize::MAX.to_string());
}
