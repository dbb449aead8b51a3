use dirtree::config::Config;
use dirtree::entry::{DirEntry, RootDir};
use dirtree::error::TreeError;
use dirtree::stats::FileStats;
use dirtree::tree::TreeGenerator;

fn options() -> Config {
    Config {
        all: false,
        dirs_only: false,
        no_indent: false,
        full_path: false,
        gitignore: false,
        max_depth: None,
        output: None,
        paths: vec!["root".to_string()],
    }
}

fn file(dir: &str, name: &str) -> DirEntry {
    DirEntry {
        name: name.to_string(),
        path: format!("{}/{}", dir, name),
        canonical: Some(format!("/abs/{}/{}", dir, name)),
        is_dir: false,
        children: Vec::new(),
        failure: None,
    }
}

fn folder(dir: &str, name: &str, children: Vec<DirEntry>) -> DirEntry {
    DirEntry {
        name: name.to_string(),
        path: format!("{}/{}", dir, name),
        canonical: Some(format!("/abs/{}/{}", dir, name)),
        is_dir: true,
        children,
        failure: None,
    }
}

fn top(path: &str, children: Vec<DirEntry>, ignore_lines: Vec<&str>) -> RootDir {
    RootDir {
        dir: DirEntry {
            name: path.to_string(),
            path: path.to_string(),
            canonical: Some(format!("/abs/{}", path)),
            is_dir: true,
            children,
            failure: None,
        },
        ignore_lines: ignore_lines.iter().map(|l| l.to_string()).collect(),
    }
}

fn sample() -> RootDir {
    top(
        "root",
        vec![
            folder("root", "sub", vec![file("root/sub", "b.txt")]),
            file("root", ".hidden"),
            file("root", "a.txt"),
        ],
        vec![],
    )
}

fn run(config: &Config, roots: &Vec<RootDir>) -> Result<String, TreeError> {
    let mut generator = TreeGenerator::new(config);
    generator.generate(roots)
}

fn text(config: &Config, roots: &Vec<RootDir>) -> String {
    match run(config, roots) {
        Ok(t) => t,
        Err(e) => panic!("{}", e.message()),
    }
}

#[test]
fn default_flags_hide_dot_files() {
    let config = options();
    let out = text(&config, &vec![sample()]);
    assert_eq!(
        out,
        "root/\n├── a.txt\n└── sub/\n    └── b.txt\n\n2 directories, 2 files\n"
    );
}

#[test]
fn all_shows_hidden_and_counts_three_files() {
    let mut config = options();
    config.all = true;
    let out = text(&config, &vec![sample()]);
    assert_eq!(
        out,
        "root/\n├── .hidden\n├── a.txt\n└── sub/\n    └── b.txt\n\n2 directories, 3 files\n"
    );
}

#[test]
fn middle_directory_draws_a_bar_below() {
    let config = options();
    let root = top(
        "r",
        vec![
            file("r", "z"),
            folder("r", "m", vec![file("r/m", "y"), file("r/m", "x")]),
        ],
        vec![],
    );
    let out = text(&config, &vec![root]);
    assert_eq!(
        out,
        "r/\n├── m/\n│   ├── x\n│   └── y\n└── z\n\n2 directories, 3 files\n"
    );
}

#[test]
fn no_indent_drops_connectors() {
    let mut config = options();
    config.no_indent = true;
    let out = text(&config, &vec![sample()]);
    assert_eq!(out, "root/\na.txt\nsub/\nb.txt\n\n2 directories, 2 files\n");
}

#[test]
fn dirs_only_lists_no_files() {
    let mut config = options();
    config.dirs_only = true;
    let out = text(&config, &vec![sample()]);
    assert_eq!(out, "root/\n└── sub/\n\n2 directories, 0 files\n");
}

#[test]
fn full_path_shows_canonical_paths() {
    let mut config = options();
    config.full_path = true;
    let out = text(&config, &vec![sample()]);
    assert_eq!(
        out,
        "/abs/root/\n├── /abs/root/a.txt\n└── /abs/root/sub\n    └── /abs/root/sub/b.txt\n\n2 directories, 2 files\n"
    );
}

#[test]
fn full_path_falls_back_to_given_path() {
    let mut config = options();
    config.full_path = true;
    let mut entry = file("root", "dangling");
    entry.canonical = None;
    let mut root = top("root", vec![entry], vec![]);
    root.dir.canonical = None;
    let out = text(&config, &vec![root]);
    assert_eq!(out, "root/\n└── root/dangling\n\n1 directories, 1 files\n");
}

#[test]
fn max_depth_zero_lists_top_entries_only() {
    let mut config = options();
    config.max_depth = Some(0);
    let out = text(&config, &vec![sample()]);
    assert_eq!(out, "root/\n├── a.txt\n└── sub/\n\n2 directories, 1 files\n");
}

#[test]
fn max_depth_one_lists_one_level_below() {
    let mut config = options();
    config.max_depth = Some(1);
    let deep = top(
        "root",
        vec![folder(
            "root",
            "a",
            vec![folder("root/a", "b", vec![file("root/a/b", "c")])],
        )],
        vec![],
    );
    let out = text(&config, &vec![deep]);
    assert_eq!(out, "root/\n└── a/\n    └── b/\n\n3 directories, 0 files\n");
}

#[test]
fn siblings_come_in_byte_order() {
    let config = options();
    let root = top(
        "d",
        vec![
            file("d", "b"),
            file("d", "a"),
            file("d", "B"),
            file("d", "ab"),
            file("d", "é"),
            file("d", "z"),
        ],
        vec![],
    );
    let out = text(&config, &vec![root]);
    assert_eq!(
        out,
        "d/\n├── B\n├── a\n├── ab\n├── b\n├── z\n└── é\n\n1 directories, 6 files\n"
    );
}

#[test]
fn gitignore_leaves_out_git_and_ignored_entries() {
    let mut config = options();
    config.gitignore = true;
    config.all = true;
    let root = top(
        "p",
        vec![
            folder("p", ".git", vec![file("p/.git", "HEAD")]),
            folder("p", "build", vec![file("p/build", "out.o")]),
            file("p", "keep.txt"),
            file("p", "notes.txt"),
            file("p", "main.rs"),
        ],
        vec!["# build output", "", "build/", "!keep.txt", "*.txt"],
    );
    let out = text(&config, &vec![root]);
    assert_eq!(out, "p/\n├── keep.txt\n└── main.rs\n\n1 directories, 2 files\n");
}

#[test]
fn ignore_lines_are_not_used_without_the_option() {
    let config = options();
    let root = top("p", vec![file("p", "notes.txt")], vec!["*.txt"]);
    let out = text(&config, &vec![root]);
    assert_eq!(out, "p/\n└── notes.txt\n\n1 directories, 1 files\n");
}

#[test]
fn each_root_has_its_own_counts_and_patterns() {
    let mut config = options();
    config.gitignore = true;
    let first = top("one", vec![file("one", "a.log"), file("one", "a.txt")], vec!["*.log"]);
    let second = top("two", vec![file("two", "b.log"), file("two", "b.txt")], vec!["*.txt"]);
    let out = text(&config, &vec![first, second]);
    assert_eq!(
        out,
        "one/\n└── a.txt\n\n1 directories, 1 files\ntwo/\n└── b.log\n\n1 directories, 1 files\n"
    );
}

#[test]
fn listing_twice_gives_the_same_text() {
    let mut config = options();
    config.gitignore = true;
    let roots = vec![
        top("one", vec![file("one", "a.log"), file("one", "a.txt")], vec!["*.log"]),
        sample(),
    ];
    let mut generator = TreeGenerator::new(&config);
    let a = generator.generate(&roots);
    let b = generator.generate(&roots);
    match (a, b) {
        (Ok(x), Ok(y)) => assert_eq!(x, y),
        _ => panic!("a listing failed"),
    }
}

#[test]
fn unreadable_directory_fails_the_run() {
    let config = options();
    let mut locked = folder("root", "locked", vec![]);
    locked.failure = Some("Permission denied".to_string());
    let root = top("root", vec![file("root", "a"), locked], vec![]);
    match run(&config, &vec![root]) {
        Ok(_) => panic!("the listing should fail"),
        Err(e) => {
            assert!(matches!(&e, TreeError::Io(m) if m == "Permission denied"));
            assert_eq!(e.message(), "IO error: Permission denied");
        }
    }
}

#[test]
fn unreadable_directory_beyond_depth_is_not_read() {
    let mut config = options();
    config.max_depth = Some(0);
    let mut locked = folder("root", "locked", vec![]);
    locked.failure = Some("Permission denied".to_string());
    let root = top("root", vec![locked], vec![]);
    let out = text(&config, &vec![root]);
    assert_eq!(out, "root/\n└── locked/\n\n2 directories, 0 files\n");
}

#[test]
fn unreadable_hidden_directory_is_not_read() {
    let config = options();
    let mut locked = folder("root", ".cache", vec![]);
    locked.failure = Some("Permission denied".to_string());
    let root = top("root", vec![locked], vec![]);
    let out = text(&config, &vec![root]);
    assert_eq!(out, "root/\n\n1 directories, 0 files\n");
}

#[test]
fn unreadable_root_fails() {
    let config = options();
    let mut root = top("missing", vec![], vec![]);
    root.dir.failure = Some("No such file or directory".to_string());
    match run(&config, &vec![root]) {
        Ok(_) => panic!("the listing should fail"),
        Err(e) => assert_eq!(e.message(), "IO error: No such file or directory"),
    }
}

#[test]
fn empty_root_counts_itself() {
    let config = options();
    let out = text(&config, &vec![top(".", vec![], vec![])]);
    assert_eq!(out, "./\n\n1 directories, 0 files\n");
}

#[test]
fn no_roots_give_no_text() {
    let config = options();
    let out = text(&config, &Vec::new());
    assert_eq!(out, "");
}

#[test]
fn counts_are_written_in_decimal() {
    let config = options();
    let mut children = Vec::new();
    for i in 0..120 {
        children.push(file("r", &format!("f{:03}", i)));
    }
    for i in 0..10 {
        children.push(folder("r", &format!("d{:02}", i), vec![]));
    }
    let out = text(&config, &vec![top("r", children, vec![])]);
    assert!(out.ends_with("\n\n11 directories, 120 files\n"));
    assert!(out.starts_with("r/\n├── d00/\n├── d01/\n"));
}

#[test]
fn visit_dir_adds_to_the_counts() {
    let config = options();
    let generator = TreeGenerator::new(&config);
    let root = sample();
    let mut stats = FileStats::new();
    stats.dirs = 5;
    stats.files = 7;
    let out = generator.visit_dir(&root.dir, "root", 1, &mut stats, "  ");
    match out {
        Ok(t) => assert_eq!(t, "  ├── a.txt\n  └── sub/\n      └── b.txt\n"),
        Err(_) => panic!("the listing should not fail"),
    }
    assert_eq!(stats.dirs, 6);
    assert_eq!(stats.files, 9);
}

#[test]
fn listing_of_orders_and_filters() {
    let config = options();
    let generator = TreeGenerator::new(&config);
    let root = sample();
    let order = generator.listing_of(&root.dir.children, "root");
    assert_eq!(order, vec![2, 0]);
}

#[test]
fn entries_of_one_name_keep_their_order() {
    let config = options();
    let generator = TreeGenerator::new(&config);
    let entries = vec![file("r", "b"), file("r", "a"), file("r", "b"), file("r", "a")];
    let order = generator.listing_of(&entries, "r");
    assert_eq!(order, vec![1, 3, 0, 2]);
}

#[test]
fn should_include_entry_applies_each_rule() {
    let mut config = options();
    config.gitignore = true;
    config.all = true;
    let generator = TreeGenerator::new(&config);
    assert!(!generator.should_include_entry(&folder("r", ".git", vec![]), "r"));
    assert!(generator.should_include_entry(&file("r", ".gitkeep"), "r"));
    let mut plain = options();
    plain.dirs_only = true;
    let generator = TreeGenerator::new(&plain);
    assert!(!generator.should_include_entry(&file("r", "a"), "r"));
    assert!(generator.should_include_entry(&folder("r", "a", vec![]), "r"));
    assert!(!generator.should_include_entry(&folder("r", ".a", vec![]), "r"));
    assert!(generator.should_include_entry(&folder("r", ".git", vec![]), "r") == false);
}

#[test]
fn format_display_name_marks_directories() {
    let config = options();
    let generator = TreeGenerator::new(&config);
    assert_eq!(generator.format_display_name(&folder("r", "d", vec![])), "d/");
    assert_eq!(generator.format_display_name(&file("r", "f")), "f");
}

#[test]
fn parse_args_defaults_to_current_directory() {
    let mut parsed = options();
    parsed.paths = Vec::new();
    parsed.max_depth = Some(3);
    parsed.output = Some("out.txt".to_string());
    let config = Config::parse_args(parsed);
    assert_eq!(config.paths, vec![".".to_string()]);
    assert_eq!(config.max_depth, Some(3));
    assert_eq!(config.output, Some("out.txt".to_string()));
    let mut given = options();
    given.paths = vec!["a".to_string(), "b".to_string()];
    given.all = true;
    let config = Config::parse_args(given);
    assert_eq!(config.paths, vec!["a".to_string(), "b".to_string()]);
    assert!(config.all);
}

#[test]
fn new_stats_are_zero() {
    let stats = FileStats::new();
    assert_eq!(stats.dirs, 0);
    assert_eq!(stats.files, 0);
}

#[test]
fn needs_listing_follows_filter_and_depth() {
    let mut config = options();
    config.max_depth = Some(1);
    let generator = TreeGenerator::new(&config);
    assert!(generator.needs_listing(&folder("r", "d", vec![]), "r", 0));
    assert!(!generator.needs_listing(&folder("r", "d", vec![]), "r", 1));
    assert!(!generator.needs_listing(&folder("r", ".d", vec![]), "r", 0));
    assert!(!generator.needs_listing(&file("r", "f"), "r", 0));
    let open = options();
    let generator = TreeGenerator::new(&open);
    assert!(generator.needs_listing(&folder("r", "d", vec![]), "r", usize::MAX));
}

#[test]
fn generator_loads_patterns_only_when_asked() {
    let mut config = options();
    config.gitignore = true;
    let mut generator = TreeGenerator::new(&config);
    assert!(generator.should_include_entry(&file("r", "a.log"), "r"));
    generator.load_patterns(&vec!["*.log".to_string()]);
    assert!(!generator.should_include_entry(&file("r", "a.log"), "r"));
    assert!(!generator.needs_listing(&folder("r", "x.log", vec![]), "r", 0));
    let plain = options();
    let mut generator = TreeGenerator::new(&plain);
    generator.load_patterns(&vec!["*.log".to_string()]);
    assert!(generator.should_include_entry(&file("r", "a.log"), "r"));
}

#[test]
fn directory_lines_match_the_summary() {
    let mut config = options();
    config.all = true;
    let root = top(
        "r",
        vec![
            folder("r", "a", vec![folder("r/a", "b", vec![]), file("r/a", "f")]),
            folder("r", "c", vec![]),
            file("r", "g"),
            file("r", ".h"),
        ],
        vec![],
    );
    let out = text(&config, &vec![root]);
    let lines: Vec<&str> = out.lines().collect();
    let listed = &lines[..lines.len() - 2];
    let dir_lines = listed.iter().filter(|l| l.ends_with('/')).count();
    let file_lines = listed.iter().filter(|l| !l.ends_with('/')).count();
    assert_eq!(dir_lines, 4);
    assert_eq!(file_lines, 3);
    assert_eq!(dir_lines + file_lines, listed.len());
    assert_eq!(lines[lines.len() - 2], "");
    assert_eq!(lines[lines.len() - 1], "4 directories, 3 files");
}

#[test]
fn every_entry_is_listed_once_or_left_out() {
    let config = options();
    let generator = TreeGenerator::new(&config);
    let entries = vec![
        file("r", "b"),
        file("r", ".x"),
        folder("r", "a", vec![]),
        file("r", ".y"),
        file("r", "c"),
    ];
    let order = generator.listing_of(&entries, "r");
    assert_eq!(order, vec![2, 0, 4]);
    for (i, e) in entries.iter().enumerate() {
        let times = order.iter().filter(|&&k| k == i).count();
        let expected = if generator.should_include_entry(e, "r") { 1 } else { 0 };
        assert_eq!(times, expected);
    }
}

#[test]
fn counts_of_small_trees_fit() {
    let mut config = options();
    config.gitignore = true;
    let mut generator = TreeGenerator::new(&config);
    let roots = vec![sample(), top("p", vec![file("p", "a.log")], vec!["*.log"])];
    assert!(generator.counts_fit(&roots));
    assert!(generator.counts_fit(&Vec::new()));
}

#[test]
fn run_lists_every_root() {
    let config = options();
    let roots = vec![sample(), top(".", vec![], vec![])];
    match dirtree::run(&config, &roots) {
        Ok(t) => assert_eq!(
            t,
            "root/\n├── a.txt\n└── sub/\n    └── b.txt\n\n2 directories, 2 files\n./\n\n1 directories, 0 files\n"
        ),
        Err(e) => panic!("{}", e.message()),
    }
}
