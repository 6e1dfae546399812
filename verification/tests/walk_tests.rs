use wax_vs_ignore::glob::{PatternDefect, PatternFault};
use wax_vs_ignore::walk::{DirEntry, EntryKind, PatternError, PatternList, Walker};

fn b(s: &str) -> Vec<u8> {
    s.as_bytes().to_vec()
}

fn pats(list: &[&str]) -> Vec<Vec<u8>> {
    list.iter().map(|p| b(p)).collect()
}

fn dir(name: &str) -> DirEntry {
    DirEntry { name: b(name), kind: EntryKind::Directory }
}

fn file(name: &str) -> DirEntry {
    DirEntry { name: b(name), kind: EntryKind::File }
}

fn other(name: &str) -> DirEntry {
    DirEntry { name: b(name), kind: EntryKind::Other }
}

/// A tree held in memory: each readable directory with its listing.
struct Tree {
    dirs: Vec<(Vec<u8>, Vec<DirEntry>)>,
}

impl Tree {
    fn new() -> Tree {
        Tree { dirs: Vec::new() }
    }

    fn with(mut self, path: &str, entries: Vec<DirEntry>) -> Tree {
        self.dirs.push((b(path), entries));
        self
    }

    fn list(&self, path: &[u8]) -> Option<&Vec<DirEntry>> {
        self.dirs.iter().find(|(p, _)| p.as_slice() == path).map(|(_, e)| e)
    }
}

/// Walks the tree; returns what was selected and which directories were read.
fn walk(tree: &Tree, root: &str, inc: &[&str], exc: &[&str]) -> (Vec<String>, Vec<String>) {
    let mut w = Walker::new(b(root), pats(inc), pats(exc)).expect("patterns are sound");
    let mut read = Vec::new();
    let mut steps = 0;
    while let Some(d) = w.next_dir() {
        steps += 1;
        assert!(steps < 10_000);
        read.push(String::from_utf8(d.clone()).unwrap());
        if let Some(entries) = tree.list(&d) {
            w.accept_listing(entries);
        }
    }
    let found = w.into_results().into_iter().map(|p| String::from_utf8(p).unwrap()).collect();
    (found, read)
}

fn fixture() -> Tree {
    Tree::new()
        .with("R", vec![file("a.c"), dir(".hidden"), dir("sub")])
        .with("R/.hidden", vec![file("b.c")])
        .with("R/sub", vec![dir(".git"), file("d.cpp"), file("readme.md")])
        .with("R/sub/.git", vec![file("c.c")])
}

fn depth(path: &str, root: &str) -> usize {
    path[root.len()..].split('/').filter(|s| !s.is_empty()).count()
}

#[test]
fn example_tree_gives_the_two_sources() {
    let (found, read) = walk(&fixture(), "R", &["**/*.c", "**/*.cpp"], &["**/.*/**"]);
    assert_eq!(found, vec!["R/a.c".to_string(), "R/sub/d.cpp".to_string()]);
    assert_eq!(read, vec!["R".to_string(), "R/sub".to_string()]);
}

#[test]
fn hidden_files_stay_out_without_any_exclude() {
    let (found, read) = walk(&fixture(), "R", &["**/*.c", "**/*.cpp"], &[]);
    assert_eq!(found, vec!["R/a.c".to_string(), "R/sub/d.cpp".to_string()]);
    // nothing was pruned, so every directory was read
    assert_eq!(
        read,
        vec!["R".to_string(), "R/.hidden".to_string(), "R/sub".to_string(), "R/sub/.git".to_string()]
    );
    for p in &found {
        assert!(!p["R".len()..].split('/').any(|s| s.starts_with('.') && s != "."));
    }
}

#[test]
fn hidden_file_at_the_top_is_dropped() {
    let tree = Tree::new().with("R", vec![file(".env"), file("x.env"), file(".c")]);
    let (found, _) = walk(&tree, "R", &["**"], &[]);
    assert_eq!(found, vec!["R/x.env".to_string()]);
}

#[test]
fn hidden_root_is_not_held_against_its_files() {
    let tree = Tree::new().with(".cache", vec![file("a.c"), dir("in")]).with(
        ".cache/in",
        vec![file("b.c")],
    );
    let (found, _) = walk(&tree, ".cache", &["**/*.c"], &["**/.*/**"]);
    assert_eq!(found, vec![".cache/a.c".to_string(), ".cache/in/b.c".to_string()]);
}

#[test]
fn file_below_excluded_directory_never_appears() {
    let tree = Tree::new()
        .with("R", vec![dir("build"), dir("src"), file("top.c")])
        .with("R/build", vec![file("gen.c"), dir("deep")])
        .with("R/build/deep", vec![file("deeper.c")])
        .with("R/src", vec![file("main.c")]);
    let (found, read) = walk(&tree, "R", &["**/*.c"], &["build/"]);
    // gen.c matches **/*.c and not build/, yet it is not there: its directory was pruned
    assert_eq!(found, vec!["R/top.c".to_string(), "R/src/main.c".to_string()]);
    assert_eq!(read, vec!["R".to_string(), "R/src".to_string()]);
}

#[test]
fn excluded_file_is_dropped_though_selected() {
    let tree = Tree::new().with("R", vec![file("a.c"), file("a_test.c")]);
    let (found, _) = walk(&tree, "R", &["**/*.c"], &["**/*_test.c"]);
    assert_eq!(found, vec!["R/a.c".to_string()]);
}

#[test]
fn empty_includes_give_nothing() {
    let (found, read) = walk(&fixture(), "R", &[], &[]);
    assert!(found.is_empty());
    assert_eq!(read.len(), 4);
    let (found, _) = walk(&fixture(), "R", &[], &["**/.*/**"]);
    assert!(found.is_empty());
}

#[test]
fn shallow_matches_come_before_deep_ones() {
    let tree = Tree::new()
        .with("R", vec![dir("a"), file("one.c"), dir("z"), file("uno.c")])
        .with("R/a", vec![dir("b"), file("two.c")])
        .with("R/a/b", vec![file("three.c"), dir("c")])
        .with("R/a/b/c", vec![file("four.c")])
        .with("R/z", vec![file("zwei.c")]);
    let (found, read) = walk(&tree, "R", &["**/*.c"], &[]);
    assert_eq!(
        found,
        vec![
            "R/one.c".to_string(),
            "R/uno.c".to_string(),
            "R/a/two.c".to_string(),
            "R/z/zwei.c".to_string(),
            "R/a/b/three.c".to_string(),
            "R/a/b/c/four.c".to_string(),
        ]
    );
    assert_eq!(
        read,
        vec![
            "R".to_string(),
            "R/a".to_string(),
            "R/z".to_string(),
            "R/a/b".to_string(),
            "R/a/b/c".to_string()
        ]
    );
    let depths: Vec<usize> = found.iter().map(|p| depth(p, "R")).collect();
    assert_eq!(depths, vec![1, 1, 2, 2, 3, 4]);
}

#[test]
fn links_and_other_entries_are_neither_read_nor_selected() {
    let tree = Tree::new()
        .with("R", vec![other("link_to_outside"), other("dev.c"), file("a.c"), dir("sub")])
        .with("R/link_to_outside", vec![file("outside.c")])
        .with("R/sub", vec![other("loop")])
        .with("R/sub/loop", vec![file("again.c")]);
    let (found, read) = walk(&tree, "R", &["**/*.c"], &[]);
    assert_eq!(found, vec!["R/a.c".to_string()]);
    assert_eq!(read, vec!["R".to_string(), "R/sub".to_string()]);
}

#[test]
fn two_walks_of_the_same_tree_agree() {
    let (first, _) = walk(&fixture(), "R", &["**/*.c", "**/*.cpp"], &["**/.*/**"]);
    let (second, _) = walk(&fixture(), "R", &["**/*.c", "**/*.cpp"], &["**/.*/**"]);
    assert_eq!(first, second);
}

#[test]
fn listing_order_changes_the_order_only() {
    let one = Tree::new()
        .with("R", vec![file("a.c"), dir("s"), file("b.c"), dir("t")])
        .with("R/s", vec![file("c.c")])
        .with("R/t", vec![file("d.c")]);
    let two = Tree::new()
        .with("R", vec![dir("t"), file("b.c"), dir("s"), file("a.c")])
        .with("R/s", vec![file("c.c")])
        .with("R/t", vec![file("d.c")]);
    let (mut first, _) = walk(&one, "R", &["**/*.c"], &[]);
    let (mut second, _) = walk(&two, "R", &["**/*.c"], &[]);
    assert_eq!(first, vec!["R/a.c", "R/b.c", "R/s/c.c", "R/t/d.c"]);
    assert_eq!(second, vec!["R/b.c", "R/a.c", "R/t/d.c", "R/s/c.c"]);
    first.sort();
    second.sort();
    assert_eq!(first, second);
}

#[test]
fn missing_root_gives_an_empty_result() {
    let (found, read) = walk(&Tree::new(), "no/such/dir", &["**"], &[]);
    assert!(found.is_empty());
    assert_eq!(read, vec!["no/such/dir".to_string()]);
}

#[test]
fn unreadable_directory_is_skipped_silently() {
    let tree = Tree::new()
        .with("R", vec![dir("locked"), dir("open"), file("a.c")])
        .with("R/open", vec![file("b.c")]);
    let (found, read) = walk(&tree, "R", &["**/*.c"], &[]);
    assert_eq!(found, vec!["R/a.c".to_string(), "R/open/b.c".to_string()]);
    assert_eq!(read, vec!["R".to_string(), "R/locked".to_string(), "R/open".to_string()]);
}

#[test]
fn excluded_root_is_never_read() {
    let mut w = Walker::new(b("R"), pats(&["**"]), pats(&["/"])).unwrap();
    assert_eq!(w.next_dir(), None);
    assert!(w.into_results().is_empty());
}

#[test]
fn absolute_root_and_root_with_trailing_separator() {
    let tree = Tree::new().with("/srv/p", vec![file("a.c"), dir("d")]).with(
        "/srv/p/d",
        vec![file("b.c")],
    );
    let (found, _) = walk(&tree, "/srv/p", &["*.c", "d/*.c"], &[]);
    assert_eq!(found, vec!["/srv/p/a.c".to_string(), "/srv/p/d/b.c".to_string()]);
    let tree = Tree::new().with("p/", vec![file("a.c"), dir("d")]).with("p/d", vec![file("b.c")]);
    let (found, _) = walk(&tree, "p/", &["*.c", "d/*.c"], &[]);
    assert_eq!(found, vec!["p/a.c".to_string(), "p/d/b.c".to_string()]);
    let tree = Tree::new().with("/", vec![file("a.c")]);
    let (found, _) = walk(&tree, "/", &["*.c"], &[]);
    assert_eq!(found, vec!["/a.c".to_string()]);
    let tree = Tree::new().with("", vec![file("a.c"), dir("d")]).with("d", vec![file("b.c")]);
    let (found, _) = walk(&tree, "", &["**/*.c"], &[]);
    assert_eq!(found, vec!["a.c".to_string(), "d/b.c".to_string()]);
}

#[test]
fn names_that_are_no_single_segment_are_ignored() {
    let tree = Tree::new().with("R", vec![file(""), file("x/y.c"), dir("p/q"), dir(""), file("ok.c")]);
    let (found, read) = walk(&tree, "R", &["**"], &[]);
    assert_eq!(found, vec!["R/ok.c".to_string()]);
    assert_eq!(read, vec!["R".to_string()]);
}

#[test]
fn listing_without_pending_directory_changes_nothing() {
    let mut w = Walker::new(b("R"), pats(&["**"]), Vec::new()).unwrap();
    w.accept_listing(&vec![file("early.c"), dir("early")]);
    assert_eq!(w.next_dir(), Some(b("R")));
    w.accept_listing(&vec![file("a.c")]);
    // the directory was answered once; a second answer is not taken
    w.accept_listing(&vec![file("again.c")]);
    assert_eq!(w.next_dir(), None);
    assert_eq!(w.into_results(), vec![b("R/a.c")]);
}

#[test]
fn defective_include_pattern_stops_before_the_walk() {
    let r = Walker::new(b("R"), pats(&["**/*.c", "*.{h,hpp"]), pats(&["[x"]));
    assert_eq!(
        r.err(),
        Some(PatternError {
            list: PatternList::Includes,
            fault: PatternFault { index: 1, defect: PatternDefect::UnclosedBrace, offset: 2 },
        })
    );
}

#[test]
fn defective_exclude_pattern_stops_before_the_walk() {
    let r = Walker::new(b("R"), pats(&["**/*.c"]), pats(&["ok/**", "bad\\"]));
    assert_eq!(
        r.err(),
        Some(PatternError {
            list: PatternList::Excludes,
            fault: PatternFault { index: 1, defect: PatternDefect::TrailingBackslash, offset: 3 },
        })
    );
}

const PATTERNS: &[&str] =
    &["**/*.{c,cc,cxx,cpp,h,hpp,hxx}", "**/*.{cmake,cmake.in}", "**/CMakeFiles.txt"];

fn repository() -> Tree {
    Tree::new()
        .with(
            "/work/repo",
            vec![
                dir(".git"),
                dir(".pixi"),
                file(".env"),
                file("CMakeLists.txt"),
                file("CMakeFiles.txt"),
                dir("cmake"),
                dir("src"),
                dir("opencv"),
            ],
        )
        .with("/work/repo/.git", vec![file("config"), dir("hooks")])
        .with("/work/repo/.git/hooks", vec![file("pre-commit.h")])
        .with("/work/repo/.pixi", vec![dir("envs")])
        .with("/work/repo/.pixi/envs", vec![dir("default")])
        .with("/work/repo/.pixi/envs/default", vec![file("zlib.h"), file("zconf.h")])
        .with("/work/repo/cmake", vec![file("FindX.cmake"), file("config.cmake.in"), file("notes.md")])
        .with("/work/repo/src", vec![file("main.cpp"), file("util.cc"), file("util.hpp"), dir(".cache")])
        .with("/work/repo/src/.cache", vec![file("stale.c")])
        .with("/work/repo/opencv", vec![file("LICENSE"), file("core.hxx")])
}

fn has_pixi_component(path: &str) -> bool {
    path.split('/').any(|c| c == ".pixi")
}

fn has_hidden_component(path: &str) -> bool {
    path.split('/').any(|c| !c.is_empty() && c != "." && c != ".." && c.starts_with('.'))
}

#[test]
fn bfs_fastglob_excludes_pixi() {
    let (res, _) = walk(&repository(), "/work/repo", PATTERNS, &["**/.*/**"]);
    assert!(
        res.iter().all(|p| !has_pixi_component(p)),
        "bfs fastglob results contain .pixi entries: {:?}",
        res
    );
    assert!(res.len() > 0, "bfs fastglob produced no results under patterns");
}

#[test]
fn bfs_fastglob_excludes_all_hidden() {
    let (res, read) = walk(&repository(), "/work/repo", PATTERNS, &["**/.*/**"]);
    assert!(
        res.iter().all(|p| !has_hidden_component(p)),
        "bfs fastglob results contain hidden entries: {:?}",
        res
    );
    assert_eq!(
        res,
        vec![
            "/work/repo/CMakeFiles.txt".to_string(),
            "/work/repo/cmake/FindX.cmake".to_string(),
            "/work/repo/cmake/config.cmake.in".to_string(),
            "/work/repo/src/main.cpp".to_string(),
            "/work/repo/src/util.cc".to_string(),
            "/work/repo/src/util.hpp".to_string(),
            "/work/repo/opencv/core.hxx".to_string(),
        ]
    );
    assert_eq!(
        read,
        vec![
            "/work/repo".to_string(),
            "/work/repo/cmake".to_string(),
            "/work/repo/src".to_string(),
            "/work/repo/opencv".to_string()
        ]
    );
}
