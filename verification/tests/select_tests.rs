use wax_vs_ignore::select::{files_only, visible_files, with_hidden_excluded, Found};

fn found(path: &str, is_dir: bool) -> Found {
    Found { path: path.as_bytes().to_vec(), is_dir }
}

#[test]
fn directories_are_dropped() {
    let all = vec![
        found("./src", true),
        found("./src/a.c", false),
        found("./src/inc", true),
        found("./src/inc/a.h", false),
        found("./.pixi/x.h", false),
    ];
    assert_eq!(
        files_only(&all),
        vec![b"./src/a.c".to_vec(), b"./src/inc/a.h".to_vec(), b"./.pixi/x.h".to_vec()]
    );
    assert!(files_only(&Vec::new()).is_empty());
}

#[test]
fn hidden_paths_and_directories_are_dropped() {
    let all = vec![
        found("./src", true),
        found("./src/a.c", false),
        found("./.pixi/envs/x.h", false),
        found("./.git", true),
        found("../up/b.c", false),
        found("./src/.cache/c.c", false),
        found("./src/.hidden.c", false),
    ];
    assert_eq!(visible_files(&all), vec![b"./src/a.c".to_vec(), b"../up/b.c".to_vec()]);
}

#[test]
fn the_two_hiding_patterns_are_appended() {
    let given = vec![b"**/*.c".to_vec(), b"**/CMakeFiles.txt".to_vec()];
    assert_eq!(
        with_hidden_excluded(&given),
        vec![b"**/*.c".to_vec(), b"**/CMakeFiles.txt".to_vec(), b"!.*".to_vec(), b"!.*/**".to_vec()]
    );
    assert_eq!(with_hidden_excluded(&Vec::new()), vec![b"!.*".to_vec(), b"!.*/**".to_vec()]);
}

fn reported() -> Vec<Found> {
    vec![
        found(".", true),
        found("./src", true),
        found("./src/main.cpp", false),
        found("./.pixi", true),
        found("./.pixi/envs/default/zlib.h", false),
        found("./.git/hooks/pre-commit.h", false),
        found("./cmake/FindX.cmake", false),
        found("./src/.cache/stale.c", false),
    ]
}

fn as_text(files: Vec<Vec<u8>>) -> Vec<String> {
    files.into_iter().map(|p| String::from_utf8(p).unwrap()).collect()
}

#[test]
fn ignore_excludes_pixi() {
    let res = as_text(visible_files(&reported()));
    assert!(
        res.iter().all(|p| !p.split('/').any(|c| c == ".pixi")),
        "ignore results contain .pixi entries: {:?}",
        res
    );
    assert_eq!(res, vec!["./src/main.cpp".to_string(), "./cmake/FindX.cmake".to_string()]);
}

#[test]
fn ignore_excludes_all_hidden() {
    let res = as_text(visible_files(&reported()));
    assert!(
        res.iter().all(|p| !p.split('/').any(|c| c.starts_with('.') && c != "." && c != "..")),
        "ignore results contain hidden entries: {:?}",
        res
    );
}
