use projdoc::fs_model::FsDir;
use projdoc::fs_model::FsFile;
use projdoc::fs_model::process_files;
use projdoc::pattern::parse_patterns;

fn comps(parts: &[&str]) -> Vec<String> {
    parts.iter().map(|s| s.to_string()).collect()
}

fn file(name: &str, content: &str) -> FsFile {
    FsFile { name: name.to_string(), content: content.to_string() }
}

fn dir(name: &str, files: Vec<FsFile>, subdirs: Vec<FsDir>) -> FsDir {
    FsDir { name: name.to_string(), files, subdirs }
}

fn pats(raw: &[&str]) -> Vec<projdoc::pattern::ExclusionPattern> {
    parse_patterns(&raw.iter().map(|s| s.to_string()).collect())
}

fn collected(entries: &[projdoc::fs_model::FileEntry]) -> Vec<(Vec<String>, String)> {
    entries.iter().map(|e| (e.path.clone(), e.content.clone())).collect()
}

#[test]
fn walk_collects_every_reachable_file() {
    let root = dir(
        "proj",
        vec![file("top.txt", "T")],
        vec![dir("sub", vec![file("inner.txt", "I")], vec![])],
    );
    let out = process_files(
        &comps(&["proj"]),
        &root,
        &vec![],
        &vec![comps(&["sub"]), comps(&[])],
        &pats(&[]),
    );
    // "sub" exists and is walked; the empty path names the root itself.
    let got = collected(&out);
    assert!(got.contains(&(comps(&["proj", "sub", "inner.txt"]), "I".to_string())));
    assert!(got.contains(&(comps(&["proj", "top.txt"]), "T".to_string())));
    assert_eq!(got.len(), 3); // inner.txt once via "sub", top.txt and inner.txt via ""
}

#[test]
fn explicit_missing_entries_silently_skipped() {
    let root = dir("proj", vec![file("real.txt", "R")], vec![]);
    let out = process_files(
        &comps(&[]),
        &root,
        &vec![comps(&["real.txt"]), comps(&["ghost.txt"])],
        &vec![comps(&["no_such_dir"])],
        &pats(&[]),
    );
    assert_eq!(collected(&out), vec![(comps(&["real.txt"]), "R".to_string())]);
}

#[test]
fn match_all_excludes_every_directory() {
    // "**" empties every declared directory; explicit files are
    // unaffected.
    let root = dir(
        "proj",
        vec![file("a.txt", "A")],
        vec![dir("d", vec![file("b.txt", "B")], vec![])],
    );
    let out = process_files(
        &comps(&[]),
        &root,
        &vec![comps(&["a.txt"])],
        &vec![comps(&["d"]), comps(&[])],
        &pats(&["**"]),
    );
    assert_eq!(collected(&out), vec![(comps(&["a.txt"]), "A".to_string())]);
}

#[test]
fn basename_pattern_excludes_at_any_depth() {
    let root = dir(
        "proj",
        vec![],
        vec![
            dir("node_modules", vec![file("x.js", "X")], vec![]),
            dir(
                "src",
                vec![file("keep.js", "K")],
                vec![dir("node_modules", vec![file("y.js", "Y")], vec![])],
            ),
        ],
    );
    let out = process_files(
        &comps(&["proj"]),
        &root,
        &vec![],
        &vec![comps(&[])],
        &pats(&["**/node_modules"]),
    );
    assert_eq!(
        collected(&out),
        vec![(comps(&["proj", "src", "keep.js"]), "K".to_string())]
    );
}

#[test]
fn exclusion_is_subtree_absolute() {
    // Once "skip" is excluded, nothing anywhere beneath it appears,
    // even from a deeper directory that matches no pattern itself.
    let root = dir(
        "proj",
        vec![],
        vec![dir(
            "skip",
            vec![file("direct.txt", "D")],
            vec![dir("inner", vec![file("deep.txt", "P")], vec![])],
        )],
    );
    let out = process_files(
        &comps(&[]),
        &root,
        &vec![],
        &vec![comps(&[])],
        &pats(&["**/skip"]),
    );
    assert_eq!(out.len(), 0);
}

#[test]
fn relative_path_pattern_excludes_exact_directory_only() {
    let root = dir(
        "proj",
        vec![],
        vec![
            dir("a", vec![], vec![dir("b", vec![file("f", "F")], vec![])]),
            dir("x", vec![], vec![dir(
                "a",
                vec![],
                vec![dir("b", vec![file("g", "G")], vec![])],
            )]),
        ],
    );
    let out = process_files(
        &comps(&[]),
        &root,
        &vec![],
        &vec![comps(&[])],
        &pats(&["a/b"]),
    );
    let got = collected(&out);
    // a/b is gone; x/a/b stays.
    assert_eq!(got, vec![(comps(&["x", "a", "b", "g"]), "G".to_string())]);
}

#[test]
fn declared_directory_itself_can_be_excluded() {
    let root = dir("proj", vec![], vec![dir("d", vec![file("f", "F")], vec![])]);
    let out = process_files(
        &comps(&[]),
        &root,
        &vec![],
        &vec![comps(&["d"])],
        &pats(&["d"]),
    );
    assert_eq!(out.len(), 0);
}
