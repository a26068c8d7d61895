use projdoc::fs_model::FileEntry;
use projdoc::markdown::extension_of;
use projdoc::markdown::generate_markdown;
use projdoc::markdown::join_components;
use projdoc::markdown::lookup_lang;

fn comps(parts: &[&str]) -> Vec<String> {
    parts.iter().map(|s| s.to_string()).collect()
}

fn entry(parts: &[&str], content: &str) -> FileEntry {
    FileEntry { path: comps(parts), content: content.to_string() }
}

fn langs(pairs: &[(&str, &str)]) -> Vec<(String, String)> {
    pairs.iter().map(|(k, v)| (k.to_string(), v.to_string())).collect()
}

#[test]
fn extension_scan() {
    assert_eq!(extension_of("main.rs"), "rs");
    assert_eq!(extension_of("archive.tar.gz"), "gz");
    assert_eq!(extension_of("Makefile"), "");
    assert_eq!(extension_of(".bashrc"), "");
    assert_eq!(extension_of(""), "");
}

#[test]
fn language_lookup_with_fallback() {
    let table = langs(&[("rs", "Rust"), ("py", "Python")]);
    assert_eq!(lookup_lang(&table, &"rs".to_string()), "Rust");
    assert_eq!(lookup_lang(&table, &"py".to_string()), "Python");
    assert_eq!(lookup_lang(&table, &"zig".to_string()), "Text");
    assert_eq!(lookup_lang(&langs(&[]), &"rs".to_string()), "Text");
}

#[test]
fn join_with_slashes() {
    assert_eq!(join_components(&comps(&["a", "b", "c"])), "a/b/c");
    assert_eq!(join_components(&comps(&["one"])), "one");
    assert_eq!(join_components(&comps(&[])), "");
}

#[test]
fn whole_document() {
    let files = vec![entry(&["src", "main.RS"], "fn main() {}")];
    let table = langs(&[("rs", "Rust")]);
    let root = comps(&[]);
    let md = generate_markdown("demo", files, &table, &root);
    let expected = "# Project Documentation for demo\n\n\
## Project Files\n\n\
### File: `src/main.RS`\n\n\
```Rust\nfn main() {}\n```\n\n\
\n## Project File Tree\n\n\
```\ndemo\n└── src\n    └── main.RS\n```\n";
    assert_eq!(md, expected);
}

#[test]
fn document_relativises_against_root() {
    let files = vec![entry(&["base", "lib.py"], "x = 1")];
    let table = langs(&[("py", "Python")]);
    let root = comps(&["base"]);
    let md = generate_markdown("p", files, &table, &root);
    assert!(md.contains("### File: `lib.py`"));
    assert!(md.contains("```Python\nx = 1\n```"));
    assert!(md.contains("```\np\n└── lib.py\n```\n"));
}

#[test]
fn unknown_extension_falls_back_to_text() {
    let files = vec![entry(&["notes"], "hello")];
    let root = comps(&[]);
    let md = generate_markdown("p", files, &langs(&[]), &root);
    assert!(md.contains("```Text\nhello\n```"));
}
