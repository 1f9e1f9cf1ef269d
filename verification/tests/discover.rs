use std::path::Path;

use semsearch::discover::has_note_extension;
use semsearch::{discover_files, WalkEntry};

fn std_is_note(name: &str) -> bool {
    matches!(
        Path::new(name).extension().and_then(|ext| ext.to_str()),
        Some("md") | Some("txt")
    )
}

#[test]
fn note_extensions() {
    assert!(has_note_extension(&b"a.md".to_vec()));
    assert!(has_note_extension(&b"notes.txt".to_vec()));
    assert!(has_note_extension(&b"a.b.md".to_vec()));
    assert!(has_note_extension(&b".hidden.md".to_vec()));
    assert!(!has_note_extension(&b".md".to_vec()));
    assert!(!has_note_extension(&b"md".to_vec()));
    assert!(!has_note_extension(&b"a.MD".to_vec()));
    assert!(!has_note_extension(&b"a.md.bak".to_vec()));
    assert!(!has_note_extension(&b"a.".to_vec()));
    assert!(!has_note_extension(&b"a.mdx".to_vec()));
    assert!(!has_note_extension(&b"".to_vec()));
    assert!(has_note_extension(&b"\xff\xfe.md".to_vec()));
}

#[test]
fn note_extensions_agree_with_std_paths() {
    let names = [
        "a.md", "a.txt", ".md", ".txt", "md", "txt", "a.b.txt", "..md", "a..md", ".a.md", "a.m",
        "a.mdd", "x.TXT", "readme", "a.md.", "a.txt.md", "..", "a.rs",
    ];
    for name in names {
        assert_eq!(has_note_extension(&name.as_bytes().to_vec()), std_is_note(name), "{name}");
    }
}

fn entry(path: &str, is_file: bool) -> WalkEntry {
    WalkEntry {
        path: path.as_bytes().to_vec(),
        file_name: Path::new(path).file_name().map(|n| n.to_str().unwrap().as_bytes().to_vec()),
        is_file,
    }
}

#[test]
fn discover_keeps_note_files_in_walk_order() {
    let entries = vec![
        entry("notes", false),
        entry("notes/b.md", true),
        entry("notes/dir.md", false),
        entry("notes/a.txt", true),
        entry("notes/c.rs", true),
        entry("notes/sub/d.md", true),
    ];
    let found = discover_files(&entries);
    assert_eq!(
        found,
        vec![b"notes/b.md".to_vec(), b"notes/a.txt".to_vec(), b"notes/sub/d.md".to_vec()]
    );
}

#[test]
fn discover_skips_entries_without_file_name() {
    let entries = vec![WalkEntry { path: b"/".to_vec(), file_name: None, is_file: true }];
    assert!(discover_files(&entries).is_empty());
}
