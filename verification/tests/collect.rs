use semsearch::{collect_chunks, read_and_chunk, Chunk, CollectError, NoteFile};

fn chunk(path: &str, index: usize, text: &str) -> Chunk {
    Chunk { path: path.to_string(), index, text: text.to_string() }
}

#[test]
fn read_and_chunk_numbers_chunks() {
    let got = read_and_chunk("a.md", &Ok("one\n\ntwo\n".to_string())).unwrap();
    assert_eq!(got, vec![chunk("a.md", 0, "one"), chunk("a.md", 1, "two")]);
}

#[test]
fn read_and_chunk_reports_unreadable_file() {
    let got = read_and_chunk("a.md", &Err("permission denied".to_string()));
    assert_eq!(
        got,
        Err(CollectError::Unreadable {
            path: "a.md".to_string(),
            reason: "permission denied".to_string()
        })
    );
}

#[test]
fn collect_concatenates_files_in_order() {
    let files = vec![
        NoteFile { path: b"x/a.md".to_vec(), content: Ok("a1\n\na2".to_string()) },
        NoteFile { path: b"x/empty.txt".to_vec(), content: Ok("\n".to_string()) },
        NoteFile { path: b"x/b.txt".to_vec(), content: Ok("b1".to_string()) },
    ];
    assert_eq!(
        collect_chunks(&files).unwrap(),
        vec![chunk("x/a.md", 0, "a1"), chunk("x/a.md", 1, "a2"), chunk("x/b.txt", 0, "b1")]
    );
}

#[test]
fn collect_of_nothing_is_empty() {
    assert_eq!(collect_chunks(&vec![]).unwrap(), vec![]);
}

#[test]
fn collect_rejects_non_utf8_path() {
    let files = vec![
        NoteFile { path: b"ok.md".to_vec(), content: Ok("fine".to_string()) },
        NoteFile { path: b"bad\xff.md".to_vec(), content: Ok("text".to_string()) },
        NoteFile { path: b"later.md".to_vec(), content: Err("gone".to_string()) },
    ];
    assert_eq!(
        collect_chunks(&files),
        Err(CollectError::NonUtf8FileName { bytes: b"bad\xff.md".to_vec() })
    );
}

#[test]
fn collect_stops_at_first_unreadable_file() {
    let files = vec![
        NoteFile { path: b"gone.md".to_vec(), content: Err("no such file".to_string()) },
        NoteFile { path: b"bad\xff.md".to_vec(), content: Ok("text".to_string()) },
    ];
    assert_eq!(
        collect_chunks(&files),
        Err(CollectError::Unreadable {
            path: "gone.md".to_string(),
            reason: "no such file".to_string()
        })
    );
}

#[test]
fn collect_decodes_utf8_paths() {
    let files = vec![NoteFile { path: "é/ß.md".as_bytes().to_vec(), content: Ok("x".to_string()) }];
    assert_eq!(collect_chunks(&files).unwrap(), vec![chunk("é/ß.md", 0, "x")]);
}
