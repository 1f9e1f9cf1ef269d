//! Turning the note files of a directory into numbered chunks.

use vstd::prelude::*;
use vstd::utf8::{decode_utf8, encode_utf8, valid_utf8};

use crate::chunk::{chunk_text, chunks_of, texts};

verus! {

/// A chunk of text extracted from a source file, ready to be embedded later: the file's
/// path, the chunk's position among the file's chunks, and its text.
#[derive(Debug, Clone, PartialEq, Eq)]
pub struct Chunk {
    pub path: String,
    pub index: usize,
    pub text: String,
}

/// A note file as it was read: its path as the bytes of its OS string, and its text, or why
/// it could not be read as text.
pub struct NoteFile {
    pub path: Vec<u8>,
    pub content: Result<String, String>,
}

/// Why the notes of a directory could not be collected.
#[derive(Debug, Clone, PartialEq, Eq)]
pub enum CollectError {
    /// A note's path is not UTF-8, so it could not be stored; holds the path's bytes.
    NonUtf8FileName { bytes: Vec<u8> },
    /// A note could not be read: its path and the reason.
    Unreadable { path: String, reason: String },
}

/// What a chunk holds: its path, index and text.
pub open spec fn chunk_view(c: Chunk) -> (Seq<char>, int, Seq<char>) {
    (c.path@, c.index as int, c.text@)
}

/// What a sequence of chunks holds.
pub open spec fn chunk_views(v: Seq<Chunk>) -> Seq<(Seq<char>, int, Seq<char>)> {
    v.map_values(|c: Chunk| chunk_view(c))
}

/// The chunks of the file at `path` with text `content`, numbered from 0 in order.
pub open spec fn file_chunks(path: Seq<char>, content: Seq<char>) -> Seq<(Seq<char>, int, Seq<char>)> {
    Seq::new(chunks_of(content).len(), |i: int| (path, i, chunks_of(content)[i]))
}

/// Whether a note file can be chunked: its path is UTF-8 and its text was read.
pub open spec fn file_ok(f: NoteFile) -> bool {
    valid_utf8(f.path@) && f.content is Ok
}

/// The text of a note file that was read (meaningful when it was).
pub open spec fn file_text(f: NoteFile) -> Seq<char> {
    match f.content {
        Ok(t) => t@,
        Err(_) => seq![],
    }
}

/// The chunks of all `files`, file after file.
pub open spec fn all_chunks(files: Seq<NoteFile>) -> Seq<(Seq<char>, int, Seq<char>)>
    decreases files.len(),
{
    if files.len() == 0 {
        seq![]
    } else {
        all_chunks(files.drop_last()) + file_chunks(
            decode_utf8(files.last().path@),
            file_text(files.last()),
        )
    }
}

/// Whether `e` is the error that the note file `f` gives: for a path that is not UTF-8 that
/// path, else for a file that could not be read its path and the reason.
pub open spec fn error_for(f: NoteFile, e: CollectError) -> bool {
    if !valid_utf8(f.path@) {
        e matches CollectError::NonUtf8FileName { bytes } && bytes@ == f.path@
    } else {
        match f.content {
            Ok(_) => false,
            Err(reason) => e matches CollectError::Unreadable { path, reason: r } && path@
                == decode_utf8(f.path@) && r@ == reason@,
        }
    }
}

/// `String::from_utf8`: the string that `bytes` encode, when they are valid UTF-8.
#[verifier::external_body]
fn utf8_string(bytes: Vec<u8>) -> (r: Option<String>)
    ensures
        r is Some <==> valid_utf8(bytes@),
        r matches Some(s) ==> encode_utf8(s@) == bytes@,
{
    String::from_utf8(bytes).ok()
}

/// The chunks of the file at `path`, given what reading it gave: its text, chunked and
/// numbered from 0, or the reason it could not be read.
pub fn read_and_chunk(path: &str, content: &Result<String, String>) -> (r: Result<
    Vec<Chunk>,
    CollectError,
>)
    ensures
        content is Ok <==> r is Ok,
        r matches Ok(chunks) ==> chunk_views(chunks@) == file_chunks(
            path@,
            match content {
                Ok(t) => t@,
                Err(_) => seq![],
            },
        ),
        content matches Err(reason) ==> r matches Err(CollectError::Unreadable { path: p, reason: q })
            && p@ == path@ && q@ == reason@,
        r matches Ok(chunks) ==> chunks.len() == chunks_of(content->Ok_0@).len() && forall|i: int|
            #![trigger chunks@[i]]
            0 <= i < chunks.len() ==> chunks@[i].text@ == chunks_of(content->Ok_0@)[i]
                && chunks@[i].index == i && chunks@[i].path@ == path@,
{
    match content {
        Err(reason) => {
            let p = path.to_owned();
            Err(CollectError::Unreadable { path: p, reason: reason.clone() })
        },
        Ok(text) => {
            let texts_vec = chunk_text(text.as_str());
            let ghost cs = chunks_of(text@);
            let mut chunks: Vec<Chunk> = Vec::new();
            let n = texts_vec.len();
            assert(texts(texts_vec@) == cs);
            for i in 0..n
                invariant
                    n == texts_vec.len() == cs.len(),
                    cs == chunks_of(text@),
                    texts(texts_vec@) == cs,
                    chunk_views(chunks@) == file_chunks(path@, text@).take(i as int),
            {
                let ghost before = chunk_views(chunks@);
                let c = Chunk { path: path.to_owned(), index: i, text: texts_vec[i].clone() };
                assert(texts_vec@[i as int]@ == cs[i as int]);
                chunks.push(c);
                assert(file_chunks(path@, text@)[i as int] == (path@, i as int, cs[i as int]));
                assert(chunk_views(chunks@) =~= before.push((path@, i as int, cs[i as int])));
                assert(file_chunks(path@, text@).take(i + 1) =~= file_chunks(path@, text@).take(
                    i as int,
                ).push((path@, i as int, cs[i as int])));
            }
            assert(file_chunks(path@, text@).take(n as int) =~= file_chunks(path@, text@));
            assert forall|i: int|
                #![trigger chunks@[i]]
                0 <= i < chunks.len() implies chunks@[i].text@ == cs[i] && chunks@[i].index == i
                    && chunks@[i].path@ == path@ by {
                assert(chunk_views(chunks@)[i] == chunk_view(chunks@[i]));
            }
            Ok(chunks)
        },
    }
}

/// Chunk every note file, in order, failing on the first one whose path is not UTF-8 or
/// that could not be read: silently skipping it would make search results silently
/// incomplete later.
pub fn collect_chunks(files: &Vec<NoteFile>) -> (r: Result<Vec<Chunk>, CollectError>)
    ensures
        r is Ok <==> forall|i: int| 0 <= i < files.len() ==> #[trigger] file_ok(files@[i]),
        r matches Ok(chunks) ==> chunk_views(chunks@) == all_chunks(files@),
        r matches Err(e) ==> exists|i: int|
            0 <= i < files.len() && (forall|j: int| 0 <= j < i ==> #[trigger] file_ok(files@[j]))
                && error_for(#[trigger] files@[i], e),
{
    let mut all: Vec<Chunk> = Vec::new();
    let n = files.len();
    assert(files@.take(0) =~= seq![]);
    assert(chunk_views(all@) =~= seq![]);
    for i in 0..n
        invariant
            n == files.len(),
            forall|j: int| 0 <= j < i ==> #[trigger] file_ok(files@[j]),
            chunk_views(all@) == all_chunks(files@.take(i as int)),
    {
        let f = &files[i];
        assert(files@.take(i + 1).drop_last() =~= files@.take(i as int));
        assert(files@.take(i + 1).last() == *f);
        match utf8_string(f.path.clone()) {
            None => {
                let ghost fp = f.path@;
                let p = f.path.clone();
                assert(p@ =~= fp);
                let e = CollectError::NonUtf8FileName { bytes: p };
                assert(error_for(files@[i as int], e));
                assert(!file_ok(files@[i as int]));
                return Err(e);
            },
            Some(p) => {
                proof {
                    vstd::utf8::encode_utf8_decode_utf8(p@);
                }
                assert(p@ == decode_utf8(f.path@));
                match read_and_chunk(p.as_str(), &f.content) {
                    Err(e) => {
                        assert(error_for(files@[i as int], e));
                        assert(!file_ok(files@[i as int]));
                        return Err(e);
                    },
                    Ok(mut cs) => {
                        let ghost before = chunk_views(all@);
                        let ghost added = chunk_views(cs@);
                        all.append(&mut cs);
                        assert(chunk_views(all@) =~= before + added);
                    },
                }
            },
        }
    }
    assert(files@.take(n as int) =~= files@);
    Ok(all)
}

/// The chunks of one file are exactly the chunks of its text, in order, each carrying the
/// file's path and its position: nothing is cut, dropped or added.
pub proof fn law_file_chunks_are_its_text_chunks(path: Seq<char>, content: Seq<char>)
    ensures
        file_chunks(path, content).len() == chunks_of(content).len(),
        forall|i: int|
            0 <= i < chunks_of(content).len() ==> #[trigger] file_chunks(path, content)[i] == (
                path,
                i,
                chunks_of(content)[i],
            ),
{
}

/// Collecting is concatenating: no files give no chunks, and one more file keeps the chunks
/// collected so far and appends, after them, every chunk of its text in order, numbered from
/// 0, with its decoded path — as many as its text has, however long the text is.
pub proof fn law_collecting_appends_each_files_chunks(files: Seq<NoteFile>, f: NoteFile)
    ensures
        all_chunks(Seq::<NoteFile>::empty()) == Seq::<(Seq<char>, int, Seq<char>)>::empty(),
        ({
            let before = all_chunks(files);
            let after = all_chunks(files.push(f));
            let cs = chunks_of(file_text(f));
            &&& after.len() == before.len() + cs.len()
            &&& forall|i: int| 0 <= i < before.len() ==> #[trigger] after[i] == before[i]
            &&& forall|i: int|
                0 <= i < cs.len() ==> #[trigger] after[before.len() + i] == (
                    decode_utf8(f.path@),
                    i,
                    cs[i],
                )
        }),
{
    assert(files.push(f).drop_last() =~= files);
    assert(files.push(f).last() == f);
    law_file_chunks_are_its_text_chunks(decode_utf8(f.path@), file_text(f));
}

/// Every collected chunk count adds up: the chunks collected from `files` number the sum of
/// the chunk counts of their texts.
pub proof fn law_collected_count_is_sum(files: Seq<NoteFile>)
    ensures
        all_chunks(files).len() == chunk_count_sum(files),
    decreases files.len(),
{
    if files.len() > 0 {
        law_collected_count_is_sum(files.drop_last());
        law_collecting_appends_each_files_chunks(files.drop_last(), files.last());
        assert(files.drop_last().push(files.last()) =~= files);
    }
}

/// The sum, over `files`, of the number of chunks of each file's text.
pub open spec fn chunk_count_sum(files: Seq<NoteFile>) -> int
    decreases files.len(),
{
    if files.len() == 0 {
        0
    } else {
        chunk_count_sum(files.drop_last()) + chunks_of(file_text(files.last())).len()
    }
}

} // verus!
