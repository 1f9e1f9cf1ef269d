//! What is handed to the embedding model, and where its files are cached.

use vstd::prelude::*;

verus! {

/// nomic-embed-text-v1.5 was fine-tuned with task prefixes: a passage to be indexed is
/// embedded as this prefix followed by its text.
pub const DOCUMENT_PREFIX: &'static str = "search_document: ";

/// A search query is embedded as this prefix followed by its text.
pub const QUERY_PREFIX: &'static str = "search_query: ";

/// The model input for a passage: the document prefix followed by the passage.
pub fn document_input(text: &str) -> (r: String)
    ensures
        r@ == DOCUMENT_PREFIX@ + text@,
{
    let mut r = DOCUMENT_PREFIX.to_owned();
    r.append(text);
    r
}

/// The model input for a search query: the query prefix followed by the query.
pub fn query_input(text: &str) -> (r: String)
    ensures
        r@ == QUERY_PREFIX@ + text@,
{
    let mut r = QUERY_PREFIX.to_owned();
    r.append(text);
    r
}

/// The model inputs for a batch of passages, in order.
pub fn document_inputs(texts: &[&str]) -> (r: Vec<String>)
    ensures
        r.len() == texts.len(),
        forall|i: int| 0 <= i < texts.len() ==> #[trigger] r@[i]@ == DOCUMENT_PREFIX@ + texts@[i]@,
{
    let mut r: Vec<String> = Vec::new();
    let n = texts.len();
    for i in 0..n
        invariant
            n == texts.len(),
            r.len() == i,
            forall|j: int| 0 <= j < i ==> #[trigger] r@[j]@ == DOCUMENT_PREFIX@ + texts@[j]@,
    {
        r.push(document_input(texts[i]));
    }
    r
}

/// The directory, under the home directory, where the model is cached: `.cache/semsearch`.
pub open spec fn cache_subdir() -> Seq<u8> {
    seq![46u8, 99, 97, 99, 104, 101, 47, 115, 101, 109, 115, 101, 97, 114, 99, 104]
}

/// The model cache directory for the home directory `home` (the bytes of `$HOME`): `None`
/// when `HOME` is unset or empty, since an empty one would give a relative directory;
/// otherwise `.cache/semsearch` joined to it as `PathBuf::join` does, with a `/` between
/// unless `home` already ends with one.
pub fn cache_dir(home: Option<Vec<u8>>) -> (r: Option<Vec<u8>>)
    ensures
        match home {
            None => r is None,
            Some(h) => if h@.len() == 0 {
                r is None
            } else if h@.last() == 47u8 {
                r matches Some(d) && d@ == h@ + cache_subdir()
            } else {
                r matches Some(d) && d@ == h@.push(47u8) + cache_subdir()
            },
        },
{
    match home {
        None => None,
        Some(h) => {
            let n = h.len();
            if n == 0 {
                return None;
            }
            let mut d = h;
            let ghost base = d@;
            if d[n - 1] != 47u8 {
                d.push(47u8);
            }
            let ghost joined = d@;
            let sub: Vec<u8> = vec![46u8, 99, 97, 99, 104, 101, 47, 115, 101, 109, 115, 101, 97, 114, 99, 104];
            assert(sub@ =~= cache_subdir());
            let m = sub.len();
            for i in 0..m
                invariant
                    m == sub.len(),
                    sub@ == cache_subdir(),
                    d@ == joined + sub@.take(i as int),
            {
                d.push(sub[i]);
                assert(sub@.take(i + 1) =~= sub@.take(i as int).push(sub@[i as int]));
            }
            assert(sub@.take(m as int) =~= sub@);
            Some(d)
        },
    }
}

} // verus!
