use semsearch::embed_input::{
    cache_dir, document_input, document_inputs, query_input, DOCUMENT_PREFIX, QUERY_PREFIX,
};

#[test]
fn prefixes() {
    assert_eq!(DOCUMENT_PREFIX, "search_document: ");
    assert_eq!(QUERY_PREFIX, "search_query: ");
    assert_eq!(document_input("rust notes"), "search_document: rust notes");
    assert_eq!(query_input("how to embed"), "search_query: how to embed");
    assert_eq!(query_input(""), "search_query: ");
}

#[test]
fn batch_of_documents() {
    assert_eq!(
        document_inputs(&["a", "b c"]),
        vec!["search_document: a".to_string(), "search_document: b c".to_string()]
    );
    assert!(document_inputs(&[]).is_empty());
}

#[test]
fn cache_dir_under_home() {
    assert_eq!(cache_dir(Some(b"/home/u".to_vec())), Some(b"/home/u/.cache/semsearch".to_vec()));
    assert_eq!(cache_dir(Some(b"/home/u/".to_vec())), Some(b"/home/u/.cache/semsearch".to_vec()));
    assert_eq!(cache_dir(Some(b"/".to_vec())), Some(b"/.cache/semsearch".to_vec()));
    assert_eq!(cache_dir(Some(Vec::new())), None);
    assert_eq!(cache_dir(None), None);
}

#[test]
fn cache_dir_matches_path_join() {
    for home in ["/home/u", "/home/u/", "/", "rel", "/a//"] {
        let joined = std::path::PathBuf::from(home).join(".cache/semsearch");
        assert_eq!(
            cache_dir(Some(home.as_bytes().to_vec())),
            Some(joined.to_str().unwrap().as_bytes().to_vec()),
            "{home}"
        );
    }
}
