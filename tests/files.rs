use chunk_translate::api::{chunk_request, Input, RequestData};
use chunk_translate::files::{check_document, get_filename, remove_extension, DocumentError, PathError};
use chunk_translate::progress::{
    config_file_name, default_term_path, output_key_or_default, resume_lines,
    translation_file_name, term_file_name,
};

#[test]
fn removes_extension() {
    assert_eq!(remove_extension("book.txt"), "book");
    assert_eq!(remove_extension("archive.tar.gz"), "archive.tar");
    assert_eq!(remove_extension("plain"), "plain");
}

#[test]
fn gets_file_name() {
    assert_eq!(get_filename("dir/sub/book.txt"), Ok("book.txt".to_string()));
    assert_eq!(get_filename(".."), Err(PathError::NotFound));
}

#[test]
fn checks_documents_by_extension() {
    assert_eq!(check_document("t.txt", "x".to_string()), Ok("x".to_string()));
    assert_eq!(check_document("t.json", "{\"a\":1}".to_string()), Ok("{\"a\":1}".to_string()));
    assert_eq!(check_document("t.json", "{".to_string()), Err(DocumentError::Invalid));
    assert_eq!(check_document("t.toml", "a = 1".to_string()), Ok("a = 1".to_string()));
    assert_eq!(check_document("t.toml", "a = ".to_string()), Err(DocumentError::Invalid));
    assert_eq!(check_document("t.yml", "a: 1".to_string()), Ok("a: 1".to_string()));
    assert_eq!(check_document("t.yaml", "a: [".to_string()), Err(DocumentError::Invalid));
    assert_eq!(check_document("t.csv", "a".to_string()), Err(DocumentError::Unsupported));
    assert_eq!(check_document("noext", "a".to_string()), Err(DocumentError::Unsupported));
}

#[test]
fn file_names() {
    assert_eq!(translation_file_name("book", "zh", "en"), "book_zh2en.txt");
    assert_eq!(term_file_name("book"), "book_term.txt");
    assert_eq!(config_file_name("book"), "book.json");
    assert_eq!(default_term_path("book"), "term\\book_term.txt");
}

#[test]
fn output_key_default() {
    assert_eq!(output_key_or_default(""), "output");
    assert_eq!(output_key_or_default("text"), "text");
}

#[test]
fn resume_line_arithmetic() {
    assert_eq!(resume_lines(4, 3, 2), Some(10));
    assert_eq!(resume_lines(0, 0, 5), Some(0));
    assert_eq!(resume_lines(usize::MAX, 1, 1), None);
    assert_eq!(resume_lines(0, usize::MAX, 2), None);
}

#[test]
fn builds_requests() {
    let r = chunk_request("en", "zh", "terms", "hello".to_string());
    assert_eq!(r.user, "fww");
    assert_eq!(r.response_mode, "streaming");
    assert_eq!(r.inputs.source_text, "hello");
    assert_eq!(r.inputs.target_lang, "en");
    let i = Input::new("a", "b".to_string(), "c", "d");
    let d = RequestData::new(i, "blocking", "u");
    assert_eq!((d.inputs.source_lang, d.inputs.term, d.user), ("c", "d", "u"));
}
