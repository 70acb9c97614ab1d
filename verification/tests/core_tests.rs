use std::collections::HashSet;

use igrep::builder::{AbsPath, Buuilder, FileContent, FileIndexBuilder};
use igrep::error::IgrepError;
use igrep::index::{LineIndex, NgramIndex};

#[test]
fn test_ngram_index_from_str() {
    let ngrams = NgramIndex::from_str("hello".as_bytes(), 3);
    let ngrams = ngrams.into_iter().collect::<HashSet<_>>();
    assert_eq!(ngrams.len(), 3);
    let expected = HashSet::from([
        NgramIndex::new("hel".as_bytes()),
        NgramIndex::new("ell".as_bytes()),
        NgramIndex::new("llo".as_bytes()),
    ]);
    assert_eq!(ngrams, expected);
}

#[test]
fn test_ngram_index_new() {
    let ngram = NgramIndex::new(b"abc");
    assert_eq!(ngram, NgramIndex::new("abc".as_bytes()));
}

#[test]
fn test_file_content_new() {
    let file_content = FileContent::new(
        AbsPath::new("test/textfile".to_string()),
        vec!["123456789".to_string(), "98765".to_string()],
    );
    assert!(!file_content.lines().is_empty());
    assert!(file_content.get_line(0).is_none());
    assert!(file_content.get_line(1).is_some());
}

#[test]
fn test_file_line() {
    let content = FileContent::new(
        AbsPath::new("test/textfile".to_string()),
        vec!["123456789".to_string(), "98765".to_string()],
    );
    assert_eq!(content.get_line(2).unwrap(), "98765");
}

#[test]
fn test_index() {
    let mut fid_builder = FileIndexBuilder::new();
    let path = AbsPath::new("test/file".to_string());
    fid_builder.insert(&path).unwrap();
    let fid_builder = fid_builder.make_final();
    let content = FileContent::new(
        AbsPath::new("test/file".to_string()),
        vec!["123456789".to_string(), "98765".to_string()],
    );
    let (fid, _content, map) = Buuilder::index(&fid_builder, content, 3).unwrap();
    assert_eq!(fid.id(), 0);
    let wanted = NgramIndex::new(&[51, 52, 53]);
    let entry = map.iter().find(|(g, _)| *g == wanted).unwrap();
    assert_eq!(entry.1.len(), 1);
    assert_eq!(entry.1[0].line_number(), 1);
}

#[test]
fn sorted_ngrams_of_a_line() {
    let grams = NgramIndex::from_str(b"abcdef", 3);
    let views: Vec<&[u8]> = grams.iter().map(|g| g.bytes().as_slice()).collect();
    assert_eq!(views, vec![b"abc".as_slice(), b"bcd", b"cde", b"def"]);
}

#[test]
fn short_line_has_no_ngrams() {
    assert!(NgramIndex::from_str(b"ab", 3).is_empty());
}

#[test]
fn repeated_windows_are_deduplicated() {
    let grams = NgramIndex::from_str(b"aaaa", 2);
    assert_eq!(grams.len(), 1);
    assert_eq!(grams[0].bytes().as_slice(), b"aa");
}

#[test]
fn zero_line_number_is_rejected() {
    assert!(LineIndex::try_new(0).is_none());
    assert_eq!(LineIndex::try_new(1).unwrap().line_number(), 1);
}

#[test]
fn abs_path_keeps_what_it_is_given() {
    // canonicalization happens at the caller's edge; the wrapper itself
    // stores and returns the path unchanged
    let p = AbsPath::new("/srv/../srv/corpus/a.txt".to_string());
    assert_eq!(p.path(), "/srv/../srv/corpus/a.txt");
    let q = p.duplicate();
    assert_eq!(q.path(), p.path());
    assert_eq!(p, q);
}

#[test]
fn duplicate_register_is_refused() {
    let mut fid_builder = FileIndexBuilder::new();
    let path = AbsPath::new("/srv/corpus/a.txt".to_string());
    assert!(fid_builder.insert(&path).is_ok());
    let again = AbsPath::new("/srv/corpus/a.txt".to_string());
    assert_eq!(fid_builder.insert(&again), Err(IgrepError::AlreadyExists));
    assert_eq!(fid_builder.len(), 1);
}

#[test]
fn registration_allocates_dense_ids() {
    let mut fid_builder = FileIndexBuilder::new();
    fid_builder.insert(&AbsPath::new("/a".to_string())).unwrap();
    fid_builder.insert(&AbsPath::new("/b".to_string())).unwrap();
    let frozen = fid_builder.make_final();
    assert_eq!(frozen.get(&AbsPath::new("/a".to_string())).unwrap().id(), 0);
    assert_eq!(frozen.get(&AbsPath::new("/b".to_string())).unwrap().id(), 1);
    assert!(frozen.get(&AbsPath::new("/c".to_string())).is_none());
    assert_eq!(frozen.files().len(), 2);
}

#[test]
fn error_messages_name_their_kind() {
    assert_eq!(IgrepError::AlreadyExists.message(), "already exists");
    assert_eq!(IgrepError::BadPattern.message(), "bad pattern");
    assert_eq!(IgrepError::CorruptIndex.message(), "corrupt index");
    assert_eq!(IgrepError::IoError.message(), "io error");
}
