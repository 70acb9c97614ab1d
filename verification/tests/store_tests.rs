use igrep::builder::{AbsPath, Buuilder, FileContent, FileIndexBuilder};
use igrep::config::Config;
use igrep::data::{FileData, FileLineData, IndexData, NgramData};
use igrep::index::{FileIndex, FileLineIndex, LineIndex, NgramIndex};

fn build_store(files: &[(&str, &[&str])], n: u8) -> (IndexData, Vec<u8>) {
    let mut fid_builder = FileIndexBuilder::new();
    for (path, _) in files {
        fid_builder.insert(&AbsPath::new(path.to_string())).unwrap();
    }
    let frozen = fid_builder.make_final();
    let mut items = Vec::new();
    for (path, lines) in files {
        let content = FileContent::new(
            AbsPath::new(path.to_string()),
            lines.iter().map(|l| l.to_string()).collect(),
        );
        items.push(Buuilder::index(&frozen, content, n).unwrap());
    }
    let mut encode = Buuilder::merge(n, items);
    encode.dump().unwrap()
}

fn slice(blob: &[u8], start: u64, len: u32) -> Vec<u8> {
    blob[start as usize..(start + len as u64) as usize].to_vec()
}

#[test]
fn store_round_trip_recovers_every_line() {
    let (idx, blob) = build_store(&[("/srv/a.txt", &["abcdef", "abxyz"])], 3);
    assert_eq!(idx.ngram_len(), 3);
    let fr = idx.get_file_range(&FileIndex::new(0)).unwrap();
    let fd = FileData::from_data(slice(&blob, fr.0.start, fr.0.len)).unwrap();
    assert_eq!(fd.name(), "/srv/a.txt");
    for (lineno, text) in [(1u32, "abcdef"), (2u32, "abxyz")] {
        let lr = fd.lines_range(&LineIndex::new(lineno)).unwrap();
        let ld = FileLineData::from_data(slice(&blob, lr.0.start, lr.0.len)).unwrap();
        assert_eq!(ld.get(), text);
    }
}

#[test]
fn posting_round_trip_recovers_positions() {
    let (idx, blob) = build_store(&[("/srv/a.txt", &["abcdef", "abxyz"])], 3);
    let nr = idx.get_ngram_range(&NgramIndex::new(b"abc")).unwrap();
    let nd = NgramData::from_data(slice(&blob, nr.0.start, nr.0.len)).unwrap();
    let positions = nd.file_lines();
    assert_eq!(positions.len(), 1);
    assert_eq!(positions[0].file_id().id(), 0);
    assert_eq!(positions[0].line_id().line_number(), 1);

    let nr2 = idx.get_ngram_range(&NgramIndex::new(b"abx")).unwrap();
    let nd2 = NgramData::from_data(slice(&blob, nr2.0.start, nr2.0.len)).unwrap();
    let positions2 = nd2.file_lines();
    assert_eq!(positions2.len(), 1);
    assert_eq!(positions2[0].line_id().line_number(), 2);
}

#[test]
fn same_input_builds_identical_artifacts() {
    let files: &[(&str, &[&str])] = &[
        ("/srv/a.txt", &["abcdef", "abxyz"]),
        ("/srv/b.txt", &["hello world", "hello again"]),
    ];
    let (idx1, blob1) = build_store(files, 3);
    let (idx2, blob2) = build_store(files, 3);
    assert_eq!(blob1, blob2);
    assert_eq!(idx1.to_data().unwrap(), idx2.to_data().unwrap());
}

#[test]
fn index_map_round_trips_through_its_artifact() {
    let (idx, _blob) = build_store(&[("/srv/a.txt", &["abcdef"])], 3);
    let bytes = idx.to_data().unwrap();
    let back = IndexData::from_data(bytes).unwrap();
    assert_eq!(back.ngram_len(), 3);
    assert_eq!(back.file_count(), idx.file_count());
    assert_eq!(back.ngram_count(), idx.ngram_count());
    let a = idx.get_ngram_range(&NgramIndex::new(b"abc")).unwrap();
    let b = back.get_ngram_range(&NgramIndex::new(b"abc")).unwrap();
    assert_eq!(a.0.start, b.0.start);
    assert_eq!(a.0.len, b.0.len);
}

#[test]
fn line_record_round_trips() {
    let record = FileLineData::new("some line of text".to_string());
    let data = record.to_data().unwrap();
    let back = FileLineData::from_data(data).unwrap();
    assert_eq!(back.get(), "some line of text");
}

#[test]
fn records_are_really_compressed() {
    let text = "a".repeat(1000);
    let record = FileLineData::new(text);
    let data = record.to_data().unwrap();
    // the encoded record is the count prefix plus 1000 bytes; the deflate
    // stream of such a run must be far smaller
    assert!(data.len() < 500);
    let back = FileLineData::from_data(data).unwrap();
    assert_eq!(back.get().len(), 1000);
}

#[test]
fn corrupt_record_is_refused() {
    assert!(FileLineData::from_data(vec![1, 2, 3, 4]).is_err());
    assert!(IndexData::from_data(vec![255, 254, 253]).is_err());
}

#[test]
fn grouped_posting_keeps_membership() {
    let pairs = vec![
        FileLineIndex::new(FileIndex::new(0), LineIndex::new(1)),
        FileLineIndex::new(FileIndex::new(1), LineIndex::new(2)),
        FileLineIndex::new(FileIndex::new(0), LineIndex::new(3)),
    ];
    let nd = NgramData::new(&pairs);
    let mut flat = nd
        .file_lines()
        .iter()
        .map(|x| (x.file_id().id(), x.line_id().line_number()))
        .collect::<Vec<_>>();
    flat.sort();
    assert_eq!(flat, vec![(0, 1), (0, 3), (1, 2)]);
}

#[test]
fn empty_file_still_has_a_record() {
    let (idx, blob) = build_store(&[("/srv/empty.txt", &[])], 3);
    let fr = idx.get_file_range(&FileIndex::new(0)).unwrap();
    let fd = FileData::from_data(slice(&blob, fr.0.start, fr.0.len)).unwrap();
    assert_eq!(fd.name(), "/srv/empty.txt");
    assert_eq!(fd.lines_len(), 0);
    assert_eq!(idx.ngram_count(), 0);
}

#[test]
fn single_byte_ngrams_are_allowed() {
    let (idx, blob) = build_store(&[("/srv/a.txt", &["ab"])], 1);
    assert_eq!(idx.ngram_len(), 1);
    let nr = idx.get_ngram_range(&NgramIndex::new(b"a")).unwrap();
    let nd = NgramData::from_data(slice(&blob, nr.0.start, nr.0.len)).unwrap();
    assert_eq!(nd.file_lines().len(), 1);
}

#[test]
fn config_keeps_its_path() {
    let cfg = Config::new("path/to/config".to_string());
    assert_eq!(cfg.path(), "path/to/config");
}
