use igrep::builder::{AbsPath, Buuilder, FileContent, FileIndexBuilder};
use igrep::data::{FileData, IndexData};
use igrep::index::{FileIndex, LineIndex};
use igrep::search::{build_tree, verify_candidates, Engine, OneSearchFileIndex, RegexIr};

fn build_store(files: &[(&str, &[&str])], n: u8) -> (IndexData, Vec<u8>) {
    let mut fid_builder = FileIndexBuilder::new();
    for (path, _) in files {
        fid_builder.insert(&AbsPath::new(path.to_string())).unwrap();
    }
    let frozen = fid_builder.make_final();
    let mut items = Vec::new();
    for (path, lines) in files {
        let content = FileContent::new(
            AbsPath::new(path.to_string()),
            lines.iter().map(|l| l.to_string()).collect(),
        );
        items.push(Buuilder::index(&frozen, content, n).unwrap());
    }
    let mut encode = Buuilder::merge(n, items);
    encode.dump().unwrap()
}

fn slice(blob: &[u8], start: u64, len: u32) -> Vec<u8> {
    blob[start as usize..(start + len as u64) as usize].to_vec()
}

/// Runs stages 1 to 3 of a query and returns the grouped candidates.
fn candidates(engine: &Engine, blob: &[u8], pattern: &str) -> OneSearchFileIndex {
    let init = engine.init(pattern).unwrap();
    let osni = engine.init_to_ngram_index(init);
    let plan = engine.ngram_ranges(&osni);
    let datas = plan
        .iter()
        .map(|(_, r)| slice(blob, r.0.start, r.0.len))
        .collect::<Vec<_>>();
    let osnd = engine.ngram_index_to_ngram_data(osni, datas).unwrap();
    engine.ngram_data_to_file_lines(osnd)
}

fn lines_of(fi: &OneSearchFileIndex, fid: u32) -> Vec<u32> {
    let mut out = Vec::new();
    for (f, lines) in fi.file_lines_index.iter() {
        if f.id() == fid {
            for l in lines.iter() {
                out.push(l.line_number());
            }
        }
    }
    out.sort();
    out
}

#[test]
fn single_gram_query_finds_its_line() {
    let (idx, blob) = build_store(&[("/srv/a.txt", &["abcdef", "abxyz"])], 3);
    let engine = Engine::new(idx.to_data().unwrap()).unwrap();
    let fi = candidates(&engine, &blob, "abc");
    assert!(!fi.all);
    assert_eq!(lines_of(&fi, 0), vec![1]);

    // stage 4: fetch the file record and the candidate line
    let fr = engine.file_range(&FileIndex::new(0)).unwrap();
    let fd = engine
        .build_file_data(slice(&blob, fr.0.start, fr.0.len))
        .unwrap();
    let picked = fi.file_data(fd, &FileIndex::new(0)).unwrap();
    let (record, lines) = picked.file_resault;
    assert_eq!(record.name(), "/srv/a.txt");
    assert_eq!(lines.len(), 1);
    let lr = record.lines_range(&lines[0]).unwrap();
    let ld = engine
        .build_file_line_data(slice(&blob, lr.0.start, lr.0.len))
        .unwrap();
    assert_eq!(ld.get(), "abcdef");

    // stage 5: the external matcher confirms one span
    let cands = vec![(lines[0], ld)];
    let spans = vec![vec![(0usize, 3usize)]];
    let verified = verify_candidates(&cands, &spans);
    assert_eq!(verified.len(), 1);
    assert_eq!(verified[0].0.line_number(), 1);
    assert_eq!(verified[0].1.get(), "abcdef");
    assert_eq!(verified[0].2, vec![(0, 3)]);
}

#[test]
fn concat_intersection_can_be_empty() {
    let (idx, blob) = build_store(&[("/srv/a.txt", &["abcdef", "abxyz"])], 3);
    let engine = Engine::new(idx.to_data().unwrap()).unwrap();
    let fi = candidates(&engine, &blob, "abcxyz");
    assert!(!fi.all);
    assert!(lines_of(&fi, 0).is_empty());
}

#[test]
fn alternation_takes_the_union() {
    let (idx, blob) = build_store(&[("/srv/a.txt", &["abcdef", "abxyz"])], 3);
    let engine = Engine::new(idx.to_data().unwrap()).unwrap();
    let fi = candidates(&engine, &blob, "abc|xyz");
    assert!(!fi.all);
    assert_eq!(lines_of(&fi, 0), vec![1, 2]);
}

#[test]
fn short_literal_falls_through() {
    let (idx, blob) = build_store(&[("/srv/a.txt", &["abcdef", "abxyz"])], 3);
    let engine = Engine::new(idx.to_data().unwrap()).unwrap();
    let fi = candidates(&engine, &blob, "ab");
    assert!(fi.all);
    assert!(fi.file_lines_index.is_empty());
}

#[test]
fn missing_ngram_gives_empty_result() {
    let (idx, blob) = build_store(&[("/srv/a.txt", &["abcdef", "abxyz"])], 3);
    let engine = Engine::new(idx.to_data().unwrap()).unwrap();
    let fi = candidates(&engine, &blob, "qqq");
    assert!(!fi.all);
    assert!(lines_of(&fi, 0).is_empty());
}

#[test]
fn unbounded_repetition_falls_through() {
    let (idx, blob) = build_store(&[("/srv/a.txt", &["abcdef", "abxyz"])], 3);
    let engine = Engine::new(idx.to_data().unwrap()).unwrap();
    let fi = candidates(&engine, &blob, "ab.*cd");
    assert!(fi.all);
}

#[test]
fn long_literal_with_tail_prunes() {
    let (idx, blob) = build_store(
        &[("/srv/a.txt", &["abcd here", "cwerfasdfd there", "nothing"])],
        3,
    );
    let engine = Engine::new(idx.to_data().unwrap()).unwrap();
    let fi = candidates(&engine, &blob, "abcd.*cwerfasdfd");
    assert!(!fi.all);
}

#[test]
fn is_all_distinguishes_prunable_trees() {
    let short = build_tree(&RegexIr::Literal(b"ab".to_vec()), 3);
    assert!(short.is_all());
    let long = build_tree(&RegexIr::Literal(b"abcd".to_vec()), 3);
    assert!(!long.is_all());
    let alt = build_tree(
        &RegexIr::Alternation(vec![
            RegexIr::Literal(b"abcd".to_vec()),
            RegexIr::Literal(b"xy".to_vec()),
        ]),
        3,
    );
    assert!(alt.is_all());
    let cat = build_tree(
        &RegexIr::Concat(vec![
            RegexIr::Literal(b"abcd".to_vec()),
            RegexIr::Literal(b"xy".to_vec()),
        ]),
        3,
    );
    assert!(!cat.is_all());
}

#[test]
fn repeated_literal_unrolls_its_minimum() {
    let (idx, blob) = build_store(&[("/srv/a.txt", &["abcabc here", "abc alone"])], 3);
    let engine = Engine::new(idx.to_data().unwrap()).unwrap();
    let fi = candidates(&engine, &blob, "(?:abc){2}");
    assert!(!fi.all);
    assert_eq!(lines_of(&fi, 0), vec![1]);
}

#[test]
fn absent_leaf_does_not_shift_the_pairing() {
    // one alternation branch is entirely absent from the index; the other
    // branch's posting must still be credited to its own n-gram
    let (idx, blob) = build_store(&[("/srv/a.txt", &["xyz here", "nothing"])], 3);
    let engine = Engine::new(idx.to_data().unwrap()).unwrap();
    let fi = candidates(&engine, &blob, "xyz|qqqxyz");
    assert!(!fi.all);
    assert_eq!(lines_of(&fi, 0), vec![1]);
}

#[test]
fn malformed_pattern_is_refused() {
    let (idx, _blob) = build_store(&[("/srv/a.txt", &["abcdef"])], 3);
    let engine = Engine::new(idx.to_data().unwrap()).unwrap();
    assert!(engine.init("a(b").is_err());
}

#[test]
fn verification_keeps_only_matched_lines() {
    let cands = vec![
        (
            LineIndex::new(1),
            igrep::data::FileLineData::new("first".to_string()),
        ),
        (
            LineIndex::new(2),
            igrep::data::FileLineData::new("second".to_string()),
        ),
        (
            LineIndex::new(3),
            igrep::data::FileLineData::new("third".to_string()),
        ),
    ];
    let spans = vec![vec![(0usize, 2usize)], vec![], vec![(1, 3), (4, 5)]];
    let verified = verify_candidates(&cands, &spans);
    assert_eq!(verified.len(), 2);
    assert_eq!(verified[0].0.line_number(), 1);
    assert_eq!(verified[1].0.line_number(), 3);
    assert_eq!(verified[1].2, vec![(1, 3), (4, 5)]);
}

#[test]
fn two_files_are_kept_apart() {
    let (idx, blob) = build_store(
        &[
            ("/srv/a.txt", &["needle one"]),
            ("/srv/b.txt", &["no match", "a needle here"]),
        ],
        3,
    );
    let engine = Engine::new(idx.to_data().unwrap()).unwrap();
    let fi = candidates(&engine, &blob, "needle");
    assert!(!fi.all);
    assert_eq!(lines_of(&fi, 0), vec![1]);
    assert_eq!(lines_of(&fi, 1), vec![2]);

    // each file record still carries its own path
    let fr = engine.file_range(&FileIndex::new(1)).unwrap();
    let fd: FileData = engine
        .build_file_data(slice(&blob, fr.0.start, fr.0.len))
        .unwrap();
    assert_eq!(fd.name(), "/srv/b.txt");
}
