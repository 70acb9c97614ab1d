//! The serializer. It lays the records out as the store's two artifacts:
//! the content blob, written line records first, file records second,
//! n-gram postings last, and the index map that points into the blob.
//! Every record of the blob is an independently compressed deflate
//! stream framed only by its recorded byte range.

use vstd::prelude::*;

use crate::assoc::{
    lemma_lookup_u32_characterized, lemma_lookup_u32_push, lemma_lookup_u32_unique,
    lemma_lookup_u32_update, lookup_bytes, lookup_u32, unique_keys_bytes, unique_keys_u32,
};
use crate::builder::FileContent;
use crate::codec::{
    enc_file_record, enc_line_record, enc_ngram_record, file_record_of, line_record_of,
    ngram_record_of, posting_lines_nonzero,
};
use crate::compress::deflate_of;
use crate::data::{
    group_postings, posting_contains, FileData, FileLineData, IndexData, NgramData,
};
use crate::error::IgrepError;
use crate::index::{FileIndex, FileLineIndex, LineIndex, NgramIndex};
use crate::range::{FileLineRange, FileRange, NgramRange, Range};

verus! {

/// The lines of one file, keyed 1-based.
pub open spec fn file_lines_of(fid: u32, lines: Seq<Seq<char>>) -> Seq<((u32, u32), Seq<char>)> {
    Seq::new(lines.len(), |j: int| ((fid, (j + 1) as u32), lines[j]))
}

/// All lines of all files, in file order then line order.
pub open spec fn all_file_lines(files: Seq<(u32, Seq<Seq<char>>)>) -> Seq<((u32, u32), Seq<char>)>
    decreases files.len(),
{
    if files.len() == 0 {
        Seq::empty()
    } else {
        all_file_lines(files.drop_last()) + file_lines_of(files.last().0, files.last().1)
    }
}

/// The bytes of the blob a range points at.
pub open spec fn slice_at(blob: Seq<u8>, r: (u64, u32)) -> Seq<u8> {
    blob.subrange(r.0 as int, r.0 + r.1)
}

/// Whether a range lies inside the blob.
pub open spec fn range_in(blob: Seq<u8>, r: (u64, u32)) -> bool {
    r.0 + r.1 <= blob.len()
}

/// The round trip of the store: following the index map's ranges through
/// the blob recovers the given line of the given file byte-for-byte.
pub open spec fn line_recoverable(
    files: Seq<(u32, (u64, u32))>,
    blob: Seq<u8>,
    f: u32,
    l: u32,
    text: Seq<char>,
) -> bool {
    match lookup_u32(files, f) {
        None => false,
        Some(fr) => range_in(blob, fr) && match file_record_of(slice_at(blob, fr)) {
            None => false,
            Some((name, entries)) => match lookup_u32(entries, l) {
                None => false,
                Some(lr) => range_in(blob, lr) && line_record_of(slice_at(blob, lr)) == Some(
                    text,
                ),
            },
        },
    }
}

/// Following an n-gram's range through the blob recovers its posting.
pub open spec fn posting_recoverable(
    ngrams: Seq<(Seq<u8>, (u64, u32))>,
    blob: Seq<u8>,
    g: Seq<u8>,
    p: Seq<(u32, Seq<u32>)>,
) -> bool {
    match lookup_bytes(ngrams, g) {
        None => false,
        Some(nr) => range_in(blob, nr) && ngram_record_of(slice_at(blob, nr)) == Some(p),
    }
}

/// A slice below a preserved prefix is itself preserved.
pub proof fn lemma_prefix_slice(older: Seq<u8>, newer: Seq<u8>, r: (u64, u32))
    requires
        older.len() <= newer.len(),
        newer.subrange(0, older.len() as int) == older,
        range_in(older, r),
    ensures
        slice_at(newer, r) == slice_at(older, r),
{
    assert(slice_at(newer, r) =~= slice_at(older, r)) by {
        assert forall|i: int| 0 <= i < r.1 implies #[trigger] slice_at(newer, r)[i] == slice_at(
            older,
            r,
        )[i] by {
            assert(newer.subrange(0, older.len() as int)[r.0 + i] == older[r.0 + i]);
        }
    }
}

/// The path-record view of a raw vector.
pub open spec fn paths_view_of(v: Seq<(FileIndex, FileData)>) -> Seq<
    (u32, (Seq<char>, Seq<(u32, (u64, u32))>)),
> {
    v.map_values(|p: (FileIndex, FileData)| (p.0@, (p.1.name_spec(), p.1.entries())))
}

/// The line-record view of a raw vector.
pub open spec fn lines_view_of(v: Seq<(FileLineIndex, FileLineData)>) -> Seq<
    ((u32, u32), Seq<char>),
> {
    v.map_values(|p: (FileLineIndex, FileLineData)| (p.0@, p.1@))
}

/// The posting-record view of a raw vector.
pub open spec fn posts_view_of(v: Seq<(NgramIndex, NgramData)>) -> Seq<
    (Seq<u8>, Seq<(u32, Seq<u32>)>),
> {
    v.map_values(|p: (NgramIndex, NgramData)| (p.0@, p.1.posting()))
}

// ---------------------------------------------------------------------
// The writer's layout, as a function of the store's records. `dump`
// emits exactly these bytes and records exactly these ranges, so a
// build is deterministic byte for byte.
// ---------------------------------------------------------------------

/// The compressed line records, in emission order.
pub open spec fn line_recs(lines: Seq<((u32, u32), Seq<char>)>) -> Seq<Seq<u8>> {
    Seq::new(lines.len(), |k: int| deflate_of(enc_line_record(lines[k].1)))
}

/// The records of one section, concatenated in emission order.
pub open spec fn concat_recs(rs: Seq<Seq<u8>>) -> Seq<u8>
    decreases rs.len(),
{
    if rs.len() == 0 {
        Seq::empty()
    } else {
        concat_recs(rs.drop_last()) + rs.last()
    }
}

/// Where a record starts within its section: ranges are contiguous from
/// the section's base.
pub open spec fn rec_offset(rs: Seq<Seq<u8>>, k: int) -> nat {
    concat_recs(rs.take(k)).len()
}

/// The line map of one file: its lines in order, each with the range of
/// its compressed record within the line section.
pub open spec fn entries_spec(
    lines: Seq<((u32, u32), Seq<char>)>,
    f: u32,
    upto: int,
) -> Seq<(u32, (u64, u32))>
    decreases upto,
{
    if upto <= 0 {
        Seq::empty()
    } else {
        entries_spec(lines, f, upto - 1) + (if lines[upto - 1].0.0 == f {
            seq![
                (
                    lines[upto - 1].0.1,
                    (
                        rec_offset(line_recs(lines), upto - 1) as u64,
                        line_recs(lines)[upto - 1].len() as u32,
                    ),
                ),
            ]
        } else {
            Seq::empty()
        })
    }
}

/// The compressed file records, in emission order, each carrying its
/// file's full line map.
pub open spec fn file_recs(
    paths: Seq<(u32, (Seq<char>, Seq<(u32, (u64, u32))>))>,
    lines: Seq<((u32, u32), Seq<char>)>,
) -> Seq<Seq<u8>> {
    Seq::new(
        paths.len(),
        |j: int|
            deflate_of(
                enc_file_record(paths[j].1.0, entries_spec(lines, paths[j].0, lines.len() as int)),
            ),
    )
}

/// The compressed posting records, in emission order.
pub open spec fn post_recs(posts: Seq<(Seq<u8>, Seq<(u32, Seq<u32>)>)>) -> Seq<Seq<u8>> {
    Seq::new(posts.len(), |j: int| deflate_of(enc_ngram_record(posts[j].1)))
}

/// The whole content blob: lines, then file records, then postings.
pub open spec fn blob_spec(
    lines: Seq<((u32, u32), Seq<char>)>,
    paths: Seq<(u32, (Seq<char>, Seq<(u32, (u64, u32))>))>,
    posts: Seq<(Seq<u8>, Seq<(u32, Seq<u32>)>)>,
) -> Seq<u8> {
    concat_recs(line_recs(lines)) + concat_recs(file_recs(paths, lines)) + concat_recs(
        post_recs(posts),
    )
}

/// The file map the writer records: one contiguous range per file, in
/// path-record order after the line section.
pub open spec fn files_spec(
    paths: Seq<(u32, (Seq<char>, Seq<(u32, (u64, u32))>))>,
    lines: Seq<((u32, u32), Seq<char>)>,
) -> Seq<(u32, (u64, u32))> {
    Seq::new(
        paths.len(),
        |j: int|
            (
                paths[j].0,
                (
                    (concat_recs(line_recs(lines)).len() + rec_offset(
                        file_recs(paths, lines),
                        j,
                    )) as u64,
                    file_recs(paths, lines)[j].len() as u32,
                ),
            ),
    )
}

/// The posting map the writer records, after the file section.
pub open spec fn ngrams_spec(
    paths: Seq<(u32, (Seq<char>, Seq<(u32, (u64, u32))>))>,
    lines: Seq<((u32, u32), Seq<char>)>,
    posts: Seq<(Seq<u8>, Seq<(u32, Seq<u32>)>)>,
) -> Seq<(Seq<u8>, (u64, u32))> {
    Seq::new(
        posts.len(),
        |j: int|
            (
                posts[j].0,
                (
                    (concat_recs(line_recs(lines)).len() + concat_recs(
                        file_recs(paths, lines),
                    ).len() + rec_offset(post_recs(posts), j)) as u64,
                    post_recs(posts)[j].len() as u32,
                ),
            ),
    )
}

/// When the writer succeeds: every compressed record fits its 32-bit
/// length field and the blob fits 64-bit offsets.
pub open spec fn dump_ok(
    lines: Seq<((u32, u32), Seq<char>)>,
    paths: Seq<(u32, (Seq<char>, Seq<(u32, (u64, u32))>))>,
    posts: Seq<(Seq<u8>, Seq<(u32, Seq<u32>)>)>,
) -> bool {
    &&& forall|k: int|
        0 <= k < lines.len() ==> (#[trigger] line_recs(lines)[k]).len() <= u32::MAX
    &&& forall|j: int|
        0 <= j < paths.len() ==> (#[trigger] file_recs(paths, lines)[j]).len() <= u32::MAX
    &&& forall|j: int|
        0 <= j < posts.len() ==> (#[trigger] post_recs(posts)[j]).len() <= u32::MAX
    &&& blob_spec(lines, paths, posts).len() <= u64::MAX
}

/// A section holds each of its records past that record's offset.
proof fn lemma_concat_recs_bound(rs: Seq<Seq<u8>>, k: int)
    requires
        0 <= k < rs.len(),
    ensures
        concat_recs(rs).len() >= rec_offset(rs, k) + rs[k].len(),
    decreases rs.len(),
{
    if k == rs.len() - 1 {
        assert(rs.take(k) =~= rs.drop_last());
    } else {
        assert(rs.drop_last().take(k) =~= rs.take(k));
        assert(rs.drop_last()[k] == rs[k]);
        lemma_concat_recs_bound(rs.drop_last(), k);
    }
}


/// A `(file, line)` key stands in the line list exactly when the file is
/// listed and the line is one of its 1-based line numbers.
pub proof fn lemma_all_file_lines_key(files: Seq<(u32, Seq<Seq<char>>)>, f: u32, l: u32)
    requires
        forall|i: int| 0 <= i < files.len() ==> (#[trigger] files[i]).1.len() < u32::MAX,
    ensures
        (exists|k: int|
            0 <= k < all_file_lines(files).len() && (#[trigger] all_file_lines(files)[k]).0 == (
                f,
                l,
            )) <==> exists|i: int|
            0 <= i < files.len() && (#[trigger] files[i]).0 == f && 1 <= l <= files[i].1.len(),
    decreases files.len(),
{
    if files.len() > 0 {
        assert forall|i: int|
            0 <= i < files.drop_last().len() implies (#[trigger] files.drop_last()[i]).1.len()
            < u32::MAX by {
            assert(files[i].1.len() < u32::MAX);
        }
        lemma_all_file_lines_key(files.drop_last(), f, l);
        let head = all_file_lines(files.drop_last());
        let block = file_lines_of(files.last().0, files.last().1);
        let all = all_file_lines(files);
        assert(all == head + block);
        if exists|k: int| 0 <= k < all.len() && (#[trigger] all[k]).0 == (f, l) {
            let k = choose|k: int| 0 <= k < all.len() && (#[trigger] all[k]).0 == (f, l);
            if k < head.len() {
                assert(head[k].0 == (f, l));
                let i = choose|i: int|
                    0 <= i < files.drop_last().len() && (#[trigger] files.drop_last()[i]).0 == f
                        && 1 <= l <= files.drop_last()[i].1.len();
                assert(files[i] == files.drop_last()[i]);
            } else {
                assert(block[k - head.len()].0 == (files.last().0, (k - head.len() + 1) as u32));
                assert(files[files.len() - 1].0 == f && 1 <= l <= files[files.len() - 1].1.len());
            }
        }
        if exists|i: int|
            0 <= i < files.len() && (#[trigger] files[i]).0 == f && 1 <= l
                <= files[i].1.len() {
            let i = choose|i: int|
                0 <= i < files.len() && (#[trigger] files[i]).0 == f && 1 <= l
                    <= files[i].1.len();
            if i < files.len() - 1 {
                assert(files.drop_last()[i] == files[i]);
                let k = choose|k: int|
                    0 <= k < head.len() && (#[trigger] head[k]).0 == (f, l);
                assert(all[k].0 == (f, l));
            } else {
                assert(block[l - 1].0 == (f, l));
                assert(all[head.len() + l - 1].0 == (f, l));
            }
        }
    }
}

/// The store under construction: every record of both artifacts, ready
/// to be laid out.
pub struct Encode {
    ngram_len: u8,
    file_lines: Vec<(FileLineIndex, FileLineData)>,
    file_paths: Vec<(FileIndex, FileData)>,
    ngrams: Vec<(NgramIndex, NgramData)>,
}

impl Encode {
    /// The configured n-gram length.
    pub closed spec fn n(&self) -> u8 {
        self.ngram_len
    }

    /// Line records keyed by `(file, line)`.
    pub closed spec fn lines_view(&self) -> Seq<((u32, u32), Seq<char>)> {
        lines_view_of(self.file_lines@)
    }

    /// File records: id, path, and the line-range map filled by `dump`.
    pub closed spec fn paths_view(&self) -> Seq<(u32, (Seq<char>, Seq<(u32, (u64, u32))>))> {
        paths_view_of(self.file_paths@)
    }

    /// Posting records keyed by n-gram.
    pub closed spec fn posts_view(&self) -> Seq<(Seq<u8>, Seq<(u32, Seq<u32>)>)> {
        posts_view_of(self.ngrams@)
    }

    /// What `dump` relies on: unique keys everywhere, no zero line
    /// number, every line's file present, and postings that fit the
    /// configured n-gram length.
    pub open spec fn wf(&self) -> bool {
        &&& self.n() >= 1
        &&& unique_keys_u32(self.paths_view())
        &&& forall|i: int, j: int|
            0 <= i < j < self.lines_view().len() ==> (#[trigger] self.lines_view()[i]).0 != (
            #[trigger] self.lines_view()[j]).0
        &&& forall|k: int|
            0 <= k < self.lines_view().len() ==> (#[trigger] self.lines_view()[k]).0.1 != 0
        &&& forall|k: int|
            0 <= k < self.lines_view().len() ==> lookup_u32(
                self.paths_view(),
                (#[trigger] self.lines_view()[k]).0.0,
            ) is Some
        &&& unique_keys_bytes(self.posts_view())
        &&& forall|i: int|
            0 <= i < self.posts_view().len() ==> (#[trigger] self.posts_view()[i]).0.len()
                == self.n()
        &&& forall|i: int|
            0 <= i < self.posts_view().len() ==> posting_lines_nonzero(
                (#[trigger] self.posts_view()[i]).1,
            )
    }

    /// Entries are still empty: nothing has been laid out yet.
    pub open spec fn fresh(&self) -> bool {
        forall|j: int|
            0 <= j < self.paths_view().len() ==> (#[trigger] self.paths_view()[j]).1.1.len() == 0
    }
}

impl Encode {
    /// Assembles the store's records from the merge output: one path
    /// record and one line record per input line, and one posting per
    /// n-gram, its pairs grouped by file.
    pub(crate) fn new(
        ngram_len: u8,
        fid_to_file: Vec<(FileIndex, FileContent)>,
        ngram_to_file_line: Vec<(NgramIndex, Vec<FileLineIndex>)>,
    ) -> (r: Self)
        requires
            ngram_len >= 1,
            unique_keys_u32(
                fid_to_file@.map_values(
                    |p: (FileIndex, FileContent)| (p.0@, (p.1.name_spec(), p.1.lines_spec())),
                ),
            ),
            forall|i: int|
                0 <= i < fid_to_file@.len() ==> (#[trigger] fid_to_file@[i]).1.lines_spec().len()
                    < u32::MAX,
            unique_keys_bytes(
                ngram_to_file_line@.map_values(
                    |p: (NgramIndex, Vec<FileLineIndex>)| (
                        p.0@,
                        p.1@.map_values(|x: FileLineIndex| x@),
                    ),
                ),
            ),
            forall|i: int|
                0 <= i < ngram_to_file_line@.len() ==> (#[trigger] ngram_to_file_line@[i]).0@.len()
                    == ngram_len,
            forall|i: int, k: int|
                0 <= i < ngram_to_file_line@.len() && 0 <= k
                    < ngram_to_file_line@[i].1@.len() ==> (#[trigger] ngram_to_file_line@[i].1@[k])@.1
                    != 0,
        ensures
            r.n() == ngram_len,
            r.paths_view() == fid_to_file@.map_values(
                |p: (FileIndex, FileContent)| (
                    p.0@,
                    (p.1.name_spec(), Seq::<(u32, (u64, u32))>::empty()),
                ),
            ),
            r.lines_view() == all_file_lines(
                fid_to_file@.map_values(|p: (FileIndex, FileContent)| (p.0@, p.1.lines_spec())),
            ),
            r.posts_view() == ngram_to_file_line@.map_values(
                |p: (NgramIndex, Vec<FileLineIndex>)| (
                    p.0@,
                    group_postings(p.1@.map_values(|x: FileLineIndex| x@)),
                ),
            ),
            r.wf(),
            r.fresh(),
    {
        let ghost files = fid_to_file@.map_values(
            |p: (FileIndex, FileContent)| (p.0@, p.1.lines_spec()),
        );
        let nfiles = fid_to_file.len();
        let mut file_paths: Vec<(FileIndex, FileData)> = Vec::new();
        let mut file_lines: Vec<(FileLineIndex, FileLineData)> = Vec::new();
        let mut i: usize = 0;
        proof {
            assert(paths_view_of(file_paths@) =~= Seq::<
                (u32, (Seq<char>, Seq<(u32, (u64, u32))>)),
            >::empty());
            assert(lines_view_of(file_lines@) =~= all_file_lines(files.take(0)));
        }
        while i < nfiles
            invariant
                files == fid_to_file@.map_values(
                    |p: (FileIndex, FileContent)| (p.0@, p.1.lines_spec()),
                ),
                unique_keys_u32(
                    fid_to_file@.map_values(
                        |p: (FileIndex, FileContent)| (
                            p.0@,
                            (p.1.name_spec(), p.1.lines_spec()),
                        ),
                    ),
                ),
                forall|k: int|
                    0 <= k < fid_to_file@.len() ==> (
                    #[trigger] fid_to_file@[k]).1.lines_spec().len() < u32::MAX,
                nfiles == fid_to_file@.len(),
                0 <= i <= nfiles,
                paths_view_of(file_paths@) =~= fid_to_file@.map_values(
                    |p: (FileIndex, FileContent)| (
                        p.0@,
                        (p.1.name_spec(), Seq::<(u32, (u64, u32))>::empty()),
                    ),
                ).take(i as int),
                lines_view_of(file_lines@) == all_file_lines(files.take(i as int)),
                forall|k: int|
                    0 <= k < lines_view_of(file_lines@).len() ==> exists|j: int|
                        0 <= j < i && (#[trigger] lines_view_of(file_lines@)[k]).0.0 == files[j].0,
                forall|k: int|
                    0 <= k < lines_view_of(file_lines@).len() ==> (#[trigger] lines_view_of(file_lines@)[k]).0.1
                        != 0,
                forall|k1: int, k2: int|
                    0 <= k1 < k2 < lines_view_of(file_lines@).len() ==> (#[trigger] lines_view_of(
                        file_lines@,
                    )[k1]).0 != (#[trigger] lines_view_of(file_lines@)[k2]).0,
            decreases nfiles - i,
        {
            let fid = fid_to_file[i].0;
            let content = &fid_to_file[i].1;
            let ghost flines = content.lines_spec();
            proof {
                assert(files[i as int] == (fid@, flines));
            }
            let name_str = String::from_str(content.get_name().path());
            let ghost before_paths = paths_view_of(file_paths@);
            file_paths.push((fid, FileData::new(name_str)));
            proof {
                assert(paths_view_of(file_paths@) =~= before_paths.push(
                    (fid@, (content.name_spec(), Seq::<(u32, (u64, u32))>::empty())),
                ));
                assert(paths_view_of(file_paths@) =~= fid_to_file@.map_values(
                    |p: (FileIndex, FileContent)| (
                        p.0@,
                        (p.1.name_spec(), Seq::<(u32, (u64, u32))>::empty()),
                    ),
                ).take(i + 1));
            }
            let lines_sl = content.lines();
            let nlines = content.lines_len();
            let ghost base = lines_view_of(file_lines@);
            let mut j: usize = 0;
            proof {
                assert(file_lines_of(fid@, flines).take(0) =~= Seq::<
                    ((u32, u32), Seq<char>),
                >::empty());
                assert(base + file_lines_of(fid@, flines).take(0) =~= base);
            }
            while j < nlines
                invariant
                    files == fid_to_file@.map_values(
                        |p: (FileIndex, FileContent)| (p.0@, p.1.lines_spec()),
                    ),
                    unique_keys_u32(
                        fid_to_file@.map_values(
                            |p: (FileIndex, FileContent)| (
                                p.0@,
                                (p.1.name_spec(), p.1.lines_spec()),
                            ),
                        ),
                    ),
                    0 <= i < nfiles == fid_to_file@.len(),
                    files[i as int] == (fid@, flines),
                    flines.len() < u32::MAX,
                    lines_sl@.map_values(|s: String| s@) == flines,
                    nlines == flines.len(),
                    0 <= j <= nlines,
                    base == all_file_lines(files.take(i as int)),
                    lines_view_of(file_lines@) == base + file_lines_of(fid@, flines).take(j as int),
                    forall|k: int|
                        0 <= k < base.len() ==> exists|j2: int|
                            0 <= j2 < i && (#[trigger] base[k]).0.0 == files[j2].0,
                    forall|k: int|
                        0 <= k < lines_view_of(file_lines@).len() ==> (#[trigger] lines_view_of(
                            file_lines@,
                        )[k]).0.1 != 0,
                    forall|k1: int, k2: int|
                        0 <= k1 < k2 < lines_view_of(file_lines@).len() ==> (#[trigger] lines_view_of(
                            file_lines@,
                        )[k1]).0 != (#[trigger] lines_view_of(file_lines@)[k2]).0,
                    forall|k: int|
                        base.len() <= k < lines_view_of(file_lines@).len() ==> (#[trigger] lines_view_of(
                            file_lines@,
                        )[k]).0 == (fid@, (k - base.len() + 1) as u32),
                decreases nlines - j,
            {
                let text = lines_sl[j].clone();
                let li = LineIndex::new((j + 1) as u32);
                let ghost before = lines_view_of(file_lines@);
                file_lines.push((FileLineIndex::new(fid, li), FileLineData::new(text)));
                proof {
                    let block = file_lines_of(fid@, flines);
                    assert(block[j as int] == ((fid@, (j + 1) as u32), flines[j as int]));
                    assert(lines_sl@[j as int]@ == flines[j as int]);
                    assert(lines_view_of(file_lines@) =~= before.push(
                        ((fid@, (j + 1) as u32), flines[j as int]),
                    ));
                    assert(block.take(j + 1) =~= block.take(j as int).push(block[j as int]));
                    assert(lines_view_of(file_lines@) =~= base + block.take(j + 1));
                    assert forall|k1: int, k2: int|
                        0 <= k1 < k2 < lines_view_of(file_lines@).len() implies (#[trigger] lines_view_of(
                            file_lines@,
                        )[k1]).0 != (#[trigger] lines_view_of(file_lines@)[k2]).0 by {
                        if k2 == lines_view_of(file_lines@).len() - 1 {
                            if k1 < base.len() {
                                let j2 = choose|j2: int|
                                    0 <= j2 < i && base[k1].0.0 == files[j2].0;
                                let fmap = fid_to_file@.map_values(
                                    |p: (FileIndex, FileContent)| (
                                        p.0@,
                                        (p.1.name_spec(), p.1.lines_spec()),
                                    ),
                                );
                                assert(fmap[j2].0 != fmap[i as int].0);
                            } else {
                                assert(before[k1].0 == (fid@, (k1 - base.len() + 1) as u32));
                            }
                        } else {
                            assert(before[k1].0 != before[k2].0);
                        }
                    }
                }
                j += 1;
            }
            proof {
                let block = file_lines_of(fid@, flines);
                assert(block.take(j as int) =~= block);
                assert(files.take(i + 1).drop_last() =~= files.take(i as int));
                assert(files.take(i + 1).last() == files[i as int]);
                assert(lines_view_of(file_lines@) == all_file_lines(files.take(i + 1)));
                assert forall|k: int|
                    0 <= k < lines_view_of(file_lines@).len() implies exists|j2: int|
                        0 <= j2 < i + 1 && (#[trigger] lines_view_of(file_lines@)[k]).0.0
                            == files[j2].0 by {
                    if k < base.len() {
                        let j2 = choose|j2: int| 0 <= j2 < i && base[k].0.0 == files[j2].0;
                        assert(0 <= j2 < i + 1 && lines_view_of(file_lines@)[k].0.0 == files[j2].0);
                    } else {
                        assert(lines_view_of(file_lines@)[k].0.0 == files[i as int].0);
                    }
                }
            }
            i += 1;
        }
        proof {
            assert(files.take(i as int) =~= files);
            assert(fid_to_file@.map_values(
                |p: (FileIndex, FileContent)| (
                    p.0@,
                    (p.1.name_spec(), Seq::<(u32, (u64, u32))>::empty()),
                ),
            ).take(i as int) =~= fid_to_file@.map_values(
                |p: (FileIndex, FileContent)| (
                    p.0@,
                    (p.1.name_spec(), Seq::<(u32, (u64, u32))>::empty()),
                ),
            ));
        }
        let nposts = ngram_to_file_line.len();
        let mut ngrams: Vec<(NgramIndex, NgramData)> = Vec::new();
        let ghost goal = ngram_to_file_line@.map_values(
            |p: (NgramIndex, Vec<FileLineIndex>)| (
                p.0@,
                group_postings(p.1@.map_values(|x: FileLineIndex| x@)),
            ),
        );
        let mut k: usize = 0;
        proof {
            assert(posts_view_of(ngrams@) =~= goal.take(0));
        }
        while k < nposts
            invariant
                goal == ngram_to_file_line@.map_values(
                    |p: (NgramIndex, Vec<FileLineIndex>)| (
                        p.0@,
                        group_postings(p.1@.map_values(|x: FileLineIndex| x@)),
                    ),
                ),
                forall|i2: int, k2: int|
                    0 <= i2 < ngram_to_file_line@.len() && 0 <= k2
                        < ngram_to_file_line@[i2].1@.len() ==> (
                    #[trigger] ngram_to_file_line@[i2].1@[k2])@.1 != 0,
                ngram_len >= 1,
                forall|i2: int|
                    0 <= i2 < ngram_to_file_line@.len() ==> (
                    #[trigger] ngram_to_file_line@[i2]).0@.len() == ngram_len,
                nposts == ngram_to_file_line@.len(),
                0 <= k <= nposts,
                posts_view_of(ngrams@) == goal.take(k as int),
                forall|i2: int|
                    0 <= i2 < posts_view_of(ngrams@).len() ==> posting_lines_nonzero(
                        (#[trigger] posts_view_of(ngrams@)[i2]).1,
                    ),
            decreases nposts - k,
        {
            let gkey = NgramIndex::new(ngram_to_file_line[k].0.bytes().as_slice());
            let nd = NgramData::new(&ngram_to_file_line[k].1);
            let ghost pairs = ngram_to_file_line@[k as int].1@.map_values(
                |x: FileLineIndex| x@,
            );
            let ghost before = posts_view_of(ngrams@);
            ngrams.push((gkey, nd));
            proof {
                assert(posts_view_of(ngrams@) =~= before.push((goal[k as int].0, goal[k as int].1)));
                assert(goal.take(k + 1) =~= goal.take(k as int).push(goal[k as int]));
                assert(posting_lines_nonzero(group_postings(pairs))) by {
                    assert forall|a: int, b: int|
                        0 <= a < group_postings(pairs).len() && 0 <= b < group_postings(
                            pairs,
                        )[a].1.len() implies group_postings(pairs)[a].1[b] != 0 by {
                        let gp = group_postings(pairs);
                        assert(posting_contains(gp, gp[a].0, gp[a].1[b])) by {
                            assert(gp[a].1.contains(gp[a].1[b]));
                        }
                        crate::data::lemma_group_postings_contains(pairs, gp[a].0, gp[a].1[b]);
                        let w = choose|w: int| 0 <= w < pairs.len() && pairs[w] == (
                            gp[a].0,
                            gp[a].1[b],
                        );
                        assert(ngram_to_file_line@[k as int].1@[w]@.1 != 0);
                    }
                }
            }
            k += 1;
        }
        proof {
            assert(goal.take(k as int) =~= goal);
        }
        let r = Encode { ngram_len, file_lines, file_paths, ngrams };
        proof {
            assert(r.paths_view() =~= paths_view_of(file_paths@));
            assert(r.lines_view() =~= lines_view_of(file_lines@));
            assert(r.posts_view() =~= posts_view_of(ngrams@));
            let fmap = fid_to_file@.map_values(
                |p: (FileIndex, FileContent)| (p.0@, (p.1.name_spec(), p.1.lines_spec())),
            );
            assert forall|a: int, b: int|
                0 <= a < b < r.paths_view().len() implies r.paths_view()[a].0
                != r.paths_view()[b].0 by {
                assert(fmap[a].0 != fmap[b].0);
            }
            assert forall|a: int, b: int|
                0 <= a < b < r.posts_view().len() implies r.posts_view()[a].0
                != r.posts_view()[b].0 by {
                let gmap = ngram_to_file_line@.map_values(
                    |p: (NgramIndex, Vec<FileLineIndex>)| (
                        p.0@,
                        p.1@.map_values(|x: FileLineIndex| x@),
                    ),
                );
                assert(gmap[a].0 != gmap[b].0);
            }
            assert forall|c: int|
                0 <= c < r.posts_view().len() implies (#[trigger] r.posts_view()[c]).0.len()
                == r.n() by {
                assert(ngram_to_file_line@[c].0@.len() == ngram_len);
            }
            assert forall|c: int|
                0 <= c < r.lines_view().len() implies lookup_u32(
                    r.paths_view(),
                    (#[trigger] r.lines_view()[c]).0.0,
                ) is Some by {
                let j2 = choose|j2: int|
                    0 <= j2 < nfiles && r.lines_view()[c].0.0 == files[j2].0;
                assert(r.paths_view()[j2].0 == files[j2].0);
                lemma_lookup_u32_unique(r.paths_view(), j2);
            }
        }
        r
    }
}

/// One line record is placed: the file map names the file, its entry map
/// names the line, and the range holds exactly that line's record.
pub open spec fn line_planted(
    paths: Seq<(u32, (Seq<char>, Seq<(u32, (u64, u32))>))>,
    blob: Seq<u8>,
    f: u32,
    l: u32,
    text: Seq<char>,
) -> bool {
    match lookup_u32(paths, f) {
        None => false,
        Some(pv) => match lookup_u32(pv.1, l) {
            None => false,
            Some(lr) => range_in(blob, lr) && line_record_of(slice_at(blob, lr)) == Some(text),
        },
    }
}

/// The first `upto` line records are placed.
pub open spec fn lines_planted(
    paths: Seq<(u32, (Seq<char>, Seq<(u32, (u64, u32))>))>,
    blob: Seq<u8>,
    lines: Seq<((u32, u32), Seq<char>)>,
    upto: int,
) -> bool {
    forall|k: int|
        0 <= k < upto ==> line_planted(
            paths,
            blob,
            (#[trigger] lines[k]).0.0,
            lines[k].0.1,
            lines[k].1,
        )
}

/// The first `upto` file records are written and indexed in order.
pub open spec fn files_written(
    files: Seq<(u32, (u64, u32))>,
    paths: Seq<(u32, (Seq<char>, Seq<(u32, (u64, u32))>))>,
    blob: Seq<u8>,
    upto: int,
) -> bool {
    &&& files.len() == upto
    &&& forall|j: int|
        0 <= j < upto ==> (#[trigger] files[j]).0 == paths[j].0 && range_in(blob, files[j].1)
            && file_record_of(slice_at(blob, files[j].1)) == Some(paths[j].1)
}

/// The first `upto` postings are written and indexed in order.
pub open spec fn posts_written(
    ngrams: Seq<(Seq<u8>, (u64, u32))>,
    posts: Seq<(Seq<u8>, Seq<(u32, Seq<u32>)>)>,
    blob: Seq<u8>,
    upto: int,
) -> bool {
    &&& ngrams.len() == upto
    &&& forall|j: int|
        0 <= j < upto ==> (#[trigger] ngrams[j]).0 == posts[j].0 && range_in(blob, ngrams[j].1)
            && ngram_record_of(slice_at(blob, ngrams[j].1)) == Some(posts[j].1)
}

proof fn lemma_lines_planted_extend(
    paths: Seq<(u32, (Seq<char>, Seq<(u32, (u64, u32))>))>,
    older: Seq<u8>,
    newer: Seq<u8>,
    lines: Seq<((u32, u32), Seq<char>)>,
    upto: int,
)
    requires
        older.len() <= newer.len(),
        newer.subrange(0, older.len() as int) == older,
        lines_planted(paths, older, lines, upto),
    ensures
        lines_planted(paths, newer, lines, upto),
{
    assert forall|k: int| 0 <= k < upto implies line_planted(
        paths,
        newer,
        (#[trigger] lines[k]).0.0,
        lines[k].0.1,
        lines[k].1,
    ) by {
        assert(line_planted(paths, older, lines[k].0.0, lines[k].0.1, lines[k].1));
        let pv = lookup_u32(paths, lines[k].0.0)->Some_0;
        let lr = lookup_u32(pv.1, lines[k].0.1)->Some_0;
        lemma_prefix_slice(older, newer, lr);
    }
}

proof fn lemma_files_written_extend(
    files: Seq<(u32, (u64, u32))>,
    paths: Seq<(u32, (Seq<char>, Seq<(u32, (u64, u32))>))>,
    older: Seq<u8>,
    newer: Seq<u8>,
    upto: int,
)
    requires
        older.len() <= newer.len(),
        newer.subrange(0, older.len() as int) == older,
        files_written(files, paths, older, upto),
    ensures
        files_written(files, paths, newer, upto),
{
    assert forall|j: int| 0 <= j < upto implies (#[trigger] files[j]).0 == paths[j].0 && range_in(
        newer,
        files[j].1,
    ) && file_record_of(slice_at(newer, files[j].1)) == Some(paths[j].1) by {
        lemma_prefix_slice(older, newer, files[j].1);
    }
}

/// Replaces the file map entry of `fid` with the same record extended by
/// one line range.
fn plant_line(
    paths: &mut Vec<(FileIndex, FileData)>,
    fid: FileIndex,
    li: LineIndex,
    rg: FileLineRange,
)
    requires
        unique_keys_u32(paths_view_of(old(paths)@)),
        forall|j: int|
            0 <= j < old(paths)@.len() ==> (#[trigger] old(paths)@[j]).1.wf(),
        lookup_u32(paths_view_of(old(paths)@), fid@) is Some,
        lookup_u32(
            paths_view_of(old(paths)@),
            fid@,
        ) matches Some(pv) && lookup_u32(pv.1, li@) is None,
        li@ != 0,
    ensures
        unique_keys_u32(paths_view_of(final(paths)@)),
        forall|j: int|
            0 <= j < final(paths)@.len() ==> (#[trigger] final(paths)@[j]).1.wf(),
        exists|j: int|
            0 <= j < old(paths)@.len() && (#[trigger] paths_view_of(old(paths)@)[j]).0 == fid@
                && paths_view_of(final(paths)@) == paths_view_of(old(paths)@).update(
                j,
                (
                    fid@,
                    (
                        paths_view_of(old(paths)@)[j].1.0,
                        paths_view_of(old(paths)@)[j].1.1.push((li@, rg@)),
                    ),
                ),
            ),
{
    let ghost before = paths_view_of(old(paths)@);
    let mut j: usize = 0;
    while j < paths.len()
        invariant
            paths@ == old(paths)@,
            before == paths_view_of(paths@),
            before.len() == paths@.len(),
            0 <= j <= paths@.len(),
            unique_keys_u32(before),
            li@ != 0,
            forall|a: int| 0 <= a < paths@.len() ==> (#[trigger] paths@[a]).1.wf(),
            forall|a: int| 0 <= a < j ==> (#[trigger] before[a]).0 != fid@,
            lookup_u32(before, fid@) is Some,
            lookup_u32(before, fid@) matches Some(pv) && lookup_u32(pv.1, li@) is None,
        decreases paths@.len() - j,
    {
        if paths[j].0.id() == fid.id() {
            proof {
                assert(before[j as int].0 == fid@);
                crate::assoc::lemma_lookup_u32_unique(before, j as int);
                assert(lookup_u32(before, fid@) == Some(before[j as int].1));
            }
            let mut entry = paths.remove(j);
            entry.1.insert_line_range(li, rg);
            proof {
                assert((entry.0@, (entry.1.name_spec(), entry.1.entries())) == (
                    fid@,
                    (before[j as int].1.0, before[j as int].1.1.push((li@, rg@))),
                ));
            }
            paths.insert(j, entry);
            proof {
                assert(paths@ =~= old(paths)@.update(j as int, (entry.0, entry.1)));
                assert(paths_view_of(paths@) =~= before.update(
                    j as int,
                    (fid@, (before[j as int].1.0, before[j as int].1.1.push((li@, rg@)))),
                ));
                let after = paths_view_of(paths@);
                assert forall|a: int, b: int|
                    0 <= a < b < after.len() implies after[a].0 != after[b].0 by {
                    assert(before[a].0 != before[b].0);
                }
            }
            return ;
        }
        j += 1;
    }
    proof {
        crate::assoc::lemma_lookup_u32_characterized(before, fid@);
        assert(false);
    }
}

impl Encode {
    /// Lays the store out. The blob is exactly `blob_spec`: every line
    /// record, then every file record, then every posting, each its own
    /// deflate stream at consecutive offsets from zero; the returned
    /// index map records exactly `files_spec` and `ngrams_spec`, so the
    /// same store yields byte-identical artifacts. Every indexed line
    /// and every posting can be fetched back through the returned maps
    /// byte-for-byte. The writer fails exactly when a compressed record
    /// outgrows its 32-bit length field or the blob outgrows its 64-bit
    /// offsets.
    #[verifier::rlimit(50)]
    pub fn dump(&mut self) -> (r: Result<(IndexData, Vec<u8>), IgrepError>)
        requires
            old(self).wf(),
            old(self).fresh(),
        ensures
            final(self).n() == old(self).n(),
            final(self).lines_view() == old(self).lines_view(),
            final(self).posts_view() == old(self).posts_view(),
            r is Ok <==> dump_ok(
                old(self).lines_view(),
                old(self).paths_view(),
                old(self).posts_view(),
            ),
            r matches Ok((idx, blob)) ==> {
                &&& blob@ == blob_spec(
                    old(self).lines_view(),
                    old(self).paths_view(),
                    old(self).posts_view(),
                )
                &&& idx.files() == files_spec(old(self).paths_view(), old(self).lines_view())
                &&& idx.ngrams() == ngrams_spec(
                    old(self).paths_view(),
                    old(self).lines_view(),
                    old(self).posts_view(),
                )
                &&& idx.wf()
                &&& idx.n() == old(self).n()
                &&& idx.files().len() == old(self).paths_view().len()
                &&& forall|j: int|
                    0 <= j < idx.files().len() ==> (#[trigger] idx.files()[j]).0 == old(
                        self,
                    ).paths_view()[j].0
                &&& idx.ngrams().len() == old(self).posts_view().len()
                &&& forall|j: int|
                    0 <= j < idx.ngrams().len() ==> (#[trigger] idx.ngrams()[j]).0 == old(
                        self,
                    ).posts_view()[j].0
                &&& forall|k: int|
                    0 <= k < old(self).lines_view().len() ==> line_recoverable(
                        idx.files(),
                        blob@,
                        (#[trigger] old(self).lines_view()[k]).0.0,
                        old(self).lines_view()[k].0.1,
                        old(self).lines_view()[k].1,
                    )
                &&& forall|j: int|
                    0 <= j < old(self).posts_view().len() ==> posting_recoverable(
                        idx.ngrams(),
                        blob@,
                        (#[trigger] old(self).posts_view()[j]).0,
                        old(self).posts_view()[j].1,
                    )
            },
    {
        let ghost lines0 = self.lines_view();
        let ghost paths0 = self.paths_view();
        let ghost posts0 = self.posts_view();
        let ghost n0 = self.n();
        let ghost lrecs = line_recs(lines0);
        let ghost frecs = file_recs(paths0, lines0);
        let ghost precs = post_recs(posts0);
        let mut blob: Vec<u8> = Vec::new();
        let mut offset: u64 = 0;

        // Stage 1: line records, remembering each range in its file record.
        let nlines = self.file_lines.len();
        let mut k: usize = 0;
        proof {
            assert(lines_planted(paths_view_of(self.file_paths@), blob@, lines0, 0));
            assert(blob@ =~= concat_recs(lrecs.take(0)));
            assert forall|j: int|
                0 <= j < self.file_paths@.len() implies (
            #[trigger] self.file_paths@[j]).1.wf() by {
                assert(paths_view_of(self.file_paths@)[j].1.1.len() == 0);
                assert(self.file_paths@[j].1.entries().len() == 0);
            }
            assert forall|j: int|
                0 <= j < paths0.len() implies (#[trigger] paths_view_of(
                    self.file_paths@,
                )[j]).1.1 == entries_spec(lines0, paths0[j].0, 0) by {
                assert(paths_view_of(self.file_paths@)[j].1.1 =~= entries_spec(
                    lines0,
                    paths0[j].0,
                    0,
                ));
            }
        }
        while k < nlines
            invariant
                n0 == old(self).n(),
                lines0 == old(self).lines_view(),
                posts0 == old(self).posts_view(),
                paths0 == old(self).paths_view(),
                self.lines_view() == lines0,
                self.posts_view() == posts0,
                self.n() == n0,
                nlines == lines0.len(),
                0 <= k <= nlines,
                forall|a: int, b: int|
                    0 <= a < b < lines0.len() ==> (#[trigger] lines0[a]).0 != (
                    #[trigger] lines0[b]).0,
                forall|a: int| 0 <= a < lines0.len() ==> (#[trigger] lines0[a]).0.1 != 0,
                forall|a: int|
                    0 <= a < lines0.len() ==> lookup_u32(paths0, (#[trigger] lines0[a]).0.0)
                        is Some,
                paths_view_of(self.file_paths@).len() == paths0.len(),
                forall|j: int|
                    0 <= j < paths0.len() ==> (#[trigger] paths_view_of(self.file_paths@)[j]).0
                        == paths0[j].0 && paths_view_of(self.file_paths@)[j].1.0
                        == paths0[j].1.0,
                unique_keys_u32(paths_view_of(self.file_paths@)),
                forall|j: int|
                    0 <= j < self.file_paths@.len() ==> (#[trigger] self.file_paths@[j]).1.wf(),
                offset == blob@.len() <= u64::MAX,
                lrecs == line_recs(lines0),
                frecs == file_recs(paths0, lines0),
                precs == post_recs(posts0),
                blob@ == concat_recs(lrecs.take(k as int)),
                forall|k2: int| 0 <= k2 < k ==> (#[trigger] lrecs[k2]).len() <= u32::MAX,
                forall|j: int|
                    0 <= j < paths0.len() ==> (#[trigger] paths_view_of(
                        self.file_paths@,
                    )[j]).1.1 == entries_spec(lines0, paths0[j].0, k as int),
                forall|j: int, l: u32|
                    0 <= j < paths0.len() && (#[trigger] lookup_u32(
                        paths_view_of(self.file_paths@)[j].1.1,
                        l,
                    )) is Some ==> exists|k2: int|
                        0 <= k2 < k && lines0[k2].0 == (
                            paths_view_of(self.file_paths@)[j].0,
                            l,
                        ),
                lines_planted(paths_view_of(self.file_paths@), blob@, lines0, k as int),
            decreases nlines - k,
        {
            let ghost pv = paths_view_of(self.file_paths@);
            let data = match self.file_lines[k].1.to_data() {
                Ok(d) => d,
                Err(e) => {
                    return Err(e);
                },
            };
            proof {
                assert(lines0[k as int].1 == self.file_lines@[k as int].1@);
                assert(data@ == lrecs[k as int]);
            }
            if data.len() > u32::MAX as usize {
                proof {
                    assert(lrecs[k as int].len() > u32::MAX);
                    assert(!dump_ok(lines0, paths0, posts0));
                }
                return Err(IgrepError::IoError);
            }
            let dlen = data.len() as u32;
            if offset > u64::MAX - dlen as u64 {
                proof {
                    lemma_concat_recs_bound(lrecs, k as int);
                    assert(rec_offset(lrecs, k as int) == offset);
                    assert(concat_recs(lrecs).len() > u64::MAX);
                    assert(blob_spec(lines0, paths0, posts0).len() >= concat_recs(lrecs).len());
                    assert(!dump_ok(lines0, paths0, posts0));
                }
                return Err(IgrepError::IoError);
            }
            let ghost blob0 = blob@;
            let mut data = data;
            let ghost dbytes = data@;
            blob.append(&mut data);
            proof {
                assert(lrecs.take(k + 1).drop_last() =~= lrecs.take(k as int));
                assert(lrecs.take(k + 1).last() == lrecs[k as int]);
                assert(blob@ =~= concat_recs(lrecs.take(k + 1)));
            }
            let rg = FileLineRange(Range { start: offset, len: dlen });
            let fid = self.file_lines[k].0.file_id;
            let li = self.file_lines[k].0.line_id;
            proof {
                assert((fid@, li@) == lines0[k as int].0);
                assert(lines0[k as int].1 == self.file_lines@[k as int].1@);
                assert(lookup_u32(pv, fid@) is Some) by {
                    assert(lookup_u32(paths0, lines0[k as int].0.0) is Some);
                    crate::assoc::lemma_lookup_u32_characterized(paths0, fid@);
                    let j = choose|j: int|
                        0 <= j < paths0.len() && paths0[j] == (
                            fid@,
                            lookup_u32(paths0, fid@)->Some_0,
                        );
                    assert(pv[j].0 == fid@);
                    crate::assoc::lemma_lookup_u32_unique(pv, j);
                }
                assert(lookup_u32(pv, fid@) matches Some(e) && lookup_u32(e.1, li@) is None) by {
                    let e = lookup_u32(pv, fid@)->Some_0;
                    crate::assoc::lemma_lookup_u32_characterized(pv, fid@);
                    let j = choose|j: int| 0 <= j < pv.len() && pv[j] == (fid@, e);
                    if lookup_u32(e.1, li@) is Some {
                        let k2 = choose|k2: int|
                            0 <= k2 < k && lines0[k2].0 == (pv[j].0, li@);
                        assert(lines0[k2].0 == lines0[k as int].0);
                    }
                }
                assert(li@ != 0);
                assert(blob@.subrange(0, blob0.len() as int) =~= blob0);
                lemma_lines_planted_extend(pv, blob0, blob@, lines0, k as int);
            }
            plant_line(&mut self.file_paths, fid, li, rg);
            proof {
                let pv2 = paths_view_of(self.file_paths@);
                let j = choose|j: int|
                    0 <= j < pv.len() && (#[trigger] pv[j]).0 == fid@ && pv2 == pv.update(
                        j,
                        (fid@, (pv[j].1.0, pv[j].1.1.push((li@, rg@)))),
                    );
                assert forall|a: int, b: int|
                    0 <= a < b < pv2.len() implies pv2[a].0 != pv2[b].0 by {
                    assert(pv[a].0 != pv[b].0);
                }
                // freshness bookkeeping carries over
                assert forall|j2: int, l: u32|
                    0 <= j2 < paths0.len() && (#[trigger] lookup_u32(pv2[j2].1.1, l))
                        is Some implies exists|k2: int|
                        0 <= k2 < k + 1 && lines0[k2].0 == (pv2[j2].0, l) by {
                    if j2 == j {
                        crate::assoc::lemma_lookup_u32_push(pv[j].1.1, li@, rg@, l);
                        if l == li@ {
                            assert(lines0[k as int].0 == (pv2[j2].0, l));
                        } else {
                            assert(lookup_u32(pv[j2].1.1, l) is Some);
                            let k2 = choose|k2: int|
                                0 <= k2 < k && lines0[k2].0 == (pv[j2].0, l);
                            assert(0 <= k2 < k + 1 && lines0[k2].0 == (pv2[j2].0, l));
                        }
                    } else {
                        assert(pv2[j2] == pv[j2]);
                        let k2 = choose|k2: int|
                            0 <= k2 < k && lines0[k2].0 == (pv[j2].0, l);
                        assert(0 <= k2 < k + 1 && lines0[k2].0 == (pv2[j2].0, l));
                    }
                }
                // the exact line maps advance by this one record
                assert forall|j2: int|
                    0 <= j2 < paths0.len() implies (#[trigger] pv2[j2]).1.1 == entries_spec(
                        lines0,
                        paths0[j2].0,
                        k + 1,
                    ) by {
                    if j2 == j {
                        assert(lines0[k as int].0.0 == paths0[j2].0);
                        assert((rec_offset(lrecs, k as int) as u64) == offset);
                        assert((lrecs[k as int].len() as u32) == dlen);
                        assert(entries_spec(lines0, paths0[j2].0, k + 1) =~= entries_spec(
                            lines0,
                            paths0[j2].0,
                            k as int,
                        ).push((li@, rg@)));
                        assert(pv2[j2].1.1 == pv[j2].1.1.push((li@, rg@)));
                    } else {
                        assert(pv[j].0 != pv[j2].0);
                        assert(lines0[k as int].0.0 != paths0[j2].0);
                        assert(entries_spec(lines0, paths0[j2].0, k + 1) =~= entries_spec(
                            lines0,
                            paths0[j2].0,
                            k as int,
                        ));
                        assert(pv2[j2] == pv[j2]);
                    }
                }
                // planted lines carry over, and the new one is planted
                assert(slice_at(blob@, rg@) =~= dbytes);
                assert forall|k2: int| 0 <= k2 < k + 1 implies line_planted(
                    pv2,
                    blob@,
                    (#[trigger] lines0[k2]).0.0,
                    lines0[k2].0.1,
                    lines0[k2].1,
                ) by {
                    let f2 = lines0[k2].0.0;
                    let l2 = lines0[k2].0.1;
                    lemma_lookup_u32_update(pv, j, (pv[j].1.0, pv[j].1.1.push((li@, rg@))), f2);
                    if k2 < k {
                        assert(line_planted(pv, blob@, f2, l2, lines0[k2].1));
                        if f2 == fid@ {
                            crate::assoc::lemma_lookup_u32_unique(pv, j);
                            assert(lookup_u32(pv, f2) == Some(pv[j].1));
                            assert(l2 != li@) by {
                                if l2 == li@ {
                                    assert(lines0[k2].0 == lines0[k as int].0);
                                }
                            }
                            crate::assoc::lemma_lookup_u32_push(pv[j].1.1, li@, rg@, l2);
                        }
                    } else {
                        assert(lookup_u32(pv2, f2) == Some((pv[j].1.0, pv[j].1.1.push((li@, rg@)))));
                        crate::assoc::lemma_lookup_u32_push(pv[j].1.1, li@, rg@, li@);
                        assert(lookup_u32(pv[j].1.1.push((li@, rg@)), li@) == Some(rg@));
                    }
                }
            }
            offset = offset + dlen as u64;
            k += 1;
        }
        let ghost pv1 = paths_view_of(self.file_paths@);
        proof {
            assert(lrecs.take(nlines as int) =~= lrecs);
            assert(blob@ == concat_recs(lrecs));
            assert(frecs.take(0) =~= Seq::<Seq<u8>>::empty());
            assert(blob@ =~= concat_recs(lrecs) + concat_recs(frecs.take(0)));
        }

        // Stage 2: file records, indexed by file id.
        let mut index_data = IndexData::new(self.ngram_len);
        let nfiles = self.file_paths.len();
        let mut j: usize = 0;
        proof {
            assert(index_data.files() =~= files_spec(paths0, lines0).take(0));
        }
        while j < nfiles
            invariant
                n0 == old(self).n(),
                lines0 == old(self).lines_view(),
                posts0 == old(self).posts_view(),
                paths0 == old(self).paths_view(),
                self.lines_view() == lines0,
                self.posts_view() == posts0,
                self.n() == n0,
                pv1 == paths_view_of(self.file_paths@),
                nfiles == pv1.len() == paths0.len(),
                0 <= j <= nfiles,
                unique_keys_u32(pv1),
                forall|j2: int|
                    0 <= j2 < self.file_paths@.len() ==> (
                    #[trigger] self.file_paths@[j2]).1.wf(),
                offset == blob@.len() <= u64::MAX,
                lrecs == line_recs(lines0),
                frecs == file_recs(paths0, lines0),
                precs == post_recs(posts0),
                forall|k2: int|
                    0 <= k2 < lines0.len() ==> (#[trigger] lrecs[k2]).len() <= u32::MAX,
                forall|j2: int| 0 <= j2 < j ==> (#[trigger] frecs[j2]).len() <= u32::MAX,
                forall|j2: int|
                    0 <= j2 < paths0.len() ==> (#[trigger] pv1[j2]).0 == paths0[j2].0
                        && pv1[j2].1.0 == paths0[j2].1.0,
                forall|j2: int|
                    0 <= j2 < paths0.len() ==> (#[trigger] pv1[j2]).1.1 == entries_spec(
                        lines0,
                        paths0[j2].0,
                        lines0.len() as int,
                    ),
                blob@ == concat_recs(lrecs) + concat_recs(frecs.take(j as int)),
                index_data.files() == files_spec(paths0, lines0).take(j as int),
                index_data.wf(),
                index_data.n() == n0,
                index_data.ngrams().len() == 0,
                lines_planted(pv1, blob@, lines0, lines0.len() as int),
                files_written(index_data.files(), pv1, blob@, j as int),
            decreases nfiles - j,
        {
            let data = match self.file_paths[j].1.to_data() {
                Ok(d) => d,
                Err(e) => {
                    return Err(e);
                },
            };
            proof {
                assert(pv1[j as int].1.0 == self.file_paths@[j as int].1.name_spec());
                assert(pv1[j as int].1.1 == self.file_paths@[j as int].1.entries());
                assert(data@ == frecs[j as int]);
            }
            if data.len() > u32::MAX as usize {
                proof {
                    assert(frecs[j as int].len() > u32::MAX);
                    assert(!dump_ok(lines0, paths0, posts0));
                }
                return Err(IgrepError::IoError);
            }
            let dlen = data.len() as u32;
            if offset > u64::MAX - dlen as u64 {
                proof {
                    lemma_concat_recs_bound(frecs, j as int);
                    assert(concat_recs(lrecs).len() + rec_offset(frecs, j as int) == offset);
                    assert(concat_recs(lrecs).len() + concat_recs(frecs).len() > u64::MAX);
                    assert(blob_spec(lines0, paths0, posts0).len() >= concat_recs(lrecs).len()
                        + concat_recs(frecs).len());
                    assert(!dump_ok(lines0, paths0, posts0));
                }
                return Err(IgrepError::IoError);
            }
            let ghost blob0 = blob@;
            let mut data_m = data;
            let ghost dbytes = data_m@;
            blob.append(&mut data_m);
            proof {
                assert(frecs.take(j + 1).drop_last() =~= frecs.take(j as int));
                assert(frecs.take(j + 1).last() == frecs[j as int]);
                assert(concat_recs(frecs.take(j + 1)) =~= concat_recs(frecs.take(j as int))
                    + frecs[j as int]);
                assert(blob@ =~= concat_recs(lrecs) + concat_recs(frecs.take(j + 1)));
            }
            let rg = FileRange(Range { start: offset, len: dlen });
            let fid = self.file_paths[j].0;
            proof {
                assert(pv1[j as int].0 == fid@);
                assert(lookup_u32(index_data.files(), fid@) is None) by {
                    crate::assoc::lemma_lookup_u32_characterized(index_data.files(), fid@);
                    if lookup_u32(index_data.files(), fid@) is Some {
                        let a = choose|a: int|
                            0 <= a < index_data.files().len() && index_data.files()[a] == (
                                fid@,
                                lookup_u32(index_data.files(), fid@)->Some_0,
                            );
                        assert(pv1[a].0 != pv1[j as int].0);
                    }
                }
            }
            match index_data.add_file(fid, rg) {
                Some(_) => {
                    proof {
                        assert(false);
                    }
                    return Err(IgrepError::AlreadyExists);
                },
                None => {},
            }
            proof {
                assert(files_spec(paths0, lines0)[j as int] == (fid@, rg@)) by {
                    assert((concat_recs(line_recs(lines0)).len() + rec_offset(
                        file_recs(paths0, lines0),
                        j as int,
                    )) as u64 == offset);
                    assert(file_recs(paths0, lines0)[j as int].len() as u32 == dlen);
                }
                assert(index_data.files() =~= files_spec(paths0, lines0).take(j + 1)) by {
                    assert(files_spec(paths0, lines0).take(j + 1) =~= files_spec(
                        paths0,
                        lines0,
                    ).take(j as int).push(files_spec(paths0, lines0)[j as int]));
                }
                assert(blob@.subrange(0, blob0.len() as int) =~= blob0);
                lemma_lines_planted_extend(pv1, blob0, blob@, lines0, lines0.len() as int);
                lemma_files_written_extend(
                    index_data.files().drop_last(),
                    pv1,
                    blob0,
                    blob@,
                    j as int,
                );
                assert(slice_at(blob@, rg@) =~= dbytes);
                assert(file_record_of(dbytes) == Some(pv1[j as int].1));
                assert(files_written(index_data.files(), pv1, blob@, j + 1)) by {
                    let fs = index_data.files();
                    assert(fs.drop_last() =~= fs.subrange(0, j as int));
                    assert forall|a: int|
                        0 <= a < j + 1 implies (#[trigger] fs[a]).0 == pv1[a].0 && range_in(
                            blob@,
                            fs[a].1,
                        ) && file_record_of(slice_at(blob@, fs[a].1)) == Some(pv1[a].1) by {
                        if a < j {
                            assert(fs.drop_last()[a] == fs[a]);
                        } else {
                            assert(fs[a] == (fid@, rg@));
                        }
                    }
                }
            }
            offset = offset + dlen as u64;
            j += 1;
        }

        proof {
            assert(frecs.take(nfiles as int) =~= frecs);
            assert(files_spec(paths0, lines0).take(nfiles as int) =~= files_spec(
                paths0,
                lines0,
            ));
            assert(precs.take(0) =~= Seq::<Seq<u8>>::empty());
            assert(blob@ =~= concat_recs(lrecs) + concat_recs(frecs) + concat_recs(
                precs.take(0),
            ));
            assert(index_data.ngrams() =~= ngrams_spec(paths0, lines0, posts0).take(0));
        }

        // Stage 3: postings, indexed by n-gram.
        let nposts = self.ngrams.len();
        let mut g: usize = 0;
        while g < nposts
            invariant
                n0 == old(self).n(),
                lines0 == old(self).lines_view(),
                posts0 == old(self).posts_view(),
                paths0 == old(self).paths_view(),
                self.lines_view() == lines0,
                self.posts_view() == posts0,
                self.n() == n0,
                pv1 == paths_view_of(self.file_paths@),
                nposts == posts0.len(),
                0 <= g <= nposts,
                unique_keys_u32(pv1),
                unique_keys_bytes(posts0),
                forall|a: int| 0 <= a < posts0.len() ==> (#[trigger] posts0[a]).0.len() == n0,
                forall|a: int|
                    0 <= a < posts0.len() ==> posting_lines_nonzero((#[trigger] posts0[a]).1),
                offset == blob@.len() <= u64::MAX,
                lrecs == line_recs(lines0),
                frecs == file_recs(paths0, lines0),
                precs == post_recs(posts0),
                forall|k2: int|
                    0 <= k2 < lines0.len() ==> (#[trigger] lrecs[k2]).len() <= u32::MAX,
                forall|j2: int|
                    0 <= j2 < paths0.len() ==> (#[trigger] frecs[j2]).len() <= u32::MAX,
                forall|g2: int| 0 <= g2 < g ==> (#[trigger] precs[g2]).len() <= u32::MAX,
                blob@ == concat_recs(lrecs) + concat_recs(frecs) + concat_recs(
                    precs.take(g as int),
                ),
                index_data.files() == files_spec(paths0, lines0),
                index_data.ngrams() == ngrams_spec(paths0, lines0, posts0).take(g as int),
                index_data.wf(),
                index_data.n() == n0,
                index_data.files().len() == paths0.len(),
                forall|a: int|
                    0 <= a < index_data.files().len() ==> (#[trigger] index_data.files()[a]).0
                        == paths0[a].0,
                lines_planted(pv1, blob@, lines0, lines0.len() as int),
                files_written(index_data.files(), pv1, blob@, paths0.len() as int),
                posts_written(index_data.ngrams(), posts0, blob@, g as int),
            decreases nposts - g,
        {
            let data = match self.ngrams[g].1.to_data() {
                Ok(d) => d,
                Err(e) => {
                    return Err(e);
                },
            };
            proof {
                assert(posts0[g as int].1 == self.ngrams@[g as int].1.posting());
                assert(data@ == precs[g as int]);
            }
            if data.len() > u32::MAX as usize {
                proof {
                    assert(precs[g as int].len() > u32::MAX);
                    assert(!dump_ok(lines0, paths0, posts0));
                }
                return Err(IgrepError::IoError);
            }
            let dlen = data.len() as u32;
            if offset > u64::MAX - dlen as u64 {
                proof {
                    lemma_concat_recs_bound(precs, g as int);
                    assert(concat_recs(lrecs).len() + concat_recs(frecs).len() + rec_offset(
                        precs,
                        g as int,
                    ) == offset);
                    assert(blob_spec(lines0, paths0, posts0).len() > u64::MAX);
                    assert(!dump_ok(lines0, paths0, posts0));
                }
                return Err(IgrepError::IoError);
            }
            let ghost blob0 = blob@;
            let mut data_m = data;
            let ghost dbytes = data_m@;
            blob.append(&mut data_m);
            proof {
                assert(precs.take(g + 1).drop_last() =~= precs.take(g as int));
                assert(precs.take(g + 1).last() == precs[g as int]);
                assert(concat_recs(precs.take(g + 1)) =~= concat_recs(precs.take(g as int))
                    + precs[g as int]);
                assert(blob@ =~= concat_recs(lrecs) + concat_recs(frecs) + concat_recs(
                    precs.take(g + 1),
                ));
            }
            let rg = NgramRange(Range { start: offset, len: dlen });
            proof {
                assert(self.posts_view()[g as int].0 == self.ngrams@[g as int].0@);
                assert(posts0[g as int].0.len() == n0);
            }
            let gkey = NgramIndex::new(self.ngrams[g].0.bytes().as_slice());
            proof {
                assert(posts0[g as int].0 == gkey@);
                assert(posting_lines_nonzero(posts0[g as int].1));
                assert(lookup_bytes(index_data.ngrams(), gkey@) is None) by {
                    crate::assoc::lemma_lookup_bytes_characterized(index_data.ngrams(), gkey@);
                    if lookup_bytes(index_data.ngrams(), gkey@) is Some {
                        let a = choose|a: int|
                            0 <= a < index_data.ngrams().len() && index_data.ngrams()[a] == (
                                gkey@,
                                lookup_bytes(index_data.ngrams(), gkey@)->Some_0,
                            );
                        assert(index_data.ngrams()[a].0 == posts0[a].0);
                        assert(posts0[a].0 != posts0[g as int].0);
                    }
                }
            }
            match index_data.add_ngram(gkey, rg) {
                Some(_) => {
                    proof {
                        assert(false);
                    }
                    return Err(IgrepError::AlreadyExists);
                },
                None => {},
            }
            proof {
                assert(ngrams_spec(paths0, lines0, posts0)[g as int] == (gkey@, rg@)) by {
                    assert((concat_recs(line_recs(lines0)).len() + concat_recs(
                        file_recs(paths0, lines0),
                    ).len() + rec_offset(post_recs(posts0), g as int)) as u64 == offset);
                    assert(post_recs(posts0)[g as int].len() as u32 == dlen);
                }
                assert(index_data.ngrams() =~= ngrams_spec(paths0, lines0, posts0).take(
                    g + 1,
                )) by {
                    assert(ngrams_spec(paths0, lines0, posts0).take(g + 1) =~= ngrams_spec(
                        paths0,
                        lines0,
                        posts0,
                    ).take(g as int).push(ngrams_spec(paths0, lines0, posts0)[g as int]));
                }
                assert(blob@.subrange(0, blob0.len() as int) =~= blob0);
                lemma_lines_planted_extend(pv1, blob0, blob@, lines0, lines0.len() as int);
                lemma_files_written_extend(
                    index_data.files(),
                    pv1,
                    blob0,
                    blob@,
                    paths0.len() as int,
                );
                assert(slice_at(blob@, rg@) =~= dbytes);
                assert(ngram_record_of(dbytes) == Some(posts0[g as int].1));
                assert(posts_written(index_data.ngrams(), posts0, blob@, g + 1)) by {
                    let ns = index_data.ngrams();
                    assert(ns.drop_last() =~= ns.subrange(0, g as int));
                    assert forall|a: int|
                        0 <= a < g + 1 implies (#[trigger] ns[a]).0 == posts0[a].0 && range_in(
                            blob@,
                            ns[a].1,
                        ) && ngram_record_of(slice_at(blob@, ns[a].1)) == Some(posts0[a].1) by {
                        if a < g {
                            assert(ns.drop_last()[a] == ns[a]);
                            lemma_prefix_slice(blob0, blob@, ns[a].1);
                        } else {
                            assert(ns[a] == (gkey@, rg@));
                        }
                    }
                }
            }
            offset = offset + dlen as u64;
            g += 1;
        }

        // The round trip of the whole store follows from the three stages.
        proof {
            assert(precs.take(nposts as int) =~= precs);
            assert(ngrams_spec(paths0, lines0, posts0).take(nposts as int) =~= ngrams_spec(
                paths0,
                lines0,
                posts0,
            ));
            assert(blob@ =~= blob_spec(lines0, paths0, posts0));
            assert(dump_ok(lines0, paths0, posts0)) by {
                assert(blob_spec(lines0, paths0, posts0).len() == blob@.len() <= u64::MAX);
            }
            let fs = index_data.files();
            let ns = index_data.ngrams();
            assert forall|k2: int| 0 <= k2 < lines0.len() implies line_recoverable(
                fs,
                blob@,
                (#[trigger] lines0[k2]).0.0,
                lines0[k2].0.1,
                lines0[k2].1,
            ) by {
                let f = lines0[k2].0.0;
                let l = lines0[k2].0.1;
                assert(line_planted(pv1, blob@, f, l, lines0[k2].1));
                let pv = lookup_u32(pv1, f)->Some_0;
                crate::assoc::lemma_lookup_u32_characterized(pv1, f);
                let a = choose|a: int| 0 <= a < pv1.len() && pv1[a] == (f, pv);
                crate::assoc::lemma_lookup_u32_unique(pv1, a);
                assert(fs[a].0 == pv1[a].0);
                crate::assoc::lemma_lookup_u32_unique(fs, a);
                assert(lookup_u32(fs, f) == Some(fs[a].1));
                assert(file_record_of(slice_at(blob@, fs[a].1)) == Some(pv1[a].1));
            }
            assert forall|j2: int| 0 <= j2 < posts0.len() implies posting_recoverable(
                ns,
                blob@,
                (#[trigger] posts0[j2]).0,
                posts0[j2].1,
            ) by {
                assert(ns[j2].0 == posts0[j2].0);
                crate::assoc::lemma_lookup_bytes_unique(ns, j2);
                assert(lookup_bytes(ns, posts0[j2].0) == Some(ns[j2].1));
            }
        }
        Ok((index_data, blob))
    }
}

} // verus!
