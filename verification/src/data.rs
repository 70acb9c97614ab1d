//! The record types of the two artifacts: line records, file records,
//! n-gram postings, and the always-resident index map.
//!
//! Each map is a vector of pairs in insertion order, so a build writes
//! byte-identical artifacts on identical input.

use vstd::prelude::*;

use crate::assoc::{
    lookup_bytes, lookup_u32, lemma_lookup_bytes_skip_hit, lemma_lookup_bytes_skip_miss,
    lemma_lookup_u32_skip_hit, lemma_lookup_u32_skip_miss, unique_keys_bytes, unique_keys_u32,
};
use crate::index::{bytes_eq, FileIndex, FileLineIndex, LineIndex, NgramIndex};
use crate::range::{FileLineRange, FileRange, NgramRange};

verus! {

/// The raw text of one line, newline stripped.
pub struct FileLineData(String);

impl View for FileLineData {
    type V = Seq<char>;

    closed spec fn view(&self) -> Seq<char> {
        self.0@
    }
}

impl FileLineData {
    pub fn new(line: String) -> (r: Self)
        ensures
            r@ == line@,
    {
        Self(line)
    }

    pub fn get(&self) -> (r: &String)
        ensures
            r@ == self@,
    {
        &self.0
    }
}

/// One file of the index: its path and, once the writer has filled them
/// in, the blob range of each of its line records.
pub struct FileData {
    name: String,
    lines_range: Vec<(LineIndex, FileLineRange)>,
}

impl FileData {
    /// The stored path.
    pub closed spec fn name_spec(&self) -> Seq<char> {
        self.name@
    }

    /// The line map as pairs of raw line number and range.
    pub closed spec fn entries(&self) -> Seq<(u32, (u64, u32))> {
        self.lines_range@.map_values(|p: (LineIndex, FileLineRange)| (p.0@, p.1@))
    }

    /// Line keys are unique and never the reserved zero.
    pub open spec fn wf(&self) -> bool {
        &&& unique_keys_u32(self.entries())
        &&& forall|i: int| 0 <= i < self.entries().len() ==> #[trigger] self.entries()[i].0 != 0
    }

    pub fn new(name: String) -> (r: Self)
        ensures
            r.name_spec() == name@,
            r.entries() =~= Seq::<(u32, (u64, u32))>::empty(),
            r.wf(),
    {
        let r = FileData { name, lines_range: Vec::new() };
        proof {
            assert(r.entries() =~= Seq::<(u32, (u64, u32))>::empty());
        }
        r
    }

    /// Used by the decoder, which has already checked well-formedness.
    pub(crate) fn from_parts(name: String, lines_range: Vec<(LineIndex, FileLineRange)>) -> (r:
        Self)
        ensures
            r.name_spec() == name@,
            r.entries() == lines_range@.map_values(|p: (LineIndex, FileLineRange)| (p.0@, p.1@)),
    {
        FileData { name, lines_range }
    }

    pub fn name(&self) -> (r: &String)
        ensures
            r@ == self.name_spec(),
    {
        &self.name
    }

    /// The number of line entries.
    pub fn lines_len(&self) -> (r: usize)
        ensures
            r == self.entries().len(),
    {
        self.lines_range.len()
    }

    /// The line entry at a position, for walking the map in stored order.
    pub fn line_at(&self, i: usize) -> (r: (LineIndex, FileLineRange))
        requires
            i < self.entries().len(),
        ensures
            (r.0@, r.1@) == self.entries()[i as int],
    {
        self.lines_range[i]
    }

    /// The range of one line record, if that line is present.
    pub fn lines_range(&self, line_index: &LineIndex) -> (r: Option<&FileLineRange>)
        ensures
            match r {
                Some(rg) => lookup_u32(self.entries(), line_index@) == Some(rg@),
                None => lookup_u32(self.entries(), line_index@) is None,
            },
    {
        let ghost es = self.entries();
        let key = line_index.line_number();
        let mut i: usize = 0;
        proof {
            assert(es.skip(0) =~= es);
        }
        while i < self.lines_range.len()
            invariant
                es == self.entries(),
                key == line_index@,
                0 <= i <= es.len(),
                es.len() == self.lines_range@.len(),
                lookup_u32(es, key) == lookup_u32(es.skip(i as int), key),
            decreases es.len() - i,
        {
            if self.lines_range[i].0.line_number() == key {
                proof {
                    lemma_lookup_u32_skip_hit(es, key, i as int);
                }
                return Some(&self.lines_range[i].1);
            }
            proof {
                lemma_lookup_u32_skip_miss(es, key, i as int);
            }
            i += 1;
        }
        proof {
            assert(es.skip(i as int) =~= Seq::<(u32, (u64, u32))>::empty());
        }
        None
    }

    /// Records the blob range of one line. The writer never writes a line
    /// twice, so the key must be fresh.
    pub fn insert_line_range(&mut self, line_index: LineIndex, range: FileLineRange)
        requires
            old(self).wf(),
            line_index@ != 0,
            lookup_u32(old(self).entries(), line_index@) is None,
        ensures
            final(self).wf(),
            final(self).name_spec() == old(self).name_spec(),
            final(self).entries() =~= old(self).entries().push((line_index@, range@)),
    {
        proof {
            crate::assoc::lemma_lookup_u32_characterized(self.entries(), line_index@);
        }
        self.lines_range.push((line_index, range));
        proof {
            assert(self.entries() =~= old(self).entries().push((line_index@, range@)));
            let es = self.entries();
            let old_es = old(self).entries();
            assert forall|i: int, j: int| 0 <= i < j < es.len() implies es[i].0 != es[j].0 by {
                if j < es.len() - 1 {
                    assert(old_es[i].0 != old_es[j].0);
                }
            }
        }
    }
}

/// The posting of one n-gram: for each file that contains it, the lines
/// on which it occurs.
pub struct NgramData {
    file_lines: Vec<(FileIndex, Vec<LineIndex>)>,
}

impl NgramData {
    /// The posting as raw pairs of file id and line-number list.
    pub closed spec fn posting(&self) -> Seq<(u32, Seq<u32>)> {
        self.file_lines@.map_values(
            |p: (FileIndex, Vec<LineIndex>)| (p.0@, p.1@.map_values(|l: LineIndex| l@)),
        )
    }

    /// Used by the decoder.
    pub(crate) fn from_parts(file_lines: Vec<(FileIndex, Vec<LineIndex>)>) -> (r: Self)
        ensures
            r.posting() == file_lines@.map_values(
                |p: (FileIndex, Vec<LineIndex>)| (p.0@, p.1@.map_values(|l: LineIndex| l@)),
            ),
    {
        NgramData { file_lines }
    }
}

/// Whether the posting places the n-gram on line `l` of file `f`.
pub open spec fn posting_contains(p: Seq<(u32, Seq<u32>)>, f: u32, l: u32) -> bool {
    exists|i: int| 0 <= i < p.len() && p[i].0 == f && p[i].1.contains(l)
}

/// Adds one `(file, line)` pair to a grouped posting: the line joins the
/// entry of its file, or a fresh entry is appended at the end.
pub open spec fn add_posting(acc: Seq<(u32, Seq<u32>)>, f: u32, l: u32) -> Seq<(u32, Seq<u32>)>
    decreases acc.len(),
{
    if acc.len() == 0 {
        seq![(f, seq![l])]
    } else if acc[0].0 == f {
        seq![(acc[0].0, acc[0].1.push(l))] + acc.drop_first()
    } else {
        seq![acc[0]] + add_posting(acc.drop_first(), f, l)
    }
}

/// Groups a list of `(file, line)` pairs by file, keeping first-seen file
/// order and per-file insertion order.
pub open spec fn group_postings(s: Seq<(u32, u32)>) -> Seq<(u32, Seq<u32>)>
    decreases s.len(),
{
    if s.len() == 0 {
        Seq::empty()
    } else {
        add_posting(group_postings(s.drop_last()), s.last().0, s.last().1)
    }
}

/// The pairs of a grouped posting, flattened back in stored order.
pub open spec fn flatten_posting(p: Seq<(u32, Seq<u32>)>) -> Seq<(u32, u32)>
    decreases p.len(),
{
    if p.len() == 0 {
        Seq::empty()
    } else {
        flatten_posting(p.drop_last()) + p.last().1.map_values(|l: u32| (p.last().0, l))
    }
}

proof fn lemma_add_posting_hit(acc: Seq<(u32, Seq<u32>)>, f: u32, l: u32, k: int)
    requires
        0 <= k < acc.len(),
        acc[k].0 == f,
        forall|j: int| 0 <= j < k ==> acc[j].0 != f,
    ensures
        add_posting(acc, f, l) =~= acc.update(k, (f, acc[k].1.push(l))),
    decreases k,
{
    if k == 0 {
        assert(seq![(acc[0].0, acc[0].1.push(l))] + acc.drop_first() =~= acc.update(
            0,
            (f, acc[0].1.push(l)),
        ));
    } else {
        assert(acc.drop_first()[k - 1] == acc[k]);
        assert forall|j: int| 0 <= j < k - 1 implies acc.drop_first()[j].0 != f by {
            assert(acc[j + 1].0 != f);
        }
        lemma_add_posting_hit(acc.drop_first(), f, l, k - 1);
        assert(seq![acc[0]] + acc.drop_first().update(k - 1, (f, acc[k].1.push(l))) =~= acc.update(
            k,
            (f, acc[k].1.push(l)),
        ));
    }
}

proof fn lemma_add_posting_miss(acc: Seq<(u32, Seq<u32>)>, f: u32, l: u32)
    requires
        forall|j: int| 0 <= j < acc.len() ==> acc[j].0 != f,
    ensures
        add_posting(acc, f, l) =~= acc.push((f, seq![l])),
    decreases acc.len(),
{
    if acc.len() == 0 {
        assert(add_posting(acc, f, l) =~= acc.push((f, seq![l])));
    } else {
        assert forall|j: int| 0 <= j < acc.drop_first().len() implies acc.drop_first()[j].0
            != f by {
            assert(acc[j + 1].0 != f);
        }
        lemma_add_posting_miss(acc.drop_first(), f, l);
        assert(seq![acc[0]] + acc.drop_first().push((f, seq![l])) =~= acc.push((f, seq![l])));
    }
}

/// What one added pair does to posting membership.
proof fn lemma_add_posting_contains(acc: Seq<(u32, Seq<u32>)>, f: u32, l: u32, g: u32, m: u32)
    ensures
        posting_contains(add_posting(acc, f, l), g, m) <==> (posting_contains(acc, g, m) || (g
            == f && m == l)),
    decreases acc.len(),
{
    let r = add_posting(acc, f, l);
    if acc.len() == 0 {
        assert(r[0] == (f, seq![l]));
        assert(seq![l][0] == l);
        assert(m == l ==> seq![l].contains(m));
        assert(seq![l].contains(m) ==> m == l) by {
            if seq![l].contains(m) {
                let li = choose|li: int| 0 <= li < seq![l].len() && seq![l][li] == m;
                assert(li == 0);
            }
        }
        if g == f && m == l {
            assert(r[0].1.contains(m));
        }
        if posting_contains(r, g, m) {
            let i = choose|i: int| 0 <= i < r.len() && r[i].0 == g && r[i].1.contains(m);
            assert(i == 0);
        }
    } else if acc[0].0 == f {
        assert(r[0] == (acc[0].0, acc[0].1.push(l)));
        assert forall|j: int| 1 <= j < r.len() implies r[j] == acc[j] by {
            assert(r[j] == acc.drop_first()[j - 1]);
        }
        if posting_contains(acc, g, m) {
            let i = choose|i: int| 0 <= i < acc.len() && acc[i].0 == g && acc[i].1.contains(m);
            if i == 0 {
                let li = choose|li: int| 0 <= li < acc[0].1.len() && acc[0].1[li] == m;
                assert(r[0].1[li] == m);
                assert(r[0].1.contains(m));
            } else {
                assert(r[i].0 == g && r[i].1.contains(m));
            }
        }
        if g == f && m == l {
            assert(r[0].1[acc[0].1.len() as int] == l);
            assert(r[0].1.contains(m));
        }
        if posting_contains(r, g, m) {
            let i = choose|i: int| 0 <= i < r.len() && r[i].0 == g && r[i].1.contains(m);
            if i == 0 {
                let li = choose|li: int| 0 <= li < r[0].1.len() && r[0].1[li] == m;
                if li < acc[0].1.len() {
                    assert(acc[0].1[li] == m);
                    assert(acc[0].1.contains(m));
                } else {
                    assert(m == l && g == f);
                }
            } else {
                assert(acc[i].0 == g && acc[i].1.contains(m));
            }
        }
    } else {
        lemma_add_posting_contains(acc.drop_first(), f, l, g, m);
        let sub = add_posting(acc.drop_first(), f, l);
        assert(r == seq![acc[0]] + sub);
        assert(r[0] == acc[0]);
        assert forall|j: int| 1 <= j < r.len() implies r[j] == sub[j - 1] by {}
        if posting_contains(acc, g, m) {
            let i = choose|i: int| 0 <= i < acc.len() && acc[i].0 == g && acc[i].1.contains(m);
            if i > 0 {
                assert(acc.drop_first()[i - 1] == acc[i]);
                assert(posting_contains(acc.drop_first(), g, m));
                let si = choose|si: int|
                    0 <= si < sub.len() && sub[si].0 == g && sub[si].1.contains(m);
                assert(r[si + 1].0 == g && r[si + 1].1.contains(m));
            }
        }
        if g == f && m == l {
            let si = choose|si: int| 0 <= si < sub.len() && sub[si].0 == g && sub[si].1.contains(m);
            assert(r[si + 1].0 == g && r[si + 1].1.contains(m));
        }
        if posting_contains(r, g, m) {
            let i = choose|i: int| 0 <= i < r.len() && r[i].0 == g && r[i].1.contains(m);
            if i > 0 {
                assert(sub[i - 1].0 == g && sub[i - 1].1.contains(m));
                if posting_contains(acc.drop_first(), g, m) {
                    let ai = choose|ai: int|
                        0 <= ai < acc.drop_first().len() && acc.drop_first()[ai].0 == g
                            && acc.drop_first()[ai].1.contains(m);
                    assert(acc[ai + 1].0 == g && acc[ai + 1].1.contains(m));
                }
            }
        }
    }
}

/// Grouping neither loses nor invents pairs.
pub proof fn lemma_group_postings_contains(s: Seq<(u32, u32)>, g: u32, m: u32)
    ensures
        posting_contains(group_postings(s), g, m) <==> s.contains((g, m)),
    decreases s.len(),
{
    if s.len() > 0 {
        lemma_group_postings_contains(s.drop_last(), g, m);
        lemma_add_posting_contains(group_postings(s.drop_last()), s.last().0, s.last().1, g, m);
        if s.drop_last().contains((g, m)) {
            let i = choose|i: int| 0 <= i < s.drop_last().len() && s.drop_last()[i] == (g, m);
            assert(s[i] == (g, m));
        }
        if s.contains((g, m)) && !(g == s.last().0 && m == s.last().1) {
            let i = choose|i: int| 0 <= i < s.len() && s[i] == (g, m);
            assert(i < s.len() - 1);
            assert(s.drop_last()[i] == (g, m));
        }
    }
}

impl NgramData {
    /// Groups the pairs by file, keeping first-seen file order and
    /// per-file insertion order.
    pub fn new(file_lines: &Vec<FileLineIndex>) -> (r: Self)
        ensures
            r.posting() == group_postings(file_lines@.map_values(|x: FileLineIndex| x@)),
    {
        let ghost all = file_lines@.map_values(|x: FileLineIndex| x@);
        let mut out: Vec<(FileIndex, Vec<LineIndex>)> = Vec::new();
        let mut idx: usize = 0;
        proof {
            assert(all.take(0) =~= Seq::<(u32, u32)>::empty());
            assert(raw_posting(out@) =~= Seq::<(u32, Seq<u32>)>::empty());
        }
        while idx < file_lines.len()
            invariant
                all == file_lines@.map_values(|x: FileLineIndex| x@),
                0 <= idx <= file_lines@.len(),
                all.len() == file_lines@.len(),
                raw_posting(out@) == group_postings(all.take(idx as int)),
            decreases file_lines@.len() - idx,
        {
            let fid = file_lines[idx].file_id;
            let lid = file_lines[idx].line_id;
            let ghost before = raw_posting(out@);
            add_pair(&mut out, fid, lid);
            proof {
                assert(all.take(idx + 1).drop_last() =~= all.take(idx as int));
                assert(all.take(idx + 1).last() == all[idx as int]);
                assert(all[idx as int] == (fid@, lid@));
                assert(group_postings(all.take(idx + 1)) == add_posting(before, fid@, lid@));
            }
            idx += 1;
        }
        proof {
            assert(all.take(idx as int) =~= all);
        }
        NgramData { file_lines: out }
    }

    /// The number of files in the posting.
    pub fn entry_count(&self) -> (r: usize)
        ensures
            r == self.posting().len(),
    {
        self.file_lines.len()
    }

    /// The file id of one posting entry.
    pub fn entry_fid(&self, i: usize) -> (r: FileIndex)
        requires
            i < self.posting().len(),
        ensures
            r@ == self.posting()[i as int].0,
    {
        self.file_lines[i].0
    }

    /// The line numbers of one posting entry.
    pub fn entry_lines(&self, i: usize) -> (r: &Vec<LineIndex>)
        requires
            i < self.posting().len(),
        ensures
            r@.map_values(|l: LineIndex| l@) == self.posting()[i as int].1,
    {
        &self.file_lines[i].1
    }

    /// The posting as a flat list of `(file, line)` positions, in stored
    /// order.
    pub fn file_lines(&self) -> (r: Vec<FileLineIndex>)
        ensures
            r@.map_values(|x: FileLineIndex| x@) == flatten_posting(self.posting()),
    {
        let ghost p = self.posting();
        let mut out: Vec<FileLineIndex> = Vec::new();
        let mut i: usize = 0;
        proof {
            assert(p.take(0) =~= Seq::<(u32, Seq<u32>)>::empty());
            assert(out@.map_values(|x: FileLineIndex| x@) =~= flatten_posting(p.take(0)));
        }
        while i < self.file_lines.len()
            invariant
                p == self.posting(),
                0 <= i <= self.file_lines@.len(),
                p.len() == self.file_lines@.len(),
                out@.map_values(|x: FileLineIndex| x@) == flatten_posting(p.take(i as int)),
            decreases self.file_lines@.len() - i,
        {
            let fid = self.file_lines[i].0;
            let lines = &self.file_lines[i].1;
            let ghost entry = p[i as int];
            proof {
                assert(entry == (fid@, lines@.map_values(|l: LineIndex| l@)));
            }
            let mut j: usize = 0;
            proof {
                assert(entry.1.map_values(|l: u32| (entry.0, l)).take(0) =~= Seq::<
                    (u32, u32),
                >::empty());
                assert(out@.map_values(|x: FileLineIndex| x@) =~= flatten_posting(p.take(i as int))
                    + entry.1.map_values(|l: u32| (entry.0, l)).take(0));
            }
            while j < lines.len()
                invariant
                    p == self.posting(),
                    0 <= j <= lines@.len(),
                    entry == (fid@, lines@.map_values(|l: LineIndex| l@)),
                    entry.1.len() == lines@.len(),
                    out@.map_values(|x: FileLineIndex| x@) == flatten_posting(p.take(i as int))
                        + entry.1.map_values(|l: u32| (entry.0, l)).take(j as int),
                decreases lines@.len() - j,
            {
                let ghost before = out@;
                out.push(FileLineIndex { file_id: fid, line_id: lines[j] });
                proof {
                    let mapped = entry.1.map_values(|l: u32| (entry.0, l));
                    assert(mapped[j as int] == (fid@, lines@[j as int]@));
                    assert(mapped.take(j + 1) =~= mapped.take(j as int).push(mapped[j as int]));
                    assert(out@.map_values(|x: FileLineIndex| x@) =~= before.map_values(
                        |x: FileLineIndex| x@,
                    ).push((fid@, lines@[j as int]@)));
                }
                j += 1;
            }
            proof {
                let mapped = entry.1.map_values(|l: u32| (entry.0, l));
                assert(mapped.take(j as int) =~= mapped);
                assert(p.take(i + 1).drop_last() =~= p.take(i as int));
                assert(p.take(i + 1).last() == entry);
                assert(out@.map_values(|x: FileLineIndex| x@) == flatten_posting(p.take(i + 1)));
            }
            i += 1;
        }
        proof {
            assert(p.take(i as int) =~= p);
        }
        out
    }
}

/// The posting view of a raw grouped vector.
pub open spec fn raw_posting(v: Seq<(FileIndex, Vec<LineIndex>)>) -> Seq<(u32, Seq<u32>)> {
    v.map_values(|p: (FileIndex, Vec<LineIndex>)| (p.0@, p.1@.map_values(|l: LineIndex| l@)))
}

/// Adds one pair to the grouped vector, as `add_posting` says.
pub(crate) fn add_pair(out: &mut Vec<(FileIndex, Vec<LineIndex>)>, fid: FileIndex, lid: LineIndex)
    ensures
        raw_posting(final(out)@) == add_posting(raw_posting(old(out)@), fid@, lid@),
{
    let ghost before = raw_posting(old(out)@);
    let mut k: usize = 0;
    while k < out.len()
        invariant
            out@ == old(out)@,
            before == raw_posting(out@),
            0 <= k <= out@.len(),
            before.len() == out@.len(),
            forall|j: int| 0 <= j < k ==> before[j].0 != fid@,
        decreases out@.len() - k,
    {
        if out[k].0.id() == fid.id() {
            proof {
                assert(before[k as int].0 == fid@);
            }
            let mut entry = out.remove(k);
            entry.1.push(lid);
            let ghost lifted = (entry.0@, entry.1@.map_values(|l: LineIndex| l@));
            proof {
                assert(entry.1@.map_values(|l: LineIndex| l@) =~= before[k as int].1.push(lid@));
            }
            out.insert(k, entry);
            proof {
                assert(out@ =~= old(out)@.update(k as int, (entry.0, entry.1)));
                lemma_add_posting_hit(before, fid@, lid@, k as int);
                assert(raw_posting(out@) =~= before.update(
                    k as int,
                    (fid@, before[k as int].1.push(lid@)),
                ));
            }
            return ;
        }
        k += 1;
    }
    let mut fresh: Vec<LineIndex> = Vec::new();
    fresh.push(lid);
    proof {
        assert(fresh@.map_values(|l: LineIndex| l@) =~= seq![lid@]);
    }
    out.push((fid, fresh));
    proof {
        lemma_add_posting_miss(before, fid@, lid@);
        assert(raw_posting(out@) =~= before.push((fid@, seq![lid@])));
    }
}

/// The small, always-resident artifact: the n-gram length and the two
/// range maps into the content blob.
pub struct IndexData {
    ngram_len: u8,
    id_to_file: Vec<(FileIndex, FileRange)>,
    ngram_to_file_line: Vec<(NgramIndex, NgramRange)>,
}

impl IndexData {
    /// The fixed n-gram length of this index.
    pub closed spec fn n(&self) -> u8 {
        self.ngram_len
    }

    /// The file map as pairs of raw file id and range.
    pub closed spec fn files(&self) -> Seq<(u32, (u64, u32))> {
        self.id_to_file@.map_values(|p: (FileIndex, FileRange)| (p.0@, p.1@))
    }

    /// The posting map as pairs of n-gram bytes and range.
    pub closed spec fn ngrams(&self) -> Seq<(Seq<u8>, (u64, u32))> {
        self.ngram_to_file_line@.map_values(|p: (NgramIndex, NgramRange)| (p.0@, p.1@))
    }

    /// Keys are unique, the n-gram length is at least 1, and every stored
    /// n-gram has exactly that length.
    pub open spec fn wf(&self) -> bool {
        &&& self.n() >= 1
        &&& unique_keys_u32(self.files())
        &&& unique_keys_bytes(self.ngrams())
        &&& forall|i: int|
            0 <= i < self.ngrams().len() ==> (#[trigger] self.ngrams()[i]).0.len()
                == self.n()
    }

    pub fn new(ngram_len: u8) -> (r: Self)
        requires
            ngram_len >= 1,
        ensures
            r.n() == ngram_len,
            r.files() =~= Seq::<(u32, (u64, u32))>::empty(),
            r.ngrams() =~= Seq::<(Seq<u8>, (u64, u32))>::empty(),
            r.wf(),
    {
        let r = IndexData { ngram_len, id_to_file: Vec::new(), ngram_to_file_line: Vec::new() };
        proof {
            assert(r.files() =~= Seq::<(u32, (u64, u32))>::empty());
            assert(r.ngrams() =~= Seq::<(Seq<u8>, (u64, u32))>::empty());
        }
        r
    }

    /// Used by the decoder.
    pub(crate) fn from_parts(
        ngram_len: u8,
        id_to_file: Vec<(FileIndex, FileRange)>,
        ngram_to_file_line: Vec<(NgramIndex, NgramRange)>,
    ) -> (r: Self)
        ensures
            r.n() == ngram_len,
            r.files() == id_to_file@.map_values(|p: (FileIndex, FileRange)| (p.0@, p.1@)),
            r.ngrams() == ngram_to_file_line@.map_values(
                |p: (NgramIndex, NgramRange)| (p.0@, p.1@),
            ),
    {
        IndexData { ngram_len, id_to_file, ngram_to_file_line }
    }

    pub fn ngram_len(&self) -> (r: u8)
        ensures
            r == self.n(),
    {
        self.ngram_len
    }

    /// How many files the index holds.
    pub fn file_count(&self) -> (r: usize)
        ensures
            r == self.files().len(),
    {
        self.id_to_file.len()
    }

    /// How many distinct n-grams the index holds.
    pub fn ngram_count(&self) -> (r: usize)
        ensures
            r == self.ngrams().len(),
    {
        self.ngram_to_file_line.len()
    }

    /// The file entry at a position, for walking the map in stored order.
    pub fn file_at(&self, i: usize) -> (r: (FileIndex, FileRange))
        requires
            i < self.files().len(),
        ensures
            (r.0@, r.1@) == self.files()[i as int],
    {
        self.id_to_file[i]
    }

    /// The key of one n-gram entry.
    pub fn ngram_key_at(&self, i: usize) -> (r: &NgramIndex)
        requires
            i < self.ngrams().len(),
        ensures
            r@ == self.ngrams()[i as int].0,
    {
        &self.ngram_to_file_line[i].0
    }

    /// The range of one n-gram entry.
    pub fn ngram_range_at(&self, i: usize) -> (r: NgramRange)
        requires
            i < self.ngrams().len(),
        ensures
            r@ == self.ngrams()[i as int].1,
    {
        self.ngram_to_file_line[i].1
    }

    /// The blob range of one n-gram's posting, if the n-gram is indexed.
    pub fn get_ngram_range(&self, ngram_index: &NgramIndex) -> (r: Option<NgramRange>)
        ensures
            match r {
                Some(rg) => lookup_bytes(self.ngrams(), ngram_index@) == Some(rg@),
                None => lookup_bytes(self.ngrams(), ngram_index@) is None,
            },
    {
        let ghost es = self.ngrams();
        let mut i: usize = 0;
        proof {
            assert(es.skip(0) =~= es);
        }
        while i < self.ngram_to_file_line.len()
            invariant
                es == self.ngrams(),
                0 <= i <= es.len(),
                es.len() == self.ngram_to_file_line@.len(),
                lookup_bytes(es, ngram_index@) == lookup_bytes(es.skip(i as int), ngram_index@),
            decreases es.len() - i,
        {
            if bytes_eq(
                self.ngram_to_file_line[i].0.bytes().as_slice(),
                ngram_index.bytes().as_slice(),
            ) {
                proof {
                    lemma_lookup_bytes_skip_hit(es, ngram_index@, i as int);
                }
                return Some(self.ngram_to_file_line[i].1);
            }
            proof {
                lemma_lookup_bytes_skip_miss(es, ngram_index@, i as int);
            }
            i += 1;
        }
        proof {
            assert(es.skip(i as int) =~= Seq::<(Seq<u8>, (u64, u32))>::empty());
        }
        None
    }

    /// The blob range of one file's record, if the file is indexed.
    pub fn get_file_range(&self, file_index: &FileIndex) -> (r: Option<FileRange>)
        ensures
            match r {
                Some(rg) => lookup_u32(self.files(), file_index@) == Some(rg@),
                None => lookup_u32(self.files(), file_index@) is None,
            },
    {
        let ghost es = self.files();
        let key = file_index.id();
        let mut i: usize = 0;
        proof {
            assert(es.skip(0) =~= es);
        }
        while i < self.id_to_file.len()
            invariant
                es == self.files(),
                key == file_index@,
                0 <= i <= es.len(),
                es.len() == self.id_to_file@.len(),
                lookup_u32(es, key) == lookup_u32(es.skip(i as int), key),
            decreases es.len() - i,
        {
            if self.id_to_file[i].0.id() == key {
                proof {
                    lemma_lookup_u32_skip_hit(es, key, i as int);
                }
                return Some(self.id_to_file[i].1);
            }
            proof {
                lemma_lookup_u32_skip_miss(es, key, i as int);
            }
            i += 1;
        }
        proof {
            assert(es.skip(i as int) =~= Seq::<(u32, (u64, u32))>::empty());
        }
        None
    }

    /// Binds a file id to its record's range. A fresh key is appended and
    /// `None` returned; an id already bound is left unchanged and its
    /// range returned, which the writer treats as a duplicate-id fault.
    pub(crate) fn add_file(&mut self, file_index: FileIndex, range: FileRange) -> (r: Option<
        FileRange,
    >)
        requires
            old(self).wf(),
        ensures
            final(self).wf(),
            final(self).n() == old(self).n(),
            final(self).ngrams() == old(self).ngrams(),
            match r {
                Some(existing) => {
                    &&& lookup_u32(old(self).files(), file_index@) == Some(existing@)
                    &&& final(self).files() == old(self).files()
                },
                None => {
                    &&& lookup_u32(old(self).files(), file_index@) is None
                    &&& final(self).files() =~= old(self).files().push((file_index@, range@))
                },
            },
    {
        let existing = self.get_file_range(&file_index);
        match existing {
            Some(rg) => Some(rg),
            None => {
                proof {
                    crate::assoc::lemma_lookup_u32_characterized(self.files(), file_index@);
                }
                self.id_to_file.push((file_index, range));
                proof {
                    assert(self.files() =~= old(self).files().push((file_index@, range@)));
                    let es = self.files();
                    let old_es = old(self).files();
                    assert forall|i: int, j: int|
                        0 <= i < j < es.len() implies es[i].0 != es[j].0 by {
                        if j < es.len() - 1 {
                            assert(old_es[i].0 != old_es[j].0);
                        }
                    }
                    assert(self.ngrams() =~= old(self).ngrams());
                }
                None
            },
        }
    }

    /// Binds an n-gram to its posting's range, in the same way.
    pub(crate) fn add_ngram(&mut self, ngram_index: NgramIndex, range: NgramRange) -> (r: Option<
        NgramRange,
    >)
        requires
            old(self).wf(),
            ngram_index@.len() == old(self).n(),
        ensures
            final(self).wf(),
            final(self).n() == old(self).n(),
            final(self).files() == old(self).files(),
            match r {
                Some(existing) => {
                    &&& lookup_bytes(old(self).ngrams(), ngram_index@) == Some(existing@)
                    &&& final(self).ngrams() == old(self).ngrams()
                },
                None => {
                    &&& lookup_bytes(old(self).ngrams(), ngram_index@) is None
                    &&& final(self).ngrams() =~= old(self).ngrams().push(
                        (ngram_index@, range@),
                    )
                },
            },
    {
        let existing = self.get_ngram_range(&ngram_index);
        match existing {
            Some(rg) => Some(rg),
            None => {
                proof {
                    crate::assoc::lemma_lookup_bytes_characterized(self.ngrams(), ngram_index@);
                }
                self.ngram_to_file_line.push((ngram_index, range));
                proof {
                    assert(self.ngrams() =~= old(self).ngrams().push((ngram_index@, range@)));
                    let es = self.ngrams();
                    let old_es = old(self).ngrams();
                    assert forall|i: int, j: int|
                        0 <= i < j < es.len() implies es[i].0 != es[j].0 by {
                        if j < es.len() - 1 {
                            assert(old_es[i].0 != old_es[j].0);
                        }
                    }
                    assert forall|i: int|
                        0 <= i < es.len() implies (#[trigger] es[i]).0.len() == self.n() by {
                        if i < es.len() - 1 {
                            assert(old_es[i].0.len() == self.n());
                        }
                    }
                    assert(self.files() =~= old(self).files());
                }
                None
            },
        }
    }
}


/// Flattening keeps exactly the posting's membership.
pub proof fn lemma_flatten_posting_contains(p: Seq<(u32, Seq<u32>)>, f: u32, l: u32)
    ensures
        flatten_posting(p).contains((f, l)) <==> posting_contains(p, f, l),
    decreases p,
{
    if p.len() > 0 {
        lemma_flatten_posting_contains(p.drop_last(), f, l);
        let head = flatten_posting(p.drop_last());
        let tail = p.last().1.map_values(|x: u32| (p.last().0, x));
        assert(flatten_posting(p) == head + tail);
        if flatten_posting(p).contains((f, l)) {
            let i = choose|i: int| 0 <= i < flatten_posting(p).len() && flatten_posting(p)[i] == (
                f,
                l,
            );
            if i < head.len() {
                assert(head.contains((f, l)));
                let j = choose|j: int|
                    0 <= j < p.drop_last().len() && p.drop_last()[j].0 == f
                        && p.drop_last()[j].1.contains(l);
                assert(p[j].0 == f && p[j].1.contains(l));
            } else {
                assert(tail[i - head.len()] == (f, l));
                assert(p.last().0 == f && p.last().1[i - head.len()] == l);
                assert(p.last().1.contains(l));
                assert(p[p.len() - 1].0 == f && p[p.len() - 1].1.contains(l));
            }
        }
        if posting_contains(p, f, l) {
            let j = choose|j: int| 0 <= j < p.len() && p[j].0 == f && p[j].1.contains(l);
            if j < p.len() - 1 {
                assert(p.drop_last()[j] == p[j]);
                assert(posting_contains(p.drop_last(), f, l));
                let i = choose|i: int| 0 <= i < head.len() && head[i] == (f, l);
                assert(flatten_posting(p)[i] == (f, l));
            } else {
                let w = choose|w: int| 0 <= w < p.last().1.len() && p.last().1[w] == l;
                assert(tail[w] == (f, l));
                assert(flatten_posting(p)[head.len() + w] == (f, l));
            }
        }
    }
}

/// Grouping duplicate-free pairs yields unique file keys and
/// duplicate-free per-file line lists.
pub proof fn lemma_group_postings_wf(s: Seq<(u32, u32)>)
    requires
        forall|a: int, b: int| 0 <= a < b < s.len() ==> s[a] != s[b],
    ensures
        unique_keys_u32(group_postings(s)),
        forall|i: int, a: int, b: int|
            0 <= i < group_postings(s).len() && 0 <= a < b < group_postings(s)[i].1.len()
                ==> group_postings(s)[i].1[a] != group_postings(s)[i].1[b],
    decreases s.len(),
{
    if s.len() > 0 {
        let head = s.drop_last();
        let f = s.last().0;
        let l = s.last().1;
        assert forall|a: int, b: int| 0 <= a < b < head.len() implies head[a] != head[b] by {
            assert(s[a] != s[b]);
        }
        lemma_group_postings_wf(head);
        let acc = group_postings(head);
        lemma_group_postings_contains(head, f, l);
        assert(!posting_contains(acc, f, l)) by {
            if head.contains((f, l)) {
                let w = choose|w: int| 0 <= w < head.len() && head[w] == (f, l);
                assert(s[w] == s[s.len() - 1]);
            }
        }
        let r = group_postings(s);
        assert(r == add_posting(acc, f, l));
        if exists|j: int| 0 <= j < acc.len() && (#[trigger] acc[j]).0 == f {
            let k = choose|k: int| 0 <= k < acc.len() && (#[trigger] acc[k]).0 == f;
            assert forall|j: int| 0 <= j < k implies acc[j].0 != f by {
                assert(acc[j].0 != acc[k].0);
            }
            lemma_add_posting_hit(acc, f, l, k);
            assert(r =~= acc.update(k, (f, acc[k].1.push(l))));
            assert(!acc[k].1.contains(l)) by {
                if acc[k].1.contains(l) {
                    assert(posting_contains(acc, f, l));
                }
            }
            assert forall|i: int, a: int, b: int|
                0 <= i < r.len() && 0 <= a < b < r[i].1.len() implies r[i].1[a] != r[i].1[b] by {
                if i == k {
                    if b < acc[k].1.len() {
                        assert(acc[k].1[a] != acc[k].1[b]);
                    } else {
                        assert(r[k].1[b] == l);
                        assert(acc[k].1[a] != l) by {
                            if acc[k].1[a] == l {
                                assert(acc[k].1.contains(l));
                            }
                        }
                    }
                } else {
                    assert(acc[i].1[a] != acc[i].1[b]);
                }
            }
            assert forall|a: int, b: int|
                0 <= a < b < r.len() implies r[a].0 != r[b].0 by {
                assert(acc[a].0 != acc[b].0);
            }
        } else {
            lemma_add_posting_miss(acc, f, l);
            assert(r =~= acc.push((f, seq![l])));
            assert forall|a: int, b: int|
                0 <= a < b < r.len() implies r[a].0 != r[b].0 by {
                if b < acc.len() {
                    assert(acc[a].0 != acc[b].0);
                } else {
                    assert(acc[a].0 != f);
                }
            }
            assert forall|i: int, a: int, b: int|
                0 <= i < r.len() && 0 <= a < b < r[i].1.len() implies r[i].1[a] != r[i].1[b] by {
                if i < acc.len() {
                    assert(acc[i].1[a] != acc[i].1[b]);
                } else {
                    assert(r[i].1 =~= seq![l]);
                }
            }
        }
    }
}

} // verus!
