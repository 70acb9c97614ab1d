//! Build-time components: the path-to-id allocator, per-file line
//! storage, and the per-file n-gram extraction that feeds the merge.

use vstd::prelude::*;

use crate::assoc::{
    lemma_lookup_chars_characterized, lemma_lookup_chars_skip_hit, lemma_lookup_chars_skip_miss,
    lookup_bytes, lookup_chars, lookup_u32, unique_keys_chars,
};
use crate::encode::Encode;
use crate::error::IgrepError;
use crate::index::{
    bytes_eq, contains_gram, is_window, FileIndex, FileLineIndex, LineIndex, NgramIndex,
};

verus! {

/// A canonical absolute path. Canonicalization touches the file system,
/// so the caller resolves the path first and hands the result in.
#[derive(Debug)]
pub struct AbsPath {
    path: String,
}

impl View for AbsPath {
    type V = Seq<char>;

    closed spec fn view(&self) -> Seq<char> {
        self.path@
    }
}

impl AbsPath {
    /// Wraps an already-canonical absolute path.
    pub fn new(path: String) -> (r: Self)
        ensures
            r@ == path@,
    {
        Self { path }
    }

    pub fn path(&self) -> (r: &str)
        ensures
            r@ == self@,
    {
        self.path.as_str()
    }

    /// A copy of this path.
    pub fn duplicate(&self) -> (r: Self)
        ensures
            r@ == self@,
    {
        AbsPath { path: self.path.clone() }
    }
}

impl PartialEq for AbsPath {
    fn eq(&self, other: &Self) -> (r: bool) {
        self.path.eq(&other.path)
    }
}

impl Eq for AbsPath {

}

impl vstd::std_specs::cmp::PartialEqSpecImpl for AbsPath {
    open spec fn obeys_eq_spec() -> bool {
        true
    }

    open spec fn eq_spec(&self, other: &Self) -> bool {
        self@ == other@
    }
}

/// The text of one input file, split into lines, newlines stripped.
pub struct FileContent {
    full_file_name: AbsPath,
    lines: Vec<String>,
}

impl FileContent {
    /// The path of the file.
    pub closed spec fn name_spec(&self) -> Seq<char> {
        self.full_file_name@
    }

    /// The lines of the file.
    pub closed spec fn lines_spec(&self) -> Seq<Seq<char>> {
        self.lines@.map_values(|s: String| s@)
    }

    pub fn new(file_name: AbsPath, lines: Vec<String>) -> (r: Self)
        ensures
            r.name_spec() == file_name@,
            r.lines_spec() == lines@.map_values(|s: String| s@),
    {
        Self { full_file_name: file_name, lines }
    }

    pub fn lines(&self) -> (r: &[String])
        ensures
            r@.map_values(|s: String| s@) == self.lines_spec(),
    {
        self.lines.as_slice()
    }

    /// The number of lines.
    pub fn lines_len(&self) -> (r: usize)
        ensures
            r == self.lines_spec().len(),
    {
        self.lines.len()
    }

    /// Lines are 1-indexed; index zero and indices past the end yield
    /// nothing.
    pub fn get_line(&self, line_number: usize) -> (r: Option<&String>)
        ensures
            match r {
                Some(s) => 1 <= line_number <= self.lines_spec().len() && s@ == self.lines_spec()[
                    line_number - 1
                ],
                None => line_number == 0 || line_number > self.lines_spec().len(),
            },
    {
        if line_number == 0 {
            None
        } else if line_number <= self.lines.len() {
            Some(&self.lines[line_number - 1])
        } else {
            None
        }
    }

    pub fn get_name(&self) -> (r: &AbsPath)
        ensures
            r@ == self.name_spec(),
    {
        &self.full_file_name
    }
}

/// Allocates dense file ids in first-seen order.
pub struct FileIndexBuilder {
    file_to_id: Vec<(AbsPath, FileIndex)>,
}

/// The read-only view of the allocator once registration is finished.
pub struct FileIndexFinalBuilder(FileIndexBuilder);

impl FileIndexBuilder {
    /// The registered paths with their ids, in registration order.
    pub closed spec fn entries(&self) -> Seq<(Seq<char>, u32)> {
        self.file_to_id@.map_values(|p: (AbsPath, FileIndex)| (p.0@, p.1@))
    }

    /// Paths are unique and ids run 0, 1, 2, ... in registration order.
    pub open spec fn wf(&self) -> bool {
        &&& unique_keys_chars(self.entries())
        &&& forall|i: int| 0 <= i < self.entries().len() ==> (#[trigger] self.entries()[i]).1 == i
    }

    pub fn new() -> (r: Self)
        ensures
            r.entries() =~= Seq::<(Seq<char>, u32)>::empty(),
            r.wf(),
    {
        let r = FileIndexBuilder { file_to_id: Vec::new() };
        proof {
            assert(r.entries() =~= Seq::<(Seq<char>, u32)>::empty());
        }
        r
    }

    /// How many paths are registered.
    pub fn len(&self) -> (r: usize)
        ensures
            r == self.entries().len(),
    {
        self.file_to_id.len()
    }

    /// Registers a path: a path seen before is refused, a fresh one gets
    /// the next id.
    pub fn insert(&mut self, path: &AbsPath) -> (r: Result<(), IgrepError>)
        requires
            old(self).wf(),
            old(self).entries().len() < u32::MAX,
        ensures
            final(self).wf(),
            match r {
                Ok(()) => lookup_chars(old(self).entries(), path@) is None && final(self).entries()
                    =~= old(self).entries().push((path@, old(self).entries().len() as u32)),
                Err(e) => e == IgrepError::AlreadyExists && lookup_chars(
                    old(self).entries(),
                    path@,
                ) is Some && *final(self) == *old(self),
            },
    {
        let new_id = self.file_to_id.len() as u32;
        if self.contains(path) {
            return Err(IgrepError::AlreadyExists);
        }
        proof {
            lemma_lookup_chars_characterized(self.entries(), path@);
        }
        self.file_to_id.push((path.duplicate(), FileIndex::new(new_id)));
        proof {
            assert(self.entries() =~= old(self).entries().push(
                (path@, old(self).entries().len() as u32),
            ));
            let es = self.entries();
            let old_es = old(self).entries();
            assert forall|i: int, j: int| 0 <= i < j < es.len() implies es[i].0 != es[j].0 by {
                if j < es.len() - 1 {
                    assert(old_es[i].0 != old_es[j].0);
                }
            }
            assert forall|i: int| 0 <= i < es.len() implies (#[trigger] es[i]).1 == i by {
                if i < es.len() - 1 {
                    assert(old_es[i].1 == i);
                }
            }
        }
        Ok(())
    }

    /// Whether the path is registered.
    fn contains(&self, path: &AbsPath) -> (r: bool)
        ensures
            r == (lookup_chars(self.entries(), path@) is Some),
    {
        let ghost es = self.entries();
        let mut i: usize = 0;
        proof {
            assert(es.skip(0) =~= es);
        }
        while i < self.file_to_id.len()
            invariant
                es == self.entries(),
                0 <= i <= es.len(),
                es.len() == self.file_to_id@.len(),
                lookup_chars(es, path@) == lookup_chars(es.skip(i as int), path@),
            decreases es.len() - i,
        {
            if self.file_to_id[i].0.eq(path) {
                proof {
                    lemma_lookup_chars_skip_hit(es, path@, i as int);
                }
                return true;
            }
            proof {
                lemma_lookup_chars_skip_miss(es, path@, i as int);
            }
            i += 1;
        }
        proof {
            assert(es.skip(i as int) =~= Seq::<(Seq<char>, u32)>::empty());
        }
        false
    }

    /// Freezes the allocator: no further registration, only lookups.
    pub fn make_final(self) -> (r: FileIndexFinalBuilder)
        ensures
            r.entries() == self.entries(),
    {
        FileIndexFinalBuilder(self)
    }
}

impl FileIndexFinalBuilder {
    /// The registered paths with their ids, in registration order.
    pub closed spec fn entries(&self) -> Seq<(Seq<char>, u32)> {
        self.0.entries()
    }

    pub closed spec fn wf(&self) -> bool {
        self.0.wf()
    }

    /// All registered files, as id and path pairs.
    pub fn files(&self) -> (r: Vec<(&FileIndex, &AbsPath)>)
        ensures
            r@.len() == self.entries().len(),
            forall|i: int|
                0 <= i < r@.len() ==> ((#[trigger] r@[i]).0@, r@[i].1@) == (
                    self.entries()[i].1,
                    self.entries()[i].0,
                ),
    {
        let ghost es = self.entries();
        let mut out: Vec<(&FileIndex, &AbsPath)> = Vec::new();
        let mut i: usize = 0;
        while i < self.0.file_to_id.len()
            invariant
                es == self.entries(),
                es.len() == self.0.file_to_id@.len(),
                0 <= i <= es.len(),
                out@.len() == i,
                forall|j: int|
                    0 <= j < i ==> ((#[trigger] out@[j]).0@, out@[j].1@) == (es[j].1, es[j].0),
            decreases es.len() - i,
        {
            out.push((&self.0.file_to_id[i].1, &self.0.file_to_id[i].0));
            i += 1;
        }
        out
    }

    /// The id of a registered path.
    pub fn get(&self, path: &AbsPath) -> (r: Option<&FileIndex>)
        ensures
            match r {
                Some(f) => lookup_chars(self.entries(), path@) == Some(f@),
                None => lookup_chars(self.entries(), path@) is None,
            },
    {
        let ghost es = self.entries();
        let mut i: usize = 0;
        proof {
            assert(es.skip(0) =~= es);
        }
        while i < self.0.file_to_id.len()
            invariant
                es == self.entries(),
                0 <= i <= es.len(),
                es.len() == self.0.file_to_id@.len(),
                lookup_chars(es, path@) == lookup_chars(es.skip(i as int), path@),
            decreases es.len() - i,
        {
            if self.0.file_to_id[i].0.eq(path) {
                proof {
                    lemma_lookup_chars_skip_hit(es, path@, i as int);
                }
                return Some(&self.0.file_to_id[i].1);
            }
            proof {
                lemma_lookup_chars_skip_miss(es, path@, i as int);
            }
            i += 1;
        }
        proof {
            assert(es.skip(i as int) =~= Seq::<(Seq<char>, u32)>::empty());
        }
        None
    }
}

/// The per-file builder: extraction of one file's n-gram map.
pub struct Buuilder {}

/// The extraction map as raw pairs of n-gram bytes and line numbers.
pub open spec fn gram_map_view(v: Seq<(NgramIndex, Vec<LineIndex>)>) -> Seq<(Seq<u8>, Seq<u32>)> {
    v.map_values(|p: (NgramIndex, Vec<LineIndex>)| (p.0@, p.1@.map_values(|l: LineIndex| l@)))
}

/// Whether the extraction map holds line `l` under n-gram `g`.
pub open spec fn gm_contains(m: Seq<(Seq<u8>, Seq<u32>)>, g: Seq<u8>, l: u32) -> bool {
    exists|i: int| 0 <= i < m.len() && m[i].0 == g && m[i].1.contains(l)
}

/// Adds one line to the entry of `g`, or appends a fresh entry.
pub open spec fn add_gram(acc: Seq<(Seq<u8>, Seq<u32>)>, g: Seq<u8>, l: u32) -> Seq<
    (Seq<u8>, Seq<u32>),
>
    decreases acc.len(),
{
    if acc.len() == 0 {
        seq![(g, seq![l])]
    } else if acc[0].0 == g {
        seq![(acc[0].0, acc[0].1.push(l))] + acc.drop_first()
    } else {
        seq![acc[0]] + add_gram(acc.drop_first(), g, l)
    }
}

/// Keys are unique length-`n` grams and every entry's lines climb
/// strictly, within `1 ..= bound`.
pub open spec fn gm_wf(m: Seq<(Seq<u8>, Seq<u32>)>, n: nat, bound: u32) -> bool {
    &&& crate::assoc::unique_keys_bytes(m)
    &&& forall|i: int| 0 <= i < m.len() ==> (#[trigger] m[i]).0.len() == n
    &&& forall|i: int, a: int, b: int|
        0 <= i < m.len() && 0 <= a < b < m[i].1.len() ==> m[i].1[a] < m[i].1[b]
    &&& forall|i: int, a: int|
        0 <= i < m.len() && 0 <= a < m[i].1.len() ==> 1 <= #[trigger] m[i].1[a] <= bound
}

proof fn lemma_add_gram_hit(acc: Seq<(Seq<u8>, Seq<u32>)>, g: Seq<u8>, l: u32, k: int)
    requires
        0 <= k < acc.len(),
        acc[k].0 == g,
        forall|j: int| 0 <= j < k ==> acc[j].0 != g,
    ensures
        add_gram(acc, g, l) =~= acc.update(k, (g, acc[k].1.push(l))),
    decreases k,
{
    if k == 0 {
        assert(seq![(acc[0].0, acc[0].1.push(l))] + acc.drop_first() =~= acc.update(
            0,
            (g, acc[0].1.push(l)),
        ));
    } else {
        assert(acc.drop_first()[k - 1] == acc[k]);
        assert forall|j: int| 0 <= j < k - 1 implies acc.drop_first()[j].0 != g by {
            assert(acc[j + 1].0 != g);
        }
        lemma_add_gram_hit(acc.drop_first(), g, l, k - 1);
        assert(seq![acc[0]] + acc.drop_first().update(k - 1, (g, acc[k].1.push(l))) =~= acc.update(
            k,
            (g, acc[k].1.push(l)),
        ));
    }
}

proof fn lemma_add_gram_miss(acc: Seq<(Seq<u8>, Seq<u32>)>, g: Seq<u8>, l: u32)
    requires
        forall|j: int| 0 <= j < acc.len() ==> acc[j].0 != g,
    ensures
        add_gram(acc, g, l) =~= acc.push((g, seq![l])),
    decreases acc.len(),
{
    if acc.len() == 0 {
        assert(add_gram(acc, g, l) =~= acc.push((g, seq![l])));
    } else {
        assert forall|j: int| 0 <= j < acc.drop_first().len() implies acc.drop_first()[j].0
            != g by {
            assert(acc[j + 1].0 != g);
        }
        lemma_add_gram_miss(acc.drop_first(), g, l);
        assert(seq![acc[0]] + acc.drop_first().push((g, seq![l])) =~= acc.push((g, seq![l])));
    }
}

/// What one added line does to map membership.
proof fn lemma_add_gram_contains(acc: Seq<(Seq<u8>, Seq<u32>)>, g: Seq<u8>, l: u32, h: Seq<u8>, m: u32)
    ensures
        gm_contains(add_gram(acc, g, l), h, m) <==> (gm_contains(acc, h, m) || (h == g && m
            == l)),
    decreases acc.len(),
{
    let r = add_gram(acc, g, l);
    if acc.len() == 0 {
        assert(r[0] == (g, seq![l]));
        assert(seq![l][0] == l);
        assert(m == l ==> seq![l].contains(m));
        assert(seq![l].contains(m) ==> m == l) by {
            if seq![l].contains(m) {
                let li = choose|li: int| 0 <= li < seq![l].len() && seq![l][li] == m;
                assert(li == 0);
            }
        }
        if h == g && m == l {
            assert(r[0].1.contains(m));
        }
        if gm_contains(r, h, m) {
            let i = choose|i: int| 0 <= i < r.len() && r[i].0 == h && r[i].1.contains(m);
            assert(i == 0);
        }
    } else if acc[0].0 == g {
        assert(r[0] == (acc[0].0, acc[0].1.push(l)));
        assert forall|j: int| 1 <= j < r.len() implies r[j] == acc[j] by {
            assert(r[j] == acc.drop_first()[j - 1]);
        }
        if gm_contains(acc, h, m) {
            let i = choose|i: int| 0 <= i < acc.len() && acc[i].0 == h && acc[i].1.contains(m);
            if i == 0 {
                let li = choose|li: int| 0 <= li < acc[0].1.len() && acc[0].1[li] == m;
                assert(r[0].1[li] == m);
                assert(r[0].1.contains(m));
            } else {
                assert(r[i].0 == h && r[i].1.contains(m));
            }
        }
        if h == g && m == l {
            assert(r[0].1[acc[0].1.len() as int] == l);
            assert(r[0].1.contains(m));
        }
        if gm_contains(r, h, m) {
            let i = choose|i: int| 0 <= i < r.len() && r[i].0 == h && r[i].1.contains(m);
            if i == 0 {
                let li = choose|li: int| 0 <= li < r[0].1.len() && r[0].1[li] == m;
                if li < acc[0].1.len() {
                    assert(acc[0].1[li] == m);
                    assert(acc[0].1.contains(m));
                } else {
                    assert(m == l && h == g);
                }
            } else {
                assert(acc[i].0 == h && acc[i].1.contains(m));
            }
        }
    } else {
        lemma_add_gram_contains(acc.drop_first(), g, l, h, m);
        let sub = add_gram(acc.drop_first(), g, l);
        assert(r == seq![acc[0]] + sub);
        assert(r[0] == acc[0]);
        assert forall|j: int| 1 <= j < r.len() implies r[j] == sub[j - 1] by {}
        if gm_contains(acc, h, m) {
            let i = choose|i: int| 0 <= i < acc.len() && acc[i].0 == h && acc[i].1.contains(m);
            if i > 0 {
                assert(acc.drop_first()[i - 1] == acc[i]);
                assert(gm_contains(acc.drop_first(), h, m));
                let si = choose|si: int|
                    0 <= si < sub.len() && sub[si].0 == h && sub[si].1.contains(m);
                assert(r[si + 1].0 == h && r[si + 1].1.contains(m));
            }
        }
        if h == g && m == l {
            let si = choose|si: int| 0 <= si < sub.len() && sub[si].0 == h && sub[si].1.contains(m);
            assert(r[si + 1].0 == h && r[si + 1].1.contains(m));
        }
        if gm_contains(r, h, m) {
            let i = choose|i: int| 0 <= i < r.len() && r[i].0 == h && r[i].1.contains(m);
            if i > 0 {
                assert(sub[i - 1].0 == h && sub[i - 1].1.contains(m));
                if gm_contains(acc.drop_first(), h, m) {
                    let ai = choose|ai: int|
                        0 <= ai < acc.drop_first().len() && acc.drop_first()[ai].0 == h
                            && acc.drop_first()[ai].1.contains(m);
                    assert(acc[ai + 1].0 == h && acc[ai + 1].1.contains(m));
                }
            }
        }
    }
}

/// Adding a fresh, in-range line keeps the map well-formed.
proof fn lemma_add_gram_wf(acc: Seq<(Seq<u8>, Seq<u32>)>, g: Seq<u8>, l: u32, n: nat, bound: u32)
    requires
        gm_wf(acc, n, bound),
        !gm_contains(acc, g, l),
        g.len() == n,
        1 <= l,
        bound <= l,
    ensures
        gm_wf(add_gram(acc, g, l), n, l),
{
    crate::assoc::lemma_lookup_bytes_characterized(acc, g);
    let r = add_gram(acc, g, l);
    if lookup_bytes(acc, g) is None {
        assert forall|j: int| 0 <= j < acc.len() implies acc[j].0 != g by {}
        lemma_add_gram_miss(acc, g, l);
        assert(r =~= acc.push((g, seq![l])));
        assert forall|i: int, a: int, b: int|
            0 <= i < r.len() && 0 <= a < b < r[i].1.len() implies r[i].1[a] < r[i].1[b] by {
            if i < acc.len() {
                assert(acc[i].1[a] < acc[i].1[b]);
            }
        }
        assert forall|i: int, a: int|
            0 <= i < r.len() && 0 <= a < r[i].1.len() implies 1 <= #[trigger] r[i].1[a]
            <= l by {
            if i < acc.len() {
                assert(1 <= acc[i].1[a] <= bound);
            } else {
                assert(r[i].1 =~= seq![l]);
            }
        }
    } else {
        let v = lookup_bytes(acc, g)->Some_0;
        let k = choose|k: int| 0 <= k < acc.len() && acc[k] == (g, v);
        assert forall|j: int| 0 <= j < k implies acc[j].0 != g by {
            assert(acc[j].0 != acc[k].0);
        }
        lemma_add_gram_hit(acc, g, l, k);
        assert(r =~= acc.update(k, (g, acc[k].1.push(l))));
        assert(!acc[k].1.contains(l));
        assert forall|a: int| 0 <= a < acc[k].1.len() implies acc[k].1[a] < l by {
            assert(1 <= acc[k].1[a] <= bound);
            assert(acc[k].1[a] != l);
        }
        assert forall|i: int, a: int, b: int|
            0 <= i < r.len() && 0 <= a < b < r[i].1.len() implies r[i].1[a] < r[i].1[b] by {
            if i != k {
                assert(acc[i].1[a] < acc[i].1[b]);
            } else {
                if b < acc[k].1.len() {
                    assert(acc[k].1[a] < acc[k].1[b]);
                } else {
                    assert(r[k].1[b] == l);
                    assert(acc[k].1[a] < l);
                }
            }
        }
        assert forall|i: int, a: int|
            0 <= i < r.len() && 0 <= a < r[i].1.len() implies 1 <= #[trigger] r[i].1[a]
            <= l by {
            if i != k {
                assert(1 <= acc[i].1[a] <= bound);
            } else if a < acc[k].1.len() {
                assert(1 <= acc[k].1[a] <= bound);
            } else {
                assert(r[k].1[a] == l);
            }
        }
    }
}

/// Appends `lid` to the entry of `g`, as `add_gram` says.
fn add_gram_line(out: &mut Vec<(NgramIndex, Vec<LineIndex>)>, g: &NgramIndex, lid: LineIndex)
    requires
        g@.len() > 0,
    ensures
        gram_map_view(final(out)@) == add_gram(gram_map_view(old(out)@), g@, lid@),
{
    let ghost before = gram_map_view(old(out)@);
    let mut k: usize = 0;
    while k < out.len()
        invariant
            out@ == old(out)@,
            before == gram_map_view(out@),
            0 <= k <= out@.len(),
            before.len() == out@.len(),
            forall|j: int| 0 <= j < k ==> before[j].0 != g@,
        decreases out@.len() - k,
    {
        if bytes_eq(out[k].0.bytes().as_slice(), g.bytes().as_slice()) {
            proof {
                assert(before[k as int].0 == g@);
            }
            let mut entry = out.remove(k);
            entry.1.push(lid);
            proof {
                assert(entry.1@.map_values(|l: LineIndex| l@) =~= before[k as int].1.push(lid@));
            }
            out.insert(k, entry);
            proof {
                assert(out@ =~= old(out)@.update(k as int, (entry.0, entry.1)));
                lemma_add_gram_hit(before, g@, lid@, k as int);
                assert(gram_map_view(out@) =~= before.update(
                    k as int,
                    (g@, before[k as int].1.push(lid@)),
                ));
            }
            return ;
        }
        k += 1;
    }
    let mut fresh: Vec<LineIndex> = Vec::new();
    fresh.push(lid);
    proof {
        assert(fresh@.map_values(|l: LineIndex| l@) =~= seq![lid@]);
    }
    out.push((NgramIndex::new(g.bytes().as_slice()), fresh));
    proof {
        lemma_add_gram_miss(before, g@, lid@);
        assert(gram_map_view(out@) =~= before.push((g@, seq![lid@])));
    }
}

/// The extraction map matches the line membership seen so far.
pub open spec fn gm_lines_exact(
    m: Seq<(Seq<u8>, Seq<u32>)>,
    lines: Seq<Seq<char>>,
    n: nat,
    upto: int,
) -> bool {
    forall|g: Seq<u8>, l: u32|
        gm_contains(m, g, l) <==> (1 <= l <= upto && is_window(
            vstd::utf8::encode_utf8(lines[l - 1]),
            n,
            g,
        ))
}

/// The extraction map extends a base map by the first `k` grams of one
/// line.
spec fn gm_step(
    m: Seq<(Seq<u8>, Seq<u32>)>,
    m0: Seq<(Seq<u8>, Seq<u32>)>,
    lid: u32,
    grams: Seq<NgramIndex>,
    k: int,
) -> bool {
    forall|g: Seq<u8>, l: u32|
        gm_contains(m, g, l) <==> (gm_contains(m0, g, l) || (l == lid && exists|j: int|
            0 <= j < k && grams[j]@ == g))
}

impl Buuilder {
    /// Stage A of the build: extracts one file's n-gram map against the
    /// frozen allocator. A file whose path was never registered yields
    /// nothing. In the returned map, an n-gram holds exactly the 1-based
    /// numbers of the lines in which it occurs as a byte window, in
    /// ascending order.
    pub fn index(
        file_index_builder: &FileIndexFinalBuilder,
        file_content: FileContent,
        ngram_len: u8,
    ) -> (r: Option<(FileIndex, FileContent, Vec<(NgramIndex, Vec<LineIndex>)>)>)
        requires
            ngram_len >= 1,
            file_content.lines_spec().len() < u32::MAX,
        ensures
            match r {
                None => lookup_chars(
                    file_index_builder.entries(),
                    file_content.name_spec(),
                ) is None,
                Some((fid, fc, m)) => {
                    &&& lookup_chars(file_index_builder.entries(), file_content.name_spec())
                        == Some(fid@)
                    &&& fc == file_content
                    &&& gm_wf(
                        gram_map_view(m@),
                        ngram_len as nat,
                        file_content.lines_spec().len() as u32,
                    )
                    &&& gm_lines_exact(
                        gram_map_view(m@),
                        file_content.lines_spec(),
                        ngram_len as nat,
                        file_content.lines_spec().len() as int,
                    )
                },
            },
    {
        let fid: FileIndex = match file_index_builder.get(file_content.get_name()) {
            None => {
                return None;
            },
            Some(f) => *f,
        };
        let ghost lines = file_content.lines_spec();
        let mut m: Vec<(NgramIndex, Vec<LineIndex>)> = Vec::new();
        let nlines = file_content.lines_len();
        let lines_sl = file_content.lines();
        let mut li: usize = 0;
        proof {
            assert(gram_map_view(m@) =~= Seq::<(Seq<u8>, Seq<u32>)>::empty());
        }
        while li < nlines
            invariant
                ngram_len >= 1,
                lines == file_content.lines_spec(),
                lines_sl@.map_values(|s: String| s@) == lines,
                nlines == lines.len() < u32::MAX,
                0 <= li <= nlines,
                gm_wf(gram_map_view(m@), ngram_len as nat, li as u32),
                gm_lines_exact(gram_map_view(m@), lines, ngram_len as nat, li as int),
            decreases nlines - li,
        {
            let line = &lines_sl[li];
            let lb = line.as_str().as_bytes();
            let ghost lbytes = vstd::utf8::encode_utf8(lines[li as int]);
            proof {
                assert(lines_sl@[li as int]@ == lines[li as int]);
                assert(lb@ == lbytes);
            }
            let grams = NgramIndex::from_str(lb, ngram_len);
            let lid = LineIndex::new((li + 1) as u32);
            let ghost m0 = gram_map_view(m@);
            let mut k: usize = 0;
            proof {
                assert(gm_step(gram_map_view(m@), m0, lid@, grams@, 0));
            }
            while k < grams.len()
                invariant
                    ngram_len >= 1,
                    0 <= li < nlines < u32::MAX,
                    lid@ == li + 1,
                    0 <= k <= grams@.len(),
                    lbytes == vstd::utf8::encode_utf8(lines[li as int]),
                    crate::index::grams_strictly_sorted(grams@),
                    forall|b: Seq<u8>|
                        contains_gram(grams@, b) <==> is_window(lbytes, ngram_len as nat, b),
                    gm_wf(gram_map_view(m@), ngram_len as nat, lid@),
                    gm_step(gram_map_view(m@), m0, lid@, grams@, k as int),
                    gm_lines_exact(m0, lines, ngram_len as nat, li as int),
                decreases grams@.len() - k,
            {
                let ghost cur = gram_map_view(m@);
                let ghost gv = grams@[k as int]@;
                proof {
                    assert(contains_gram(grams@, gv));
                    assert(is_window(lbytes, ngram_len as nat, gv));
                    let wi = choose|wi: int|
                        0 <= wi <= lbytes.len() - ngram_len as nat && gv == crate::index::window_at(
                            lbytes,
                            ngram_len as nat,
                            wi,
                        );
                    assert(gv.len() == ngram_len as nat);
                    assert(!gm_contains(cur, gv, lid@)) by {
                        if gm_contains(cur, gv, lid@) {
                            if gm_contains(m0, gv, lid@) {
                                assert(1 <= lid@ <= li);
                            } else {
                                let j = choose|j: int| 0 <= j < k && grams@[j]@ == gv;
                                crate::index::lemma_lex_lt_asym(grams@[j]@, grams@[k as int]@);
                            }
                        }
                    }
                    assert(grams@[k as int]@.len() > 0);
                }
                add_gram_line(&mut m, &grams[k], lid);
                proof {
                    lemma_add_gram_wf(cur, gv, lid@, ngram_len as nat, lid@);
                    assert forall|g: Seq<u8>, l: u32|
                        gm_contains(gram_map_view(m@), g, l) <==> (gm_contains(m0, g, l) || (l
                            == lid@ && exists|j: int| 0 <= j < k + 1 && grams@[j]@ == g)) by {
                        lemma_add_gram_contains(cur, gv, lid@, g, l);
                        if gm_contains(gram_map_view(m@), g, l) && !gm_contains(m0, g, l) {
                            if g == gv && l == lid@ {
                                assert(0 <= k < k + 1 && grams@[k as int]@ == g);
                            }
                        }
                        if !gm_contains(m0, g, l) && l == lid@ && (exists|j: int|
                            0 <= j < k + 1 && grams@[j]@ == g) {
                            let j = choose|j: int| 0 <= j < k + 1 && grams@[j]@ == g;
                            if j == k {
                                assert(g == gv);
                            } else {
                                assert(exists|j2: int| 0 <= j2 < k && grams@[j2]@ == g);
                            }
                        }
                    }
                    assert(gm_step(gram_map_view(m@), m0, lid@, grams@, k + 1)) by {
                        assert forall|g: Seq<u8>, l: u32|
                            gm_contains(gram_map_view(m@), g, l) <==> (gm_contains(m0, g, l) || (
                            l == lid@ && exists|j: int| 0 <= j < k + 1 && grams@[j]@ == g)) by {
                            assert(gm_contains(gram_map_view(m@), g, l) <==> (gm_contains(
                                m0,
                                g,
                                l,
                            ) || (l == lid@ && exists|j: int| 0 <= j < k + 1 && grams@[j]@ == g)));
                        }
                    }
                }
                k += 1;
            }
            proof {
                let mv = gram_map_view(m@);
                assert forall|g: Seq<u8>, l: u32|
                    gm_contains(mv, g, l) <==> (1 <= l <= li + 1 && is_window(
                        vstd::utf8::encode_utf8(lines[l - 1]),
                        ngram_len as nat,
                        g,
                    )) by {
                    if gm_contains(mv, g, l) {
                        if !gm_contains(m0, g, l) {
                            assert(l == lid@);
                            assert(exists|j: int| 0 <= j < grams@.len() && grams@[j]@ == g);
                            assert(contains_gram(grams@, g));
                            assert(is_window(lbytes, ngram_len as nat, g));
                        }
                    }
                    if 1 <= l <= li + 1 && is_window(
                        vstd::utf8::encode_utf8(lines[l - 1]),
                        ngram_len as nat,
                        g,
                    ) {
                        if l == li + 1 {
                            assert(is_window(lbytes, ngram_len as nat, g));
                            assert(contains_gram(grams@, g));
                            let j = choose|j: int| 0 <= j < grams@.len() && grams@[j]@ == g;
                            assert(gm_contains(mv, g, l));
                        } else {
                            assert(gm_contains(m0, g, l));
                        }
                    }
                }
                assert(gm_lines_exact(mv, lines, ngram_len as nat, li + 1));
            }
            li += 1;
        }
        proof {
            assert(gm_wf(gram_map_view(m@), ngram_len as nat, lines.len() as u32));
        }
        Some((fid, file_content, m))
    }
}

/// The merged map as raw pairs of n-gram bytes and `(file, line)` pairs.
pub open spec fn merged_view(v: Seq<(NgramIndex, Vec<FileLineIndex>)>) -> Seq<
    (Seq<u8>, Seq<(u32, u32)>),
> {
    v.map_values(
        |p: (NgramIndex, Vec<FileLineIndex>)| (p.0@, p.1@.map_values(|x: FileLineIndex| x@)),
    )
}

/// Whether the merged map holds the pair `pr` under n-gram `g`.
pub open spec fn mv_contains(m: Seq<(Seq<u8>, Seq<(u32, u32)>)>, g: Seq<u8>, pr: (u32, u32)) -> bool {
    exists|i: int| 0 <= i < m.len() && m[i].0 == g && m[i].1.contains(pr)
}

/// Appends one file's lines for one n-gram onto the merged map.
fn append_posting(
    out: &mut Vec<(NgramIndex, Vec<FileLineIndex>)>,
    g: &NgramIndex,
    fid: FileIndex,
    lids: &Vec<LineIndex>,
)
    requires
        g@.len() > 0,
        crate::assoc::unique_keys_bytes(merged_view(old(out)@)),
    ensures
        crate::assoc::unique_keys_bytes(merged_view(final(out)@)),
        merged_view(final(out)@).len() >= merged_view(old(out)@).len(),
        forall|a: int|
            0 <= a < merged_view(old(out)@).len() ==> (#[trigger] merged_view(final(out)@)[a]).0
                == merged_view(old(out)@)[a].0,
        forall|a: int|
            merged_view(old(out)@).len() <= a < merged_view(final(out)@).len() ==> (
            #[trigger] merged_view(final(out)@)[a]).0 == g@,
        forall|h: Seq<u8>|
            h != g@ ==> #[trigger] lookup_bytes(merged_view(final(out)@), h) == lookup_bytes(
                merged_view(old(out)@),
                h,
            ),
        lookup_bytes(merged_view(final(out)@), g@) == Some(
            (match lookup_bytes(merged_view(old(out)@), g@) {
                Some(ls) => ls,
                None => Seq::<(u32, u32)>::empty(),
            }) + lids@.map_values(|l: LineIndex| l@).map_values(|l: u32| (fid@, l)),
        ),
        forall|h: Seq<u8>, pr: (u32, u32)|
            mv_contains(merged_view(final(out)@), h, pr) <==> (mv_contains(
                merged_view(old(out)@),
                h,
                pr,
            ) || (h == g@ && lids@.map_values(|l: LineIndex| l@).contains(pr.1) && pr.0 == fid@)),
{
    let ghost before = merged_view(old(out)@);
    let ghost pairs = lids@.map_values(|l: LineIndex| l@);
    let mut k: usize = 0;
    while k < out.len()
        invariant
            out@ == old(out)@,
            before == merged_view(out@),
            before.len() == out@.len(),
            pairs == lids@.map_values(|l: LineIndex| l@),
            crate::assoc::unique_keys_bytes(before),
            g@.len() > 0,
            0 <= k <= out@.len(),
            forall|a: int| 0 <= a < k ==> (#[trigger] before[a]).0 != g@,
        decreases out@.len() - k,
    {
        if bytes_eq(out[k].0.bytes().as_slice(), g.bytes().as_slice()) {
            proof {
                assert(before[k as int].0 == g@);
            }
            let mut entry = out.remove(k);
            let ghost oldlines = entry.1@.map_values(|x: FileLineIndex| x@);
            proof {
                assert(oldlines == before[k as int].1);
            }
            let mut j: usize = 0;
            while j < lids.len()
                invariant
                    0 <= j <= lids@.len(),
                    pairs == lids@.map_values(|l: LineIndex| l@),
                    pairs.len() == lids@.len(),
                    out@ == old(out)@.remove(k as int),
                    before == merged_view(old(out)@),
                    crate::assoc::unique_keys_bytes(before),
                    before.len() == old(out)@.len(),
                    0 <= k < before.len(),
                    before[k as int].0 == g@,
                    entry.0@ == g@,
                    oldlines == before[k as int].1,
                    entry.1@.map_values(|x: FileLineIndex| x@) == oldlines + pairs.take(
                        j as int,
                    ).map_values(|l: u32| (fid@, l)),
                decreases lids@.len() - j,
            {
                let ghost bl = entry.1@.map_values(|x: FileLineIndex| x@);
                entry.1.push(FileLineIndex { file_id: fid, line_id: lids[j] });
                proof {
                    assert(entry.1@.map_values(|x: FileLineIndex| x@) =~= bl.push(
                        (fid@, pairs[j as int]),
                    ));
                    assert(pairs.take(j + 1).map_values(|l: u32| (fid@, l)) =~= pairs.take(
                        j as int,
                    ).map_values(|l: u32| (fid@, l)).push((fid@, pairs[j as int])));
                    assert(entry.1@.map_values(|x: FileLineIndex| x@) =~= oldlines + pairs.take(
                        j + 1,
                    ).map_values(|l: u32| (fid@, l)));
                }
                j += 1;
            }
            proof {
                assert(pairs.take(j as int) =~= pairs);
            }
            out.insert(k, entry);
            proof {
                let newlines = oldlines + pairs.map_values(|l: u32| (fid@, l));
                assert(out@ =~= old(out)@.update(k as int, (entry.0, entry.1)));
                assert(merged_view(out@) =~= before.update(k as int, (g@, newlines)));
                let after = merged_view(out@);
                assert forall|a: int, b: int|
                    0 <= a < b < after.len() implies after[a].0 != after[b].0 by {
                    assert(before[a].0 != before[b].0);
                }
                crate::assoc::lemma_lookup_bytes_unique(before, k as int);
                assert(lookup_bytes(before, g@) == Some(oldlines));
                assert forall|h: Seq<u8>|
                    h != g@ implies #[trigger] lookup_bytes(after, h) == lookup_bytes(
                    before,
                    h,
                ) by {
                    crate::assoc::lemma_lookup_bytes_update(before, k as int, newlines, h);
                }
                assert(lookup_bytes(after, g@) == Some(oldlines + pairs.map_values(
                    |l: u32| (fid@, l),
                ))) by {
                    crate::assoc::lemma_lookup_bytes_update(before, k as int, newlines, g@);
                }
                assert forall|h: Seq<u8>, pr: (u32, u32)|
                    mv_contains(after, h, pr) <==> (mv_contains(before, h, pr) || (h == g@
                        && pairs.contains(pr.1) && pr.0 == fid@)) by {
                    if mv_contains(after, h, pr) {
                        let i = choose|i: int|
                            0 <= i < after.len() && after[i].0 == h && after[i].1.contains(pr);
                        if i == k {
                            let w = choose|w: int|
                                0 <= w < newlines.len() && newlines[w] == pr;
                            if w < oldlines.len() {
                                assert(before[k as int].1.contains(pr));
                            } else {
                                let mp = pairs.map_values(|l: u32| (fid@, l));
                                assert(newlines[w] == mp[w - oldlines.len()]);
                                assert(pairs[w - oldlines.len()] == pr.1 && pr.0 == fid@);
                                assert(pairs.contains(pr.1));
                            }
                        } else {
                            assert(before[i].0 == h && before[i].1.contains(pr));
                        }
                    }
                    if mv_contains(before, h, pr) {
                        let i = choose|i: int|
                            0 <= i < before.len() && before[i].0 == h && before[i].1.contains(
                                pr,
                            );
                        if i == k {
                            let w = choose|w: int|
                                0 <= w < before[k as int].1.len() && before[k as int].1[w] == pr;
                            assert(newlines[w] == pr);
                            assert(after[k as int].1.contains(pr));
                        } else {
                            assert(after[i].0 == h && after[i].1.contains(pr));
                        }
                    }
                    if h == g@ && pairs.contains(pr.1) && pr.0 == fid@ {
                        let w = choose|w: int| 0 <= w < pairs.len() && pairs[w] == pr.1;
                        let mp = pairs.map_values(|l: u32| (fid@, l));
                        assert(mp[w] == pr);
                        assert(newlines[oldlines.len() + w] == pr);
                        assert(after[k as int].1.contains(pr));
                    }
                }
            }
            return ;
        }
        k += 1;
    }
    let mut fresh: Vec<FileLineIndex> = Vec::new();
    let mut j: usize = 0;
    while j < lids.len()
        invariant
            0 <= j <= lids@.len(),
            pairs == lids@.map_values(|l: LineIndex| l@),
            pairs.len() == lids@.len(),
            out@ == old(out)@,
            before == merged_view(out@),
            crate::assoc::unique_keys_bytes(before),
            before.len() == out@.len(),
            g@.len() > 0,
            forall|a: int| 0 <= a < before.len() ==> (#[trigger] before[a]).0 != g@,
            fresh@.map_values(|x: FileLineIndex| x@) == pairs.take(j as int).map_values(
                |l: u32| (fid@, l),
            ),
        decreases lids@.len() - j,
    {
        let ghost bl = fresh@.map_values(|x: FileLineIndex| x@);
        fresh.push(FileLineIndex { file_id: fid, line_id: lids[j] });
        proof {
            assert(fresh@.map_values(|x: FileLineIndex| x@) =~= bl.push((fid@, pairs[j as int])));
            assert(pairs.take(j + 1).map_values(|l: u32| (fid@, l)) =~= pairs.take(
                j as int,
            ).map_values(|l: u32| (fid@, l)).push((fid@, pairs[j as int])));
        }
        j += 1;
    }
    proof {
        assert(pairs.take(j as int) =~= pairs);
    }
    out.push((NgramIndex::new(g.bytes().as_slice()), fresh));
    proof {
        let mp = pairs.map_values(|l: u32| (fid@, l));
        let after = merged_view(out@);
        assert(after =~= before.push((g@, mp)));
        assert forall|h: Seq<u8>|
            h != g@ implies #[trigger] lookup_bytes(after, h) == lookup_bytes(before, h) by {
            crate::assoc::lemma_lookup_bytes_append(before, g@, mp, h);
        }
        assert(lookup_bytes(after, g@) == Some(mp)) by {
            crate::assoc::lemma_lookup_bytes_append(before, g@, mp, g@);
        }
        crate::assoc::lemma_lookup_bytes_characterized(before, g@);
        assert(lookup_bytes(before, g@) is None);
        assert(Seq::<(u32, u32)>::empty() + mp =~= mp);
        assert forall|a: int, b: int|
            0 <= a < b < after.len() implies after[a].0 != after[b].0 by {
            if b < before.len() {
                assert(before[a].0 != before[b].0);
            } else {
                assert(before[a].0 != g@);
            }
        }
        assert forall|h: Seq<u8>, pr: (u32, u32)|
            mv_contains(after, h, pr) <==> (mv_contains(before, h, pr) || (h == g@
                && pairs.contains(pr.1) && pr.0 == fid@)) by {
            if mv_contains(after, h, pr) {
                let i = choose|i: int|
                    0 <= i < after.len() && after[i].0 == h && after[i].1.contains(pr);
                if i == before.len() {
                    let w = choose|w: int| 0 <= w < mp.len() && mp[w] == pr;
                    assert(pairs[w] == pr.1 && pr.0 == fid@);
                    assert(pairs.contains(pr.1));
                } else {
                    assert(before[i].0 == h && before[i].1.contains(pr));
                }
            }
            if mv_contains(before, h, pr) {
                let i = choose|i: int|
                    0 <= i < before.len() && before[i].0 == h && before[i].1.contains(pr);
                assert(after[i].0 == h && after[i].1.contains(pr));
            }
            if h == g@ && pairs.contains(pr.1) && pr.0 == fid@ {
                let w = choose|w: int| 0 <= w < pairs.len() && pairs[w] == pr.1;
                assert(mp[w] == pr);
                assert(after[before.len() as int].1.contains(pr));
            }
        }
    }
}

/// Whether the assembled postings place line `l` of file `f` under `g`.
pub open spec fn post_has(
    posts: Seq<(Seq<u8>, Seq<(u32, Seq<u32>)>)>,
    g: Seq<u8>,
    f: u32,
    l: u32,
) -> bool {
    exists|j: int|
        0 <= j < posts.len() && posts[j].0 == g && crate::data::posting_contains(
            posts[j].1,
            f,
            l,
        )
}

/// The merged map extends a base map by the first `e` entries of one
/// file's extraction.
spec fn mv_step(
    m: Seq<(Seq<u8>, Seq<(u32, u32)>)>,
    base: Seq<(Seq<u8>, Seq<(u32, u32)>)>,
    fid: u32,
    gm: Seq<(Seq<u8>, Seq<u32>)>,
    e: int,
) -> bool {
    forall|g: Seq<u8>, f: u32, l: u32|
        mv_contains(m, g, (f, l)) <==> (mv_contains(base, g, (f, l)) || (f == fid && exists|a: int|
            0 <= a < e && (#[trigger] gm[a]).0 == g && gm[a].1.contains(l)))
}

/// One file's contribution to the posting of `h`: its extracted lines
/// for `h`, each paired with the file's id, in extraction order (which
/// keeps lines ascending).
pub open spec fn gm_part(entries: Seq<(Seq<u8>, Seq<u32>)>, fid: u32, h: Seq<u8>) -> Seq<
    (u32, u32),
> {
    match lookup_bytes(entries, h) {
        Some(ls) => ls.map_values(|l: u32| (fid, l)),
        None => Seq::empty(),
    }
}

/// The posting of `h` after merging: each input file's lines for `h`,
/// concatenated in argument order.
pub open spec fn merged_pairs(
    items: Seq<(FileIndex, FileContent, Vec<(NgramIndex, Vec<LineIndex>)>)>,
    h: Seq<u8>,
) -> Seq<(u32, u32)>
    decreases items.len(),
{
    if items.len() == 0 {
        Seq::empty()
    } else {
        merged_pairs(items.drop_last(), h) + gm_part(
            gram_map_view(items.last().2@),
            items.last().0@,
            h,
        )
    }
}

/// The merged map holds exactly the extractions of the first `i` items.
pub open spec fn merged_upto(
    m: Seq<(Seq<u8>, Seq<(u32, u32)>)>,
    items: Seq<(FileIndex, FileContent, Vec<(NgramIndex, Vec<LineIndex>)>)>,
    i: int,
) -> bool {
    forall|g: Seq<u8>, f: u32, l: u32|
        mv_contains(m, g, (f, l)) <==> exists|i2: int|
            0 <= i2 < i && (#[trigger] items[i2]).0@ == f && gm_contains(
                gram_map_view(items[i2].2@),
                g,
                l,
            )
}

impl Buuilder {
    /// Stage B of the build: folds the per-file extractions into one
    /// record store. Postings keep first-seen n-gram order across files
    /// and concatenate each n-gram's lines file by file; grouping by
    /// file happens when the posting records are assembled.
    pub fn merge(
        ngram_len: u8,
        file_ngrams: Vec<(FileIndex, FileContent, Vec<(NgramIndex, Vec<LineIndex>)>)>,
    ) -> (r: Encode)
        requires
            ngram_len >= 1,
            forall|a: int, b: int|
                0 <= a < b < file_ngrams@.len() ==> (#[trigger] file_ngrams@[a]).0@ != (
                #[trigger] file_ngrams@[b]).0@,
            forall|i: int|
                0 <= i < file_ngrams@.len() ==> (
                #[trigger] file_ngrams@[i]).1.lines_spec().len() < u32::MAX,
            forall|i: int|
                0 <= i < file_ngrams@.len() ==> gm_wf(
                    gram_map_view((#[trigger] file_ngrams@[i]).2@),
                    ngram_len as nat,
                    file_ngrams@[i].1.lines_spec().len() as u32,
                ),
        ensures
            r.n() == ngram_len,
            r.wf(),
            r.fresh(),
            r.paths_view() == file_ngrams@.map_values(
                |t: (FileIndex, FileContent, Vec<(NgramIndex, Vec<LineIndex>)>)| (
                    t.0@,
                    (t.1.name_spec(), Seq::<(u32, (u64, u32))>::empty()),
                ),
            ),
            r.lines_view() == crate::encode::all_file_lines(
                file_ngrams@.map_values(
                    |t: (FileIndex, FileContent, Vec<(NgramIndex, Vec<LineIndex>)>)| (
                        t.0@,
                        t.1.lines_spec(),
                    ),
                ),
            ),
            forall|g: Seq<u8>, f: u32, l: u32|
                post_has(r.posts_view(), g, f, l) <==> exists|i2: int|
                    0 <= i2 < file_ngrams@.len() && (#[trigger] file_ngrams@[i2]).0@ == f
                        && gm_contains(gram_map_view(file_ngrams@[i2].2@), g, l),
            forall|j: int|
                0 <= j < r.posts_view().len() ==> (#[trigger] r.posts_view()[j]).1
                    == crate::data::group_postings(
                    merged_pairs(file_ngrams@, r.posts_view()[j].0),
                ),
            forall|g: Seq<u8>, f: u32, l: u32|
                #![trigger post_has(r.posts_view(), g, f, l)]
                post_has(r.posts_view(), g, f, l) ==> lookup_u32(r.paths_view(), f) is Some
                    && exists|k: int|
                    0 <= k < r.lines_view().len() && (#[trigger] r.lines_view()[k]).0 == (f, l),
    {
        let ghost items0 = file_ngrams@;
        let nitems = file_ngrams.len();
        let mut rest = file_ngrams;
        let mut fid_to_file: Vec<(FileIndex, FileContent)> = Vec::new();
        let mut merged: Vec<(NgramIndex, Vec<FileLineIndex>)> = Vec::new();
        let mut i: usize = 0;
        proof {
            assert(rest@ =~= items0.skip(0));
            assert(merged_view(merged@) =~= Seq::<(Seq<u8>, Seq<(u32, u32)>)>::empty());
            assert forall|h: Seq<u8>|
                merged_pairs(items0.take(0), h) == Seq::<(u32, u32)>::empty() by {
                assert(items0.take(0) =~= Seq::<
                    (FileIndex, FileContent, Vec<(NgramIndex, Vec<LineIndex>)>),
                >::empty());
            }
        }
        while rest.len() > 0
            invariant
                ngram_len >= 1,
                forall|a: int, b: int|
                    0 <= a < b < items0.len() ==> (#[trigger] items0[a]).0@ != (
                    #[trigger] items0[b]).0@,
                forall|i2: int|
                    0 <= i2 < items0.len() ==> (#[trigger] items0[i2]).1.lines_spec().len()
                        < u32::MAX,
                forall|i2: int|
                    0 <= i2 < items0.len() ==> gm_wf(
                        gram_map_view((#[trigger] items0[i2]).2@),
                        ngram_len as nat,
                        items0[i2].1.lines_spec().len() as u32,
                    ),
                0 <= i <= items0.len(),
                items0.len() == nitems <= usize::MAX,
                i + rest@.len() == items0.len(),
                rest@ == items0.skip(i as int),
                fid_to_file@ == items0.take(i as int).map_values(
                    |t: (FileIndex, FileContent, Vec<(NgramIndex, Vec<LineIndex>)>)| (
                        t.0,
                        t.1,
                    ),
                ),
                crate::assoc::unique_keys_bytes(merged_view(merged@)),
                forall|a: int|
                    0 <= a < merged_view(merged@).len() ==> (#[trigger] merged_view(
                        merged@,
                    )[a]).0.len() == ngram_len,
                merged_upto(merged_view(merged@), items0, i as int),
                forall|h: Seq<u8>|
                    #![trigger lookup_bytes(merged_view(merged@), h)]
                    match lookup_bytes(merged_view(merged@), h) {
                        Some(ls) => ls == merged_pairs(items0.take(i as int), h),
                        None => merged_pairs(items0.take(i as int), h) == Seq::<
                            (u32, u32),
                        >::empty(),
                    },
            decreases rest@.len(),
        {
            let (fid, content, map) = rest.remove(0);
            proof {
                assert(items0.skip(i as int)[0] == items0[i as int]);
                assert((fid, content, map) == items0[i as int]);
                assert(rest@ =~= items0.skip(i + 1));
                assert(items0.take(i + 1) =~= items0.take(i as int).push(items0[i as int]));
            }
            fid_to_file.push((fid, content));
            proof {
                assert(fid_to_file@ =~= items0.take(i + 1).map_values(
                    |t: (FileIndex, FileContent, Vec<(NgramIndex, Vec<LineIndex>)>)| (
                        t.0,
                        t.1,
                    ),
                ));
            }
            let ghost gm = gram_map_view(map@);
            let ghost base = merged_view(merged@);
            let nentries = map.len();
            let mut e: usize = 0;
            proof {
                assert(gm_wf(gm, ngram_len as nat, items0[i as int].1.lines_spec().len() as u32));
                assert(mv_step(merged_view(merged@), base, fid@, gm, 0));
                assert forall|h: Seq<u8>| gm_part(gm.take(0), fid@, h) == Seq::<
                    (u32, u32),
                >::empty() by {
                    assert(gm.take(0) =~= Seq::<(Seq<u8>, Seq<u32>)>::empty());
                }
                assert forall|h: Seq<u8>|
                    #![trigger lookup_bytes(merged_view(merged@), h)]
                    match lookup_bytes(merged_view(merged@), h) {
                        Some(ls) => ls == merged_pairs(items0.take(i as int), h) + gm_part(
                            gm.take(0),
                            fid@,
                            h,
                        ),
                        None => merged_pairs(items0.take(i as int), h) + gm_part(
                            gm.take(0),
                            fid@,
                            h,
                        ) == Seq::<(u32, u32)>::empty(),
                    } by {
                    match lookup_bytes(merged_view(merged@), h) {
                        Some(ls) => {
                            assert(ls =~= merged_pairs(items0.take(i as int), h) + gm_part(
                                gm.take(0),
                                fid@,
                                h,
                            ));
                        },
                        None => {
                            assert(merged_pairs(items0.take(i as int), h) + gm_part(
                                gm.take(0),
                                fid@,
                                h,
                            ) =~= Seq::<(u32, u32)>::empty());
                        },
                    }
                }
            }
            while e < nentries
                invariant
                    ngram_len >= 1,
                    gm == gram_map_view(map@),
                    nentries == map@.len() == gm.len(),
                    0 <= e <= nentries,
                    0 <= i < items0.len(),
                    fid == items0[i as int].0,
                    gm == gram_map_view(items0[i as int].2@),
                    gm_wf(
                        gm,
                        ngram_len as nat,
                        items0[i as int].1.lines_spec().len() as u32,
                    ),
                    merged_upto(base, items0, i as int),
                    crate::assoc::unique_keys_bytes(merged_view(merged@)),
                    forall|a: int|
                        0 <= a < merged_view(merged@).len() ==> (#[trigger] merged_view(
                            merged@,
                        )[a]).0.len() == ngram_len,
                    mv_step(merged_view(merged@), base, fid@, gm, e as int),
                    forall|h: Seq<u8>|
                        #![trigger lookup_bytes(merged_view(merged@), h)]
                        match lookup_bytes(merged_view(merged@), h) {
                            Some(ls) => ls == merged_pairs(items0.take(i as int), h) + gm_part(
                                gm.take(e as int),
                                fid@,
                                h,
                            ),
                            None => merged_pairs(items0.take(i as int), h) + gm_part(
                                gm.take(e as int),
                                fid@,
                                h,
                            ) == Seq::<(u32, u32)>::empty(),
                        },
                decreases nentries - e,
            {
                let ghost cur = merged_view(merged@);
                let ghost gv = gm[e as int].0;
                proof {
                    assert(gm[e as int].0.len() == ngram_len);
                    assert(gm[e as int].0 == map@[e as int].0@);
                    assert(gm[e as int].1 == map@[e as int].1@.map_values(|l: LineIndex| l@));
                }
                append_posting(&mut merged, &map[e].0, fid, &map[e].1);
                proof {
                    let after = merged_view(merged@);
                    assert forall|a: int|
                        0 <= a < after.len() implies (#[trigger] after[a]).0.len()
                        == ngram_len by {
                        if a < cur.len() {
                            assert(after[a].0 == cur[a].0);
                        } else {
                            assert(after[a].0 == gv);
                        }
                    }
                    assert forall|g: Seq<u8>, f: u32, l: u32|
                        mv_contains(after, g, (f, l)) <==> (mv_contains(base, g, (f, l)) || (f
                            == fid@ && exists|a: int|
                            0 <= a < e + 1 && (#[trigger] gm[a]).0 == g && gm[a].1.contains(
                                l,
                            ))) by {
                        if mv_contains(after, g, (f, l)) && !mv_contains(cur, g, (f, l)) {
                            assert(g == gv && f == fid@);
                            assert(gm[e as int].0 == g);
                        }
                        if !mv_contains(base, g, (f, l)) && f == fid@ && (exists|a: int|
                            0 <= a < e + 1 && (#[trigger] gm[a]).0 == g && gm[a].1.contains(
                                l,
                            )) {
                            let a = choose|a: int|
                                0 <= a < e + 1 && (#[trigger] gm[a]).0 == g && gm[a].1.contains(
                                    l,
                                );
                            if a == e {
                                assert(mv_contains(after, g, (f, l)));
                            } else {
                                assert(exists|a2: int|
                                    0 <= a2 < e && (#[trigger] gm[a2]).0 == g
                                        && gm[a2].1.contains(l));
                            }
                        }
                    }
                    assert(mv_step(after, base, fid@, gm, e + 1)) by {
                        assert forall|g: Seq<u8>, f: u32, l: u32|
                            mv_contains(after, g, (f, l)) <==> (mv_contains(base, g, (f, l)) || (
                            f == fid@ && exists|a: int|
                                0 <= a < e + 1 && (#[trigger] gm[a]).0 == g && gm[a].1.contains(
                                    l,
                                ))) by {
                            assert(mv_contains(after, g, (f, l)) <==> (mv_contains(
                                base,
                                g,
                                (f, l),
                            ) || (f == fid@ && exists|a: int|
                                0 <= a < e + 1 && (#[trigger] gm[a]).0 == g && gm[a].1.contains(
                                    l,
                                ))));
                        }
                    }
                    // the lookup description advances by this one entry
                    assert(gm.take(e + 1) =~= gm.take(e as int).push(gm[e as int]));
                    assert forall|a: int, b: int|
                        0 <= a < b < gm.take(e as int).len() implies gm.take(e as int)[a].0
                        != gm.take(e as int)[b].0 by {
                        assert(gm[a].0 != gm[b].0);
                    }
                    assert forall|a: int|
                        0 <= a < gm.take(e as int).len() implies (#[trigger] gm.take(
                            e as int,
                        )[a]).0 != gv by {
                        assert(gm[a].0 != gm[e as int].0);
                    }
                    let mapped = gm[e as int].1.map_values(|l: u32| (fid@, l));
                    assert(map@[e as int].1@.map_values(|l: LineIndex| l@).map_values(
                        |l: u32| (fid@, l),
                    ) =~= mapped);
                    assert forall|h: Seq<u8>|
                        #![trigger lookup_bytes(after, h)]
                        match lookup_bytes(after, h) {
                            Some(ls) => ls == merged_pairs(items0.take(i as int), h) + gm_part(
                                gm.take(e + 1),
                                fid@,
                                h,
                            ),
                            None => merged_pairs(items0.take(i as int), h) + gm_part(
                                gm.take(e + 1),
                                fid@,
                                h,
                            ) == Seq::<(u32, u32)>::empty(),
                        } by {
                        crate::assoc::lemma_lookup_bytes_append(
                            gm.take(e as int),
                            gv,
                            gm[e as int].1,
                            h,
                        );
                        if h == gv {
                            crate::assoc::lemma_lookup_bytes_characterized(gm.take(e as int), gv);
                            assert(lookup_bytes(gm.take(e as int), gv) is None);
                            assert(gm_part(gm.take(e as int), fid@, gv) =~= Seq::<
                                (u32, u32),
                            >::empty());
                            assert(lookup_bytes(gm.take(e + 1), gv) == Some(gm[e as int].1));
                            assert(gm_part(gm.take(e + 1), fid@, gv) == mapped);
                            match lookup_bytes(cur, gv) {
                                Some(ls) => {
                                    assert(ls =~= merged_pairs(items0.take(i as int), gv));
                                    assert(lookup_bytes(after, gv) == Some(ls + mapped));
                                    assert(ls + mapped =~= merged_pairs(items0.take(i as int), gv)
                                        + gm_part(gm.take(e + 1), fid@, gv));
                                },
                                None => {
                                    assert(merged_pairs(items0.take(i as int), gv) =~= Seq::<
                                        (u32, u32),
                                    >::empty());
                                    assert(lookup_bytes(after, gv) == Some(
                                        Seq::<(u32, u32)>::empty() + mapped,
                                    ));
                                    assert(Seq::<(u32, u32)>::empty() + mapped =~= merged_pairs(
                                        items0.take(i as int),
                                        gv,
                                    ) + gm_part(gm.take(e + 1), fid@, gv));
                                },
                            }
                        } else {
                            assert(lookup_bytes(after, h) == lookup_bytes(cur, h));
                            assert(lookup_bytes(gm.take(e + 1), h) == lookup_bytes(
                                gm.take(e as int),
                                h,
                            ));
                            assert(gm_part(gm.take(e + 1), fid@, h) == gm_part(
                                gm.take(e as int),
                                fid@,
                                h,
                            ));
                        }
                    }
                }
                e += 1;
            }
            proof {
                assert forall|g: Seq<u8>, f: u32, l: u32|
                    mv_contains(merged_view(merged@), g, (f, l)) <==> exists|i2: int|
                        0 <= i2 < i + 1 && (#[trigger] items0[i2]).0@ == f && gm_contains(
                            gram_map_view(items0[i2].2@),
                            g,
                            l,
                        ) by {
                    if mv_contains(merged_view(merged@), g, (f, l)) {
                        if mv_contains(base, g, (f, l)) {
                            let i2 = choose|i2: int|
                                0 <= i2 < i && (#[trigger] items0[i2]).0@ == f && gm_contains(
                                    gram_map_view(items0[i2].2@),
                                    g,
                                    l,
                                );
                            assert(0 <= i2 < i + 1 && items0[i2].0@ == f && gm_contains(
                                gram_map_view(items0[i2].2@),
                                g,
                                l,
                            ));
                        } else {
                            let a = choose|a: int|
                                0 <= a < nentries && (#[trigger] gm[a]).0 == g
                                    && gm[a].1.contains(l);
                            assert(gm_contains(gm, g, l));
                            assert(items0[i as int].0@ == f && gm_contains(
                                gram_map_view(items0[i as int].2@),
                                g,
                                l,
                            ));
                        }
                    }
                    if exists|i2: int|
                        0 <= i2 < i + 1 && (#[trigger] items0[i2]).0@ == f && gm_contains(
                            gram_map_view(items0[i2].2@),
                            g,
                            l,
                        ) {
                        let i2 = choose|i2: int|
                            0 <= i2 < i + 1 && (#[trigger] items0[i2]).0@ == f && gm_contains(
                                gram_map_view(items0[i2].2@),
                                g,
                                l,
                            );
                        if i2 == i {
                            assert(f == fid@);
                            assert(gm_contains(gm, g, l));
                            assert(exists|a: int|
                                0 <= a < e && (#[trigger] gm[a]).0 == g && gm[a].1.contains(
                                    l,
                                )) by {
                                let a = choose|a2: int|
                                    0 <= a2 < gm.len() && gm[a2].0 == g && gm[a2].1.contains(l);
                                assert(0 <= a < e && gm[a].0 == g && gm[a].1.contains(l));
                            }
                            assert(mv_contains(merged_view(merged@), g, (f, l)));
                        } else {
                            assert(mv_contains(base, g, (f, l)));
                        }
                    }
                }
                // the lookup description now covers this whole item
                assert(gm.take(nentries as int) =~= gm);
                assert(items0.take(i + 1).drop_last() =~= items0.take(i as int));
                assert(items0.take(i + 1).last() == items0[i as int]);
                assert forall|h: Seq<u8>|
                    #![trigger lookup_bytes(merged_view(merged@), h)]
                    match lookup_bytes(merged_view(merged@), h) {
                        Some(ls) => ls == merged_pairs(items0.take(i + 1), h),
                        None => merged_pairs(items0.take(i + 1), h) == Seq::<
                            (u32, u32),
                        >::empty(),
                    } by {
                    assert(merged_pairs(items0.take(i + 1), h) == merged_pairs(
                        items0.take(i as int),
                        h,
                    ) + gm_part(gm, fid@, h));
                    match lookup_bytes(merged_view(merged@), h) {
                        Some(ls) => {
                            assert(ls == merged_pairs(items0.take(i as int), h) + gm_part(
                                gm.take(nentries as int),
                                fid@,
                                h,
                            ));
                        },
                        None => {
                            assert(merged_pairs(items0.take(i as int), h) + gm_part(
                                gm.take(nentries as int),
                                fid@,
                                h,
                            ) == Seq::<(u32, u32)>::empty());
                        },
                    }
                }
            }
            i += 1;
        }
        proof {
            assert(items0.take(i as int) =~= items0);
        }
        let ghost mv = merged_view(merged@);
        proof {
            // every merged line number comes from an extraction, so it is
            // positive and every file id is the item's own
            assert forall|a: int, w: int|
                0 <= a < merged@.len() && 0 <= w < merged@[a].1@.len() implies (
            #[trigger] merged@[a].1@[w])@.1 != 0 by {
                let g = mv[a].0;
                let pr = mv[a].1[w];
                assert(mv[a].1.contains(pr));
                assert(mv_contains(mv, g, pr));
                let i2 = choose|i2: int|
                    0 <= i2 < items0.len() && (#[trigger] items0[i2]).0@ == pr.0 && gm_contains(
                        gram_map_view(items0[i2].2@),
                        g,
                        pr.1,
                    );
                let gmv = gram_map_view(items0[i2].2@);
                let b = choose|b: int|
                    0 <= b < gmv.len() && gmv[b].0 == g && gmv[b].1.contains(pr.1);
                let w2 = choose|w2: int| 0 <= w2 < gmv[b].1.len() && gmv[b].1[w2] == pr.1;
                assert(1 <= gmv[b].1[w2]);
            }
        }
        proof {
            assert(merged@.map_values(
                |p: (NgramIndex, Vec<FileLineIndex>)| (
                    p.0@,
                    p.1@.map_values(|x: FileLineIndex| x@),
                ),
            ) =~~= merged_view(merged@));
            assert forall|a: int|
                0 <= a < merged@.len() implies (#[trigger] merged@[a]).0@.len()
                == ngram_len by {
                assert(merged_view(merged@)[a].0.len() == ngram_len);
            }
            let fmap = fid_to_file@.map_values(
                |p: (FileIndex, FileContent)| (p.0@, (p.1.name_spec(), p.1.lines_spec())),
            );
            assert forall|a: int, b: int|
                0 <= a < b < fmap.len() implies fmap[a].0 != fmap[b].0 by {
                assert(fid_to_file@[a] == (items0[a].0, items0[a].1));
                assert(fid_to_file@[b] == (items0[b].0, items0[b].1));
                assert(items0[a].0@ != items0[b].0@);
            }
            assert forall|a: int|
                0 <= a < fid_to_file@.len() implies (
            #[trigger] fid_to_file@[a]).1.lines_spec().len() < u32::MAX by {
                assert(fid_to_file@[a] == (items0[a].0, items0[a].1));
                assert(items0[a].1.lines_spec().len() < u32::MAX);
            }
        }
        let ghost files_in = fid_to_file@;
        let enc = Encode::new(ngram_len, fid_to_file, merged);
        proof {
            assert(files_in.map_values(
                |p: (FileIndex, FileContent)| (
                    p.0@,
                    (p.1.name_spec(), Seq::<(u32, (u64, u32))>::empty()),
                ),
            ) =~~= items0.map_values(
                |t: (FileIndex, FileContent, Vec<(NgramIndex, Vec<LineIndex>)>)| (
                    t.0@,
                    (t.1.name_spec(), Seq::<(u32, (u64, u32))>::empty()),
                ),
            )) by {
                assert forall|a: int| 0 <= a < items0.len() implies files_in[a] == (
                    items0[a].0,
                    items0[a].1,
                ) by {}
            }
            assert(files_in.map_values(
                |p: (FileIndex, FileContent)| (p.0@, p.1.lines_spec()),
            ) =~~= items0.map_values(
                |t: (FileIndex, FileContent, Vec<(NgramIndex, Vec<LineIndex>)>)| (
                    t.0@,
                    t.1.lines_spec(),
                ),
            )) by {
                assert forall|a: int| 0 <= a < items0.len() implies files_in[a] == (
                    items0[a].0,
                    items0[a].1,
                ) by {}
            }
            let posts = enc.posts_view();
            assert forall|g: Seq<u8>, f: u32, l: u32|
                post_has(posts, g, f, l) <==> mv_contains(mv, g, (f, l)) by {
                if post_has(posts, g, f, l) {
                    let j = choose|j: int|
                        0 <= j < posts.len() && posts[j].0 == g && crate::data::posting_contains(
                            posts[j].1,
                            f,
                            l,
                        );
                    let pairs = merged@[j].1@.map_values(|x: FileLineIndex| x@);
                    assert(posts[j].1 == crate::data::group_postings(pairs));
                    crate::data::lemma_group_postings_contains(pairs, f, l);
                    assert(pairs.contains((f, l)));
                    assert(mv[j].0 == g && mv[j].1.contains((f, l)));
                }
                if mv_contains(mv, g, (f, l)) {
                    let j = choose|j: int|
                        0 <= j < mv.len() && mv[j].0 == g && mv[j].1.contains((f, l));
                    let pairs = merged@[j].1@.map_values(|x: FileLineIndex| x@);
                    crate::data::lemma_group_postings_contains(pairs, f, l);
                    assert(posts[j].0 == g && crate::data::posting_contains(posts[j].1, f, l));
                }
            }
            // each posting is exactly the grouped concatenation, in
            // argument order, of the inputs' extracted lines
            assert forall|j: int|
                0 <= j < enc.posts_view().len() implies (#[trigger] enc.posts_view()[j]).1
                == crate::data::group_postings(
                merged_pairs(items0, enc.posts_view()[j].0),
            ) by {
                let pairs = merged@[j].1@.map_values(|x: FileLineIndex| x@);
                assert(enc.posts_view()[j] == (mv[j].0, crate::data::group_postings(pairs)));
                assert(mv[j].1 == pairs);
                crate::assoc::lemma_lookup_bytes_unique(mv, j);
                assert(lookup_bytes(mv, mv[j].0) == Some(mv[j].1));
                assert(mv[j].1 == merged_pairs(items0, mv[j].0));
            }
            // every posting position names a registered file and one of
            // its 1-based lines
            assert forall|g: Seq<u8>, f: u32, l: u32|
                post_has(enc.posts_view(), g, f, l) implies lookup_u32(enc.paths_view(), f)
                is Some && exists|k: int|
                0 <= k < enc.lines_view().len() && (#[trigger] enc.lines_view()[k]).0 == (
                    f,
                    l,
                ) by {
                assert(mv_contains(mv, g, (f, l)));
                let i2 = choose|i2: int|
                    0 <= i2 < items0.len() && (#[trigger] items0[i2]).0@ == f && gm_contains(
                        gram_map_view(items0[i2].2@),
                        g,
                        l,
                    );
                assert(enc.paths_view()[i2].0 == f);
                crate::assoc::lemma_lookup_u32_unique(enc.paths_view(), i2);
                let gmv = gram_map_view(items0[i2].2@);
                let b = choose|b: int|
                    0 <= b < gmv.len() && gmv[b].0 == g && gmv[b].1.contains(l);
                let w = choose|w: int| 0 <= w < gmv[b].1.len() && gmv[b].1[w] == l;
                assert(1 <= l <= items0[i2].1.lines_spec().len());
                let filemap = items0.map_values(
                    |t: (FileIndex, FileContent, Vec<(NgramIndex, Vec<LineIndex>)>)| (
                        t.0@,
                        t.1.lines_spec(),
                    ),
                );
                assert forall|i3: int|
                    0 <= i3 < filemap.len() implies (#[trigger] filemap[i3]).1.len()
                    < u32::MAX by {
                    assert(items0[i3].1.lines_spec().len() < u32::MAX);
                }
                crate::encode::lemma_all_file_lines_key(filemap, f, l);
                assert(filemap[i2].0 == f && 1 <= l <= filemap[i2].1.len());
                assert(enc.lines_view() == crate::encode::all_file_lines(filemap)) by {
                    assert(files_in.map_values(
                        |p: (FileIndex, FileContent)| (p.0@, p.1.lines_spec()),
                    ) =~~= filemap) by {
                        assert forall|a: int| 0 <= a < items0.len() implies files_in[a] == (
                            items0[a].0,
                            items0[a].1,
                        ) by {}
                    }
                }
            }
        }
        enc
    }
}

} // verus!
