//! Core identifiers of the index: file ids, 1-based line numbers, and byte
//! n-gram keys, together with n-gram extraction from a line of bytes.

use vstd::prelude::*;

verus! {

/// Lexicographic strict order on byte sequences.
pub open spec fn lex_lt(a: Seq<u8>, b: Seq<u8>) -> bool
    decreases b.len(),
{
    if b.len() == 0 {
        false
    } else if a.len() == 0 {
        true
    } else if a[0] < b[0] {
        true
    } else if a[0] > b[0] {
        false
    } else {
        lex_lt(a.drop_first(), b.drop_first())
    }
}

pub proof fn lemma_lex_lt_total(a: Seq<u8>, b: Seq<u8>)
    ensures
        lex_lt(a, b) || lex_lt(b, a) || a == b,
    decreases a.len() + b.len(),
{
    if b.len() == 0 && a.len() == 0 {
        assert(a =~= b);
    } else if a.len() > 0 && b.len() > 0 && a[0] == b[0] {
        lemma_lex_lt_total(a.drop_first(), b.drop_first());
        if a.drop_first() == b.drop_first() {
            assert(a =~= seq![a[0]] + a.drop_first());
            assert(b =~= seq![b[0]] + b.drop_first());
        }
    }
}

pub proof fn lemma_lex_lt_asym(a: Seq<u8>, b: Seq<u8>)
    ensures
        lex_lt(a, b) ==> !lex_lt(b, a) && a != b,
    decreases a.len() + b.len(),
{
    if a.len() > 0 && b.len() > 0 && a[0] == b[0] {
        lemma_lex_lt_asym(a.drop_first(), b.drop_first());
        if lex_lt(a, b) && a == b {
            assert(a.drop_first() == b.drop_first());
        }
    } else if lex_lt(a, b) && a == b {
        assert(a.len() == b.len());
    }
}

pub proof fn lemma_lex_lt_trans(a: Seq<u8>, b: Seq<u8>, c: Seq<u8>)
    ensures
        lex_lt(a, b) && lex_lt(b, c) ==> lex_lt(a, c),
    decreases a.len() + b.len() + c.len(),
{
    if a.len() > 0 && b.len() > 0 && c.len() > 0 {
        lemma_lex_lt_trans(a.drop_first(), b.drop_first(), c.drop_first());
    }
}

/// If the first `i` bytes agree, the order is decided by the tails.
proof fn lemma_lex_lt_skip(a: Seq<u8>, b: Seq<u8>, i: int)
    requires
        0 <= i <= a.len(),
        0 <= i <= b.len(),
        forall|j: int| 0 <= j < i ==> a[j] == b[j],
    ensures
        lex_lt(a, b) == lex_lt(a.skip(i), b.skip(i)),
    decreases i,
{
    if i > 0 {
        assert(a.len() > 0 && b.len() > 0 && a[0] == b[0]);
        lemma_lex_lt_skip(a.drop_first(), b.drop_first(), i - 1);
        assert(a.drop_first().skip(i - 1) =~= a.skip(i));
        assert(b.drop_first().skip(i - 1) =~= b.skip(i));
    } else {
        assert(a.skip(0) =~= a);
        assert(b.skip(0) =~= b);
    }
}

/// Compares two byte slices in lexicographic order.
pub fn bytes_lt(a: &[u8], b: &[u8]) -> (r: bool)
    ensures
        r == lex_lt(a@, b@),
{
    let alen = a.len();
    let blen = b.len();
    let n = if alen < blen {
        alen
    } else {
        blen
    };
    let mut i: usize = 0;
    while i < n
        invariant
            0 <= i <= n,
            n == if a@.len() < b@.len() {
                a@.len()
            } else {
                b@.len()
            },
            forall|j: int| 0 <= j < i ==> a@[j] == b@[j],
        decreases n - i,
    {
        if a[i] < b[i] {
            proof {
                lemma_lex_lt_skip(a@, b@, i as int);
            }
            return true;
        }
        if a[i] > b[i] {
            proof {
                lemma_lex_lt_skip(a@, b@, i as int);
                lemma_lex_lt_asym(b@.skip(i as int), a@.skip(i as int));
            }
            return false;
        }
        i += 1;
    }
    proof {
        lemma_lex_lt_skip(a@, b@, n as int);
        if a@.len() == b@.len() {
            assert(a@.skip(n as int).len() == 0);
        } else if a@.len() < b@.len() {
            assert(a@.skip(n as int).len() == 0);
            assert(b@.skip(n as int).len() > 0);
        } else {
            assert(b@.skip(n as int).len() == 0);
        }
    }
    alen < blen
}

/// Equality of two byte slices.
pub fn bytes_eq(a: &[u8], b: &[u8]) -> (r: bool)
    ensures
        r == (a@ == b@),
{
    if a.len() != b.len() {
        return false;
    }
    let mut i: usize = 0;
    while i < a.len()
        invariant
            0 <= i <= a@.len(),
            a@.len() == b@.len(),
            forall|j: int| 0 <= j < i ==> a@[j] == b@[j],
        decreases a@.len() - i,
    {
        if a[i] != b[i] {
            return false;
        }
        i += 1;
    }
    proof {
        assert(a@ =~= b@);
    }
    true
}

/// A dense identifier for an indexed file, allocated from 0 in
/// first-seen order.
#[derive(Clone, Copy, PartialEq, Eq, Structural, Debug, Hash)]
pub struct FileIndex {
    file_id: u32,
}

/// A 1-based line number within a file. Zero is reserved as "invalid"
/// and is never stored in an index.
#[derive(Clone, Copy, PartialEq, Eq, Structural, Debug, Hash)]
pub struct LineIndex {
    line: u32,
}

/// The atomic unit of a posting: a file and a line within it.
#[derive(Clone, Copy, PartialEq, Eq, Structural, Debug, Hash)]
pub struct FileLineIndex {
    pub file_id: FileIndex,
    pub line_id: LineIndex,
}

/// A byte n-gram used as an opaque key of the inverted index.
#[derive(Clone, Debug, Hash)]
pub struct NgramIndex {
    ngram: Vec<u8>,
}

impl View for FileIndex {
    type V = u32;

    closed spec fn view(&self) -> u32 {
        self.file_id
    }
}

impl View for LineIndex {
    type V = u32;

    closed spec fn view(&self) -> u32 {
        self.line
    }
}

impl View for FileLineIndex {
    type V = (u32, u32);

    open spec fn view(&self) -> (u32, u32) {
        (self.file_id@, self.line_id@)
    }
}

impl View for NgramIndex {
    type V = Seq<u8>;

    closed spec fn view(&self) -> Seq<u8> {
        self.ngram@
    }
}

impl FileIndex {
    pub fn new(id: u32) -> (r: Self)
        ensures
            r@ == id,
    {
        Self { file_id: id }
    }

    /// The raw numeric id.
    pub fn id(&self) -> (r: u32)
        ensures
            r == self@,
    {
        self.file_id
    }
}

impl LineIndex {
    /// A line number must be at least 1; zero is the reserved invalid value.
    pub fn new(line: u32) -> (r: Self)
        requires
            line != 0,
        ensures
            r@ == line,
    {
        Self { line }
    }

    /// Checked construction: the zero line number is rejected.
    pub fn try_new(line: u32) -> (r: Option<Self>)
        ensures
            line == 0 <==> r is None,
            line != 0 ==> (r matches Some(l) && l@ == line),
    {
        if line == 0 {
            None
        } else {
            Some(Self { line })
        }
    }

    pub fn line_number(&self) -> (r: u32)
        ensures
            r == self@,
    {
        self.line
    }
}

impl FileLineIndex {
    pub fn new(file_id: FileIndex, line_id: LineIndex) -> (r: Self)
        ensures
            r@ == (file_id@, line_id@),
    {
        Self { file_id, line_id }
    }

    pub fn file_id(&self) -> (r: &FileIndex)
        ensures
            r@ == self@.0,
    {
        &self.file_id
    }

    pub fn line_id(&self) -> (r: &LineIndex)
        ensures
            r@ == self@.1,
    {
        &self.line_id
    }
}

impl PartialEq for NgramIndex {
    fn eq(&self, other: &Self) -> (r: bool) {
        bytes_eq(self.ngram.as_slice(), other.ngram.as_slice())
    }
}

impl Eq for NgramIndex {

}

impl vstd::std_specs::cmp::PartialEqSpecImpl for NgramIndex {
    open spec fn obeys_eq_spec() -> bool {
        true
    }

    open spec fn eq_spec(&self, other: &Self) -> bool {
        self@ == other@
    }
}

/// The window of `s` of length `n` starting at `i`.
pub open spec fn window_at(s: Seq<u8>, n: nat, i: int) -> Seq<u8> {
    s.subrange(i, i + n)
}

/// Whether `b` is one of the length-`n` windows of `s`.
pub open spec fn is_window(s: Seq<u8>, n: nat, b: Seq<u8>) -> bool {
    exists|i: int| 0 <= i <= s.len() - n && b == window_at(s, n, i)
}

/// Whether some element of `grams` views to `b`.
pub open spec fn contains_gram(grams: Seq<NgramIndex>, b: Seq<u8>) -> bool {
    exists|k: int| 0 <= k < grams.len() && grams[k]@ == b
}

/// Strictly ascending in lexicographic order; implies no duplicates.
pub open spec fn grams_strictly_sorted(grams: Seq<NgramIndex>) -> bool {
    forall|i: int, j: int| 0 <= i < j < grams.len() ==> lex_lt(grams[i]@, grams[j]@)
}

impl NgramIndex {
    /// An n-gram key is a non-empty byte sequence.
    pub fn new(ngram: &[u8]) -> (r: Self)
        requires
            ngram@.len() > 0,
        ensures
            r@ == ngram@,
    {
        NgramIndex { ngram: vstd::slice::slice_to_vec(ngram) }
    }

    /// A copy of this key.
    pub fn duplicate(&self) -> (r: Self)
        ensures
            r@ == self@,
    {
        NgramIndex { ngram: vstd::slice::slice_to_vec(self.ngram.as_slice()) }
    }

    /// The bytes of the key.
    pub fn bytes(&self) -> (r: &Vec<u8>)
        ensures
            r@ == self@,
    {
        &self.ngram
    }

    /// The sorted, duplicate-free list of the distinct length-`n` byte
    /// windows of `s`. For `s` shorter than `n` the result is empty.
    pub fn from_str(s: &[u8], n: u8) -> (r: Vec<NgramIndex>)
        requires
            n >= 1,
        ensures
            grams_strictly_sorted(r@),
            forall|b: Seq<u8>| contains_gram(r@, b) <==> is_window(s@, n as nat, b),
            s@.len() < n ==> r@.len() == 0,
    {
        let mut out: Vec<NgramIndex> = Vec::new();
        if s.len() < n as usize {
            proof {
                assert forall|b: Seq<u8>| !is_window(s@, n as nat, b) by {
                    assert(s@.len() - (n as nat) < 0);
                }
            }
            return out;
        }
        let slen = s.len();
        let last = slen - n as usize;
        let mut i: usize = 0;
        while i <= last
            invariant
                n >= 1,
                slen == s@.len() <= usize::MAX,
                last == s@.len() - n as nat,
                0 <= i <= last + 1,
                grams_strictly_sorted(out@),
                forall|b: Seq<u8>|
                    contains_gram(out@, b) <==> exists|k: int|
                        0 <= k < i && b == window_at(s@, n as nat, k),
            decreases last + 1 - i,
        {
            let w = slice_window(s, i, n as usize);
            insert_sorted_unique(&mut out, w);
            i += 1;
        }
        proof {
            assert forall|b: Seq<u8>| contains_gram(out@, b) <==> is_window(s@, n as nat, b) by {
            }
        }
        out
    }
}

/// Copies the window of `s` of length `n` starting at `i`.
fn slice_window(s: &[u8], i: usize, n: usize) -> (r: NgramIndex)
    requires
        n >= 1,
        i + n <= s@.len(),
    ensures
        r@ == window_at(s@, n as nat, i as int),
{
    let slen = s.len();
    let mut v: Vec<u8> = Vec::new();
    let mut j: usize = 0;
    while j < n
        invariant
            i + n <= s@.len(),
            slen == s@.len() <= usize::MAX,
            0 <= j <= n,
            v@ =~= s@.subrange(i as int, i as int + j as int),
        decreases n - j,
    {
        v.push(s[i + j]);
        proof {
            assert(v@ =~= s@.subrange(i as int, i as int + j as int + 1));
        }
        j += 1;
    }
    NgramIndex { ngram: v }
}

/// The first position of `out` whose key is not below `g`.
fn lower_bound(out: &Vec<NgramIndex>, g: &NgramIndex) -> (lo: usize)
    requires
        grams_strictly_sorted(out@),
    ensures
        0 <= lo <= out@.len(),
        forall|j: int| 0 <= j < lo ==> lex_lt(out@[j]@, g@),
        lo < out@.len() ==> !lex_lt(out@[lo as int]@, g@),
{
    let mut lo: usize = 0;
    while lo < out.len()
        invariant
            0 <= lo <= out@.len(),
            forall|j: int| 0 <= j < lo ==> lex_lt(out@[j]@, g@),
        decreases out@.len() - lo,
    {
        if !bytes_lt(out[lo].ngram.as_slice(), g.ngram.as_slice()) {
            return lo;
        }
        lo += 1;
    }
    lo
}

/// Inserts `g` into the strictly sorted `out`, keeping it strictly sorted;
/// a key already present is not inserted twice.
pub(crate) fn insert_sorted_unique(out: &mut Vec<NgramIndex>, g: NgramIndex)
    requires
        grams_strictly_sorted(old(out)@),
    ensures
        grams_strictly_sorted(final(out)@),
        forall|b: Seq<u8>|
            contains_gram(final(out)@, b) <==> (contains_gram(old(out)@, b) || b == g@),
{
    let ghost orig = out@;
    let lo = lower_bound(out, &g);
    if lo < out.len() && bytes_eq(out[lo].ngram.as_slice(), g.ngram.as_slice()) {
        proof {
            assert(contains_gram(out@, g@));
            assert forall|b: Seq<u8>|
                contains_gram(out@, b) <==> (contains_gram(orig, b) || b == g@) by {}
        }
        return;
    }
    proof {
        if lo < out@.len() {
            lemma_lex_lt_total(out@[lo as int]@, g@);
            assert(lex_lt(g@, out@[lo as int]@));
        }
    }
    out.insert(lo, g);
    proof {
        let newv = out@;
        assert(newv =~= orig.insert(lo as int, g));
        assert forall|i: int, j: int| 0 <= i < j < newv.len() implies lex_lt(
            newv[i]@,
            newv[j]@,
        ) by {
            let li = lo as int;
            if j < li {
                assert(newv[i]@ == orig[i]@ && newv[j]@ == orig[j]@);
            } else if i < li && j == li {
                assert(newv[i]@ == orig[i]@ && newv[j]@ == g@);
            } else if i < li && j > li {
                assert(newv[i]@ == orig[i]@ && newv[j]@ == orig[j - 1]@);
                if j - 1 == i {
                } else {
                    assert(lex_lt(orig[i]@, orig[j - 1]@));
                }
            } else if i == li && j > li {
                assert(newv[i]@ == g@ && newv[j]@ == orig[j - 1]@);
                assert(lex_lt(g@, orig[li]@));
                if j - 1 == li {
                } else {
                    assert(lex_lt(orig[li]@, orig[j - 1]@));
                    lemma_lex_lt_trans(g@, orig[li]@, orig[j - 1]@);
                }
            } else {
                assert(newv[i]@ == orig[i - 1]@ && newv[j]@ == orig[j - 1]@);
            }
        }
        assert forall|b: Seq<u8>|
            contains_gram(newv, b) <==> (contains_gram(orig, b) || b == g@) by {
            if contains_gram(orig, b) {
                let k = choose|k: int| 0 <= k < orig.len() && orig[k]@ == b;
                if k < lo {
                    assert(newv[k]@ == b);
                } else {
                    assert(newv[k + 1]@ == b);
                }
            }
            if b == g@ {
                assert(newv[lo as int]@ == b);
            }
            if contains_gram(newv, b) {
                let k = choose|k: int| 0 <= k < newv.len() && newv[k]@ == b;
                if k < lo {
                    assert(orig[k]@ == b);
                } else if k > lo {
                    assert(orig[k - 1]@ == b);
                }
            }
        }
    }
}

} // verus!
