//! The query engine: a parsed pattern becomes an n-gram tree, the tree
//! is evaluated against fetched postings to a candidate set, and the
//! candidates are grouped for line fetching and final verification.

use vstd::prelude::*;

use crate::assoc::{lookup_bytes, lookup_u32};
use crate::codec::{index_record_of, ngram_record_of};
use crate::data::{
    group_postings, posting_contains, FileData, FileLineData, IndexData, NgramData,
};
use crate::error::IgrepError;
use crate::range::{FileRange, NgramRange};
use crate::index::{
    bytes_eq, bytes_lt, contains_gram, grams_strictly_sorted, is_window, lemma_lex_lt_asym,
    lemma_lex_lt_total, lemma_lex_lt_trans, lex_lt, window_at, FileIndex, FileLineIndex,
    LineIndex, NgramIndex,
};

verus! {

// ---------------------------------------------------------------------
// The canonical sorted window list of a byte string.
// ---------------------------------------------------------------------

/// Inserts `b` into a sorted list of byte strings, keeping it sorted and
/// duplicate-free.
pub open spec fn insert_sorted(l: Seq<Seq<u8>>, b: Seq<u8>) -> Seq<Seq<u8>>
    decreases l.len(),
{
    if l.len() == 0 {
        seq![b]
    } else if lex_lt(l[0], b) {
        seq![l[0]] + insert_sorted(l.drop_first(), b)
    } else if l[0] == b {
        l
    } else {
        seq![b] + l
    }
}

/// Strictly ascending, hence duplicate-free.
pub open spec fn sorted_strict(l: Seq<Seq<u8>>) -> bool {
    forall|i: int, j: int| 0 <= i < j < l.len() ==> lex_lt(l[i], l[j])
}

proof fn lemma_insert_sorted(l: Seq<Seq<u8>>, b: Seq<u8>)
    requires
        sorted_strict(l),
    ensures
        sorted_strict(insert_sorted(l, b)),
        forall|x: Seq<u8>|
            #![trigger insert_sorted(l, b).contains(x)]
            insert_sorted(l, b).contains(x) <==> (l.contains(x) || x == b),
    decreases l.len(),
{
    let r = insert_sorted(l, b);
    if l.len() == 0 {
        assert(r =~= seq![b]);
        assert forall|x: Seq<u8>| r.contains(x) implies (l.contains(x) || x == b) by {
            let i = choose|i: int| 0 <= i < r.len() && r[i] == x;
            assert(i == 0);
        }
        assert(r[0] == b);
        assert(r.contains(b));
    } else if lex_lt(l[0], b) {
        assert forall|a: int, c: int|
            0 <= a < c < l.drop_first().len() implies lex_lt(
            l.drop_first()[a],
            l.drop_first()[c],
        ) by {
            assert(lex_lt(l[a + 1], l[c + 1]));
        }
        lemma_insert_sorted(l.drop_first(), b);
        let sub = insert_sorted(l.drop_first(), b);
        assert(r == seq![l[0]] + sub);
        assert forall|i: int, j: int| 0 <= i < j < r.len() implies lex_lt(r[i], r[j]) by {
            if i == 0 {
                assert(r[j] == sub[j - 1]);
                if sub.contains(sub[j - 1]) {
                }
                if l.drop_first().contains(sub[j - 1]) {
                    let w = choose|w: int|
                        0 <= w < l.drop_first().len() && l.drop_first()[w] == sub[j - 1];
                    assert(lex_lt(l[0], l[w + 1]));
                } else {
                    assert(sub[j - 1] == b);
                }
            } else {
                assert(r[i] == sub[i - 1] && r[j] == sub[j - 1]);
            }
        }
        assert forall|x: Seq<u8>| r.contains(x) implies (l.contains(x) || x == b) by {
            let i = choose|i: int| 0 <= i < r.len() && r[i] == x;
            if i == 0 {
                assert(l[0] == x);
            } else {
                assert(sub.contains(sub[i - 1]));
                if l.drop_first().contains(x) {
                    let w = choose|w: int|
                        0 <= w < l.drop_first().len() && l.drop_first()[w] == x;
                    assert(l[w + 1] == x);
                }
            }
        }
        assert forall|x: Seq<u8>| (l.contains(x) || x == b) implies r.contains(x) by {
            if l.contains(x) {
                let w = choose|w: int| 0 <= w < l.len() && l[w] == x;
                if w == 0 {
                    assert(r[0] == x);
                } else {
                    assert(l.drop_first()[w - 1] == x);
                    assert(l.drop_first().contains(x));
                    assert(sub.contains(x));
                    let v = choose|v: int| 0 <= v < sub.len() && sub[v] == x;
                    assert(r[v + 1] == x);
                }
            } else {
                assert(sub.contains(b));
                let v = choose|v: int| 0 <= v < sub.len() && sub[v] == b;
                assert(r[v + 1] == b);
            }
        }
    } else if l[0] == b {
        assert forall|x: Seq<u8>| r.contains(x) <==> (l.contains(x) || x == b) by {
            if x == b {
                assert(l[0] == x);
                assert(l.contains(x));
            }
        }
    } else {
        lemma_lex_lt_total(l[0], b);
        assert(lex_lt(b, l[0]));
        assert(r == seq![b] + l);
        assert forall|i: int, j: int| 0 <= i < j < r.len() implies lex_lt(r[i], r[j]) by {
            if i == 0 {
                if j == 1 {
                } else {
                    lemma_lex_lt_trans(b, l[0], l[j - 1]);
                }
            } else {
                assert(r[i] == l[i - 1] && r[j] == l[j - 1]);
            }
        }
        assert forall|x: Seq<u8>| r.contains(x) implies (l.contains(x) || x == b) by {
            let i = choose|i: int| 0 <= i < r.len() && r[i] == x;
            if i > 0 {
                assert(l[i - 1] == x);
            }
        }
        assert forall|x: Seq<u8>| (l.contains(x) || x == b) implies r.contains(x) by {
            if l.contains(x) {
                let w = choose|w: int| 0 <= w < l.len() && l[w] == x;
                assert(r[w + 1] == x);
            } else {
                assert(r[0] == b);
            }
        }
    }
}

/// The canonical sorted, duplicate-free list of the first `k` windows.
pub open spec fn win_upto(s: Seq<u8>, n: nat, k: nat) -> Seq<Seq<u8>>
    decreases k,
{
    if k == 0 {
        Seq::empty()
    } else {
        insert_sorted(win_upto(s, n, (k - 1) as nat), window_at(s, n, k - 1))
    }
}

/// The number of length-`n` windows of `s`.
pub open spec fn win_count(s: Seq<u8>, n: nat) -> nat {
    if s.len() < n {
        0
    } else {
        (s.len() - n + 1) as nat
    }
}

/// The canonical sorted, duplicate-free list of all length-`n` windows.
pub open spec fn win_list(s: Seq<u8>, n: nat) -> Seq<Seq<u8>> {
    win_upto(s, n, win_count(s, n))
}

proof fn lemma_win_upto(s: Seq<u8>, n: nat, k: nat)
    requires
        k <= win_count(s, n),
    ensures
        sorted_strict(win_upto(s, n, k)),
        forall|b: Seq<u8>|
            #![trigger win_upto(s, n, k).contains(b)]
            win_upto(s, n, k).contains(b) <==> exists|i: int|
                0 <= i < k && b == window_at(s, n, i),
    decreases k,
{
    if k > 0 {
        lemma_win_upto(s, n, (k - 1) as nat);
        lemma_insert_sorted(win_upto(s, n, (k - 1) as nat), window_at(s, n, k - 1 as int));
        assert forall|b: Seq<u8>|
            win_upto(s, n, k).contains(b) <==> (exists|i: int|
                0 <= i < k && b == window_at(s, n, i)) by {
            if win_upto(s, n, k).contains(b) {
                if win_upto(s, n, (k - 1) as nat).contains(b) {
                    let i = choose|i: int| 0 <= i < k - 1 && b == window_at(s, n, i);
                    assert(0 <= i < k && b == window_at(s, n, i));
                } else {
                    assert(b == window_at(s, n, k - 1 as int));
                }
            }
            if exists|i: int| 0 <= i < k && b == window_at(s, n, i) {
                let i = choose|i: int| 0 <= i < k && b == window_at(s, n, i);
                if i < k - 1 {
                    assert(win_upto(s, n, (k - 1) as nat).contains(b));
                }
            }
        }
    }
}

/// A sorted and duplicate-free list is determined by its members.
proof fn lemma_sorted_strict_unique(a: Seq<Seq<u8>>, b: Seq<Seq<u8>>)
    requires
        sorted_strict(a),
        sorted_strict(b),
        forall|x: Seq<u8>| a.contains(x) <==> b.contains(x),
    ensures
        a == b,
    decreases a.len(),
{
    if a.len() == 0 {
        if b.len() > 0 {
            assert(b.contains(b[0]));
            assert(a.contains(b[0]));
        }
        assert(a =~= b);
    } else {
        assert(a.contains(a[0]));
        assert(b.contains(a[0]));
        assert(b.len() > 0);
        assert(a.contains(b[0]));
        let i = choose|i: int| 0 <= i < b.len() && b[i] == a[0];
        let j = choose|j: int| 0 <= j < a.len() && a[j] == b[0];
        assert(a[0] == b[0]) by {
            if i > 0 {
                assert(lex_lt(b[0], b[i]));
            }
            if j > 0 {
                assert(lex_lt(a[0], a[j]));
            }
            if i > 0 && j > 0 {
                lemma_lex_lt_trans(a[0], a[j], b[i]);
                lemma_lex_lt_asym(a[0], a[0]);
            }
        }
        assert forall|x: Seq<u8>|
            a.drop_first().contains(x) <==> b.drop_first().contains(x) by {
            if a.drop_first().contains(x) {
                let w = choose|w: int| 0 <= w < a.drop_first().len() && a.drop_first()[w] == x;
                assert(a[w + 1] == x);
                assert(lex_lt(a[0], x));
                assert(a.contains(x));
                assert(b.contains(x));
                let v = choose|v: int| 0 <= v < b.len() && b[v] == x;
                if v == 0 {
                    lemma_lex_lt_asym(a[0], x);
                }
                assert(b.drop_first()[v - 1] == x);
            }
            if b.drop_first().contains(x) {
                let w = choose|w: int| 0 <= w < b.drop_first().len() && b.drop_first()[w] == x;
                assert(b[w + 1] == x);
                assert(lex_lt(b[0], x));
                assert(b.contains(x));
                assert(a.contains(x));
                let v = choose|v: int| 0 <= v < a.len() && a[v] == x;
                if v == 0 {
                    lemma_lex_lt_asym(b[0], x);
                }
                assert(a.drop_first()[v - 1] == x);
            }
        }
        assert forall|x: int, y: int|
            0 <= x < y < a.drop_first().len() implies lex_lt(
            a.drop_first()[x],
            a.drop_first()[y],
        ) by {
            assert(lex_lt(a[x + 1], a[y + 1]));
        }
        assert forall|x: int, y: int|
            0 <= x < y < b.drop_first().len() implies lex_lt(
            b.drop_first()[x],
            b.drop_first()[y],
        ) by {
            assert(lex_lt(b[x + 1], b[y + 1]));
        }
        lemma_sorted_strict_unique(a.drop_first(), b.drop_first());
        assert(a =~= seq![a[0]] + a.drop_first());
        assert(b =~= seq![b[0]] + b.drop_first());
    }
}

/// The extraction of `NgramIndex::from_str` is the canonical window list.
pub proof fn lemma_from_str_is_win_list(r: Seq<NgramIndex>, s: Seq<u8>, n: nat)
    requires
        n >= 1,
        grams_strictly_sorted(r),
        forall|b: Seq<u8>| contains_gram(r, b) <==> is_window(s, n, b),
    ensures
        r.map_values(|g: NgramIndex| g@) == win_list(s, n),
{
    let rv = r.map_values(|g: NgramIndex| g@);
    lemma_win_upto(s, n, win_count(s, n));
    assert forall|x: Seq<u8>| rv.contains(x) <==> win_list(s, n).contains(x) by {
        if rv.contains(x) {
            let i = choose|i: int| 0 <= i < rv.len() && rv[i] == x;
            assert(r[i]@ == x);
            assert(contains_gram(r, x));
            assert(is_window(s, n, x));
            let w = choose|w: int| 0 <= w <= s.len() - n && x == window_at(s, n, w);
            assert(0 <= w < win_count(s, n) && x == window_at(s, n, w));
        }
        if win_list(s, n).contains(x) {
            let w = choose|w: int| 0 <= w < win_count(s, n) && x == window_at(s, n, w);
            assert(is_window(s, n, x));
            assert(contains_gram(r, x));
            let i = choose|i: int| 0 <= i < r.len() && r[i]@ == x;
            assert(rv[i] == x);
        }
    }
    assert(sorted_strict(rv)) by {
        assert forall|i: int, j: int| 0 <= i < j < rv.len() implies lex_lt(rv[i], rv[j]) by {
            assert(lex_lt(r[i]@, r[j]@));
        }
    }
    lemma_sorted_strict_unique(rv, win_list(s, n));
}

// ---------------------------------------------------------------------
// The regex intermediate representation and the n-gram tree.
// ---------------------------------------------------------------------

/// The shape of a parsed pattern, as far as tree synthesis reads it:
/// literals and the combinators around them; everything else collapses
/// to the nodes that cannot prune.
pub enum RegexIr {
    Empty,
    Literal(Vec<u8>),
    Class,
    Look,
    Repetition { min: u32, sub: Box<RegexIr> },
    Capture(Box<RegexIr>),
    Concat(Vec<RegexIr>),
    Alternation(Vec<RegexIr>),
}

/// The mathematical n-gram tree.
#[verifier::ext_equal]
pub enum TreeV {
    Empty,
    All,
    Gram(Seq<u8>),
    Concat(Seq<TreeV>),
    Alternation(Seq<TreeV>),
}

/// The conservative n-gram tree of a query.
pub enum NgramTree {
    Empty,
    ALL,
    Gram(NgramIndex),
    Concat(Vec<NgramTree>),
    Alternation(Vec<NgramTree>),
}

/// The mathematical value of an n-gram tree.
pub open spec fn tree_view(t: NgramTree) -> TreeV
    decreases t,
{
    match t {
        NgramTree::Empty => TreeV::Empty,
        NgramTree::ALL => TreeV::All,
        NgramTree::Gram(g) => TreeV::Gram(g@),
        NgramTree::Concat(v) => TreeV::Concat(tree_views(v@)),
        NgramTree::Alternation(v) => TreeV::Alternation(tree_views(v@)),
    }
}

/// The mathematical values of a list of subtrees.
pub open spec fn tree_views(v: Seq<NgramTree>) -> Seq<TreeV>
    decreases v,
{
    if v.len() == 0 {
        Seq::empty()
    } else {
        seq![tree_view(v[0])] + tree_views(v.drop_first())
    }
}

/// Indexing into the collected views.
pub proof fn lemma_tree_views_index(v: Seq<NgramTree>)
    ensures
        tree_views(v).len() == v.len(),
        forall|i: int| 0 <= i < v.len() ==> tree_views(v)[i] == tree_view(v[i]),
    decreases v,
{
    if v.len() > 0 {
        lemma_tree_views_index(v.drop_first());
        assert forall|i: int| 0 <= i < v.len() implies tree_views(v)[i] == tree_view(v[i]) by {
            if i > 0 {
                assert(tree_views(v)[i] == tree_views(v.drop_first())[i - 1]);
                assert(v.drop_first()[i - 1] == v[i]);
            }
        }
    }
}

/// One leaf per window, in sorted order.
pub open spec fn gram_leaves(ws: Seq<Seq<u8>>) -> Seq<TreeV> {
    Seq::new(ws.len(), |i: int| TreeV::Gram(ws[i]))
}

/// The tree of a literal: every distinct window must be present.
pub open spec fn lit_tree(s: Seq<u8>, n: nat) -> TreeV {
    let ws = win_list(s, n);
    if ws.len() == 0 {
        TreeV::All
    } else if ws.len() == 1 {
        TreeV::Gram(ws[0])
    } else {
        TreeV::Concat(gram_leaves(ws))
    }
}

/// `s` repeated `k` times.
pub open spec fn rep_bytes(s: Seq<u8>, k: nat) -> Seq<u8>
    decreases k,
{
    if k == 0 {
        Seq::empty()
    } else {
        rep_bytes(s, (k - 1) as nat) + s
    }
}

/// The conservative n-gram tree of a pattern: a literal contributes its
/// windows, a repetition contributes the windows of its unrolled minimum,
/// combinators recurse, and everything else cannot prune.
pub open spec fn tree_of_ir(ir: RegexIr, n: nat) -> TreeV
    decreases ir,
{
    match ir {
        RegexIr::Empty => TreeV::All,
        RegexIr::Class => TreeV::All,
        RegexIr::Look => TreeV::All,
        RegexIr::Literal(lit) => lit_tree(lit@, n),
        RegexIr::Repetition { min, sub } => match *sub {
            RegexIr::Literal(lit) => if lit@.len() * min <= usize::MAX {
                TreeV::Concat(gram_leaves(win_list(rep_bytes(lit@, min as nat), n)))
            } else {
                TreeV::All
            },
            _ => TreeV::All,
        },
        RegexIr::Capture(sub) => tree_of_ir(*sub, n),
        RegexIr::Concat(v) => TreeV::Concat(trees_of_ir(v@, n)),
        RegexIr::Alternation(v) => TreeV::Alternation(trees_of_ir(v@, n)),
    }
}

/// The trees of a combinator's children.
pub open spec fn trees_of_ir(v: Seq<RegexIr>, n: nat) -> Seq<TreeV>
    decreases v,
{
    if v.len() == 0 {
        Seq::empty()
    } else {
        seq![tree_of_ir(v[0], n)] + trees_of_ir(v.drop_first(), n)
    }
}

/// Indexing into the children's trees.
pub proof fn lemma_trees_of_ir_index(v: Seq<RegexIr>, n: nat)
    ensures
        trees_of_ir(v, n).len() == v.len(),
        forall|i: int| 0 <= i < v.len() ==> trees_of_ir(v, n)[i] == tree_of_ir(v[i], n),
    decreases v,
{
    if v.len() > 0 {
        lemma_trees_of_ir_index(v.drop_first(), n);
        assert forall|i: int| 0 <= i < v.len() implies trees_of_ir(v, n)[i] == tree_of_ir(
            v[i],
            n,
        ) by {
            if i > 0 {
                assert(trees_of_ir(v, n)[i] == trees_of_ir(v.drop_first(), n)[i - 1]);
                assert(v.drop_first()[i - 1] == v[i]);
            }
        }
    }
}

/// Builds the sorted window leaves of a byte string.
fn build_gram_leaves(s: &[u8], n: u8) -> (r: Vec<NgramTree>)
    requires
        n >= 1,
    ensures
        tree_views(r@) == gram_leaves(win_list(s@, n as nat)),
        r@.len() == win_list(s@, n as nat).len(),
{
    let grams = NgramIndex::from_str(s, n);
    proof {
        lemma_from_str_is_win_list(grams@, s@, n as nat);
    }
    let mut out: Vec<NgramTree> = Vec::new();
    let mut i: usize = 0;
    while i < grams.len()
        invariant
            n >= 1,
            grams@.map_values(|g: NgramIndex| g@) == win_list(s@, n as nat),
            0 <= i <= grams@.len(),
            out@.len() == i,
            forall|j: int| 0 <= j < i ==> tree_view(#[trigger] out@[j]) == TreeV::Gram(grams@[j]@),
        decreases grams@.len() - i,
    {
        proof {
            assert(grams@[i as int]@ == win_list(s@, n as nat)[i as int]);
            assert(win_list(s@, n as nat).contains(win_list(s@, n as nat)[i as int]));
            lemma_win_upto(s@, n as nat, win_count(s@, n as nat));
            let w = choose|w: int|
                0 <= w < win_count(s@, n as nat) && win_list(s@, n as nat)[i as int] == window_at(
                    s@,
                    n as nat,
                    w,
                );
            assert(grams@[i as int]@.len() == n as nat);
            assert(grams@[i as int]@.len() > 0);
        }
        let g = NgramIndex::new(grams[i].bytes().as_slice());
        out.push(NgramTree::Gram(g));
        i += 1;
    }
    proof {
        lemma_tree_views_index(out@);
        assert(tree_views(out@) =~= gram_leaves(win_list(s@, n as nat))) by {
            lemma_tree_views_index(out@);
            assert forall|j: int| 0 <= j < out@.len() implies tree_view(out@[j]) == TreeV::Gram(
                win_list(s@, n as nat)[j],
            ) by {
                assert(grams@[j]@ == win_list(s@, n as nat)[j]);
            }
        }
    }
    out
}

/// Builds the n-gram tree of a parsed pattern.
pub fn build_tree(ir: &RegexIr, n: u8) -> (r: NgramTree)
    requires
        n >= 1,
    ensures
        tree_view(r) == tree_of_ir(*ir, n as nat),
    decreases *ir,
{
    match ir {
        RegexIr::Empty => NgramTree::ALL,
        RegexIr::Class => NgramTree::ALL,
        RegexIr::Look => NgramTree::ALL,
        RegexIr::Literal(lit) => {
            let leaves = build_gram_leaves(lit.as_slice(), n);
            let ghost ws = win_list(lit@, n as nat);
            if leaves.len() == 0 {
                NgramTree::ALL
            } else if leaves.len() == 1 {
                let mut leaves = leaves;
                let one = leaves.remove(0);
                proof {
                    assert(tree_view(one) == gram_leaves(ws)[0]);
                    assert(gram_leaves(ws)[0] == TreeV::Gram(ws[0]));
                }
                one
            } else {
                let r = NgramTree::Concat(leaves);
                proof {
                    assert(tree_view(r) =~= TreeV::Concat(gram_leaves(ws))) by {
                        match &r {
                            NgramTree::Concat(v) => {
                                lemma_tree_views_index(v@);
                                assert(tree_views(v@) =~= gram_leaves(ws));
                            },
                            _ => {},
                        }
                    }
                }
                r
            }
        },
        RegexIr::Repetition { min, sub } => {
            match &**sub {
                RegexIr::Literal(lit) => {
                    match (lit.len() as u64).checked_mul(*min as u64) {
                        None => {
                            proof {
                                assert(lit@.len() * (*min as nat) > u64::MAX as nat);
                            }
                            NgramTree::ALL
                        },
                        Some(total) => {
                            if total > usize::MAX as u64 {
                                NgramTree::ALL
                            } else {
                                let repeated = repeat_bytes(lit.as_slice(), *min);
                                let leaves = build_gram_leaves(repeated.as_slice(), n);
                                let r = NgramTree::Concat(leaves);
                                proof {
                                    let ws = win_list(rep_bytes(lit@, *min as nat), n as nat);
                                    match &r {
                                        NgramTree::Concat(v) => {
                                            lemma_tree_views_index(v@);
                                            assert(tree_views(v@) =~= gram_leaves(ws));
                                        },
                                        _ => {},
                                    }
                                }
                                r
                            }
                        },
                    }
                },
                _ => NgramTree::ALL,
            }
        },
        RegexIr::Capture(sub) => build_tree(&**sub, n),
        RegexIr::Concat(v) => {
            let subs = build_subtrees(v, n);
            let r = NgramTree::Concat(subs);
            proof {
                match &r {
                    NgramTree::Concat(sv) => {
                        lemma_tree_views_index(sv@);
                        lemma_trees_of_ir_index(v@, n as nat);
                        assert(tree_views(sv@) =~= trees_of_ir(v@, n as nat));
                    },
                    _ => {},
                }
            }
            r
        },
        RegexIr::Alternation(v) => {
            let subs = build_subtrees(v, n);
            let r = NgramTree::Alternation(subs);
            proof {
                match &r {
                    NgramTree::Alternation(sv) => {
                        lemma_tree_views_index(sv@);
                        lemma_trees_of_ir_index(v@, n as nat);
                        assert(tree_views(sv@) =~= trees_of_ir(v@, n as nat));
                    },
                    _ => {},
                }
            }
            r
        },
    }
}

proof fn lemma_rep_bytes_len(s: Seq<u8>, k: nat)
    ensures
        rep_bytes(s, k).len() == s.len() * k,
    decreases k,
{
    if k > 0 {
        lemma_rep_bytes_len(s, (k - 1) as nat);
        assert(rep_bytes(s, k) == rep_bytes(s, (k - 1) as nat) + s);
        assert(rep_bytes(s, k).len() == s.len() * ((k - 1) as nat) + s.len());
        assert(s.len() * ((k - 1) as nat) + s.len() == s.len() * k) by (nonlinear_arith)
            requires
                k >= 1,
        ;
    } else {
        assert(rep_bytes(s, 0).len() == 0);
        assert(s.len() * 0 == 0) by (nonlinear_arith);
    }
}

/// Concatenates `min` copies of `s`.
fn repeat_bytes(s: &[u8], min: u32) -> (r: Vec<u8>)
    requires
        s@.len() * (min as nat) <= usize::MAX,
    ensures
        r@ == rep_bytes(s@, min as nat),
{
    let mut out: Vec<u8> = Vec::new();
    let mut k: u32 = 0;
    proof {
        assert(out@ =~= rep_bytes(s@, 0));
    }
    while k < min
        invariant
            s@.len() * (min as nat) <= usize::MAX,
            0 <= k <= min,
            out@ == rep_bytes(s@, k as nat),
        decreases min - k,
    {
        proof {
            lemma_rep_bytes_len(s@, k as nat);
            assert(s@.len() * (k as nat) + s@.len() <= s@.len() * (min as nat))
                by (nonlinear_arith)
                requires
                    (k as nat) < (min as nat),
            ;
        }
        out.extend_from_slice(s);
        proof {
            assert(out@ =~= rep_bytes(s@, (k + 1) as nat));
        }
        k += 1;
    }
    out
}

/// Builds the subtrees of a combinator node.
fn build_subtrees(v: &Vec<RegexIr>, n: u8) -> (r: Vec<NgramTree>)
    requires
        n >= 1,
    ensures
        r@.len() == v@.len(),
        forall|i: int|
            0 <= i < v@.len() ==> tree_view(#[trigger] r@[i]) == tree_of_ir(v@[i], n as nat),
    decreases v@,
{
    let mut out: Vec<NgramTree> = Vec::new();
    let mut i: usize = 0;
    while i < v.len()
        invariant
            n >= 1,
            0 <= i <= v@.len(),
            out@.len() == i,
            forall|j: int|
                0 <= j < i ==> tree_view(#[trigger] out@[j]) == tree_of_ir(v@[j], n as nat),
        decreases v@.len() - i,
    {
        proof {
            assert(v@[i as int] == v@.index(i as int));
        }
        let t = build_tree(&v[i], n);
        out.push(t);
        i += 1;
    }
    out
}

// ---------------------------------------------------------------------
// Tree predicates and evaluation semantics.
// ---------------------------------------------------------------------

/// Whether every branch of the tree fails to prune: every alternation
/// has a branch that cannot prune and every concatenation consists only
/// of such nodes.
pub open spec fn is_all_spec(t: TreeV) -> bool
    decreases t,
{
    match t {
        TreeV::All => true,
        TreeV::Empty => false,
        TreeV::Gram(_) => false,
        TreeV::Alternation(ts) => any_all(ts),
        TreeV::Concat(ts) => all_all(ts),
    }
}

pub open spec fn any_all(ts: Seq<TreeV>) -> bool
    decreases ts,
{
    if ts.len() == 0 {
        false
    } else {
        is_all_spec(ts[0]) || any_all(ts.drop_first())
    }
}

pub open spec fn all_all(ts: Seq<TreeV>) -> bool
    decreases ts,
{
    if ts.len() == 0 {
        true
    } else {
        is_all_spec(ts[0]) && all_all(ts.drop_first())
    }
}

pub proof fn lemma_any_all_index(ts: Seq<TreeV>)
    ensures
        any_all(ts) <==> exists|i: int| 0 <= i < ts.len() && is_all_spec(#[trigger] ts[i]),
        all_all(ts) <==> forall|i: int| 0 <= i < ts.len() ==> is_all_spec(#[trigger] ts[i]),
    decreases ts,
{
    if ts.len() > 0 {
        lemma_any_all_index(ts.drop_first());
        assert forall|i: int| 0 <= i < ts.drop_first().len() implies ts.drop_first()[i] == ts[i
            + 1] by {}
        if any_all(ts) {
            if is_all_spec(ts[0]) {
            } else {
                let i = choose|i: int|
                    0 <= i < ts.drop_first().len() && is_all_spec(ts.drop_first()[i]);
                assert(is_all_spec(ts[i + 1]));
            }
        }
        if exists|i: int| 0 <= i < ts.len() && is_all_spec(#[trigger] ts[i]) {
            let i = choose|i: int| 0 <= i < ts.len() && is_all_spec(#[trigger] ts[i]);
            if i > 0 {
                assert(is_all_spec(ts.drop_first()[i - 1]));
            }
        }
        if all_all(ts) {
            assert forall|i: int| 0 <= i < ts.len() implies is_all_spec(#[trigger] ts[i]) by {
                if i > 0 {
                    assert(is_all_spec(ts.drop_first()[i - 1]));
                }
            }
        }
        if forall|i: int| 0 <= i < ts.len() ==> is_all_spec(#[trigger] ts[i]) {
            assert forall|i: int|
                0 <= i < ts.drop_first().len() implies is_all_spec(
                #[trigger] ts.drop_first()[i]) by {
                assert(is_all_spec(ts[i + 1]));
            }
        }
    }
}

/// The posting map a query evaluates against.
pub open spec fn pm_view(v: Seq<(NgramIndex, NgramData)>) -> Seq<
    (Seq<u8>, Seq<(u32, Seq<u32>)>),
> {
    v.map_values(|p: (NgramIndex, NgramData)| (p.0@, p.1.posting()))
}

/// The candidate set of one n-gram: an n-gram absent from the map has an
/// empty posting.
pub open spec fn posting_set(pm: Seq<(Seq<u8>, Seq<(u32, Seq<u32>)>)>, g: Seq<u8>) -> Set<
    (u32, u32),
> {
    match lookup_bytes(pm, g) {
        None => Set::empty(),
        Some(p) => Set::new(|pr: (u32, u32)| posting_contains(p, pr.0, pr.1)),
    }
}

/// The value of a tree: everything, or a finite candidate set.
#[verifier::ext_equal]
pub enum EvalV {
    All,
    Finite(Set<(u32, u32)>),
}

/// Union: anything joined with "everything" is "everything".
pub open spec fn union_ev(a: EvalV, b: EvalV) -> EvalV {
    match (a, b) {
        (EvalV::Finite(x), EvalV::Finite(y)) => EvalV::Finite(x.union(y)),
        _ => EvalV::All,
    }
}

/// Intersection: "everything" is its identity.
pub open spec fn inter_ev(a: EvalV, b: EvalV) -> EvalV {
    match (a, b) {
        (EvalV::Finite(x), EvalV::Finite(y)) => EvalV::Finite(x.intersect(y)),
        (EvalV::Finite(x), EvalV::All) => EvalV::Finite(x),
        (EvalV::All, EvalV::Finite(y)) => EvalV::Finite(y),
        (EvalV::All, EvalV::All) => EvalV::All,
    }
}

/// Bottom-up evaluation of a tree against fetched postings.
pub open spec fn eval(t: TreeV, pm: Seq<(Seq<u8>, Seq<(u32, Seq<u32>)>)>) -> EvalV
    decreases t,
{
    match t {
        TreeV::All => EvalV::All,
        TreeV::Empty => EvalV::Finite(Set::empty()),
        TreeV::Gram(g) => EvalV::Finite(posting_set(pm, g)),
        TreeV::Alternation(ts) => eval_alt(ts, pm),
        TreeV::Concat(ts) => eval_cat(ts, pm),
    }
}

pub open spec fn eval_alt(ts: Seq<TreeV>, pm: Seq<(Seq<u8>, Seq<(u32, Seq<u32>)>)>) -> EvalV
    decreases ts,
{
    if ts.len() == 0 {
        EvalV::Finite(Set::empty())
    } else {
        union_ev(eval_alt(ts.drop_last(), pm), eval(ts.last(), pm))
    }
}

pub open spec fn eval_cat(ts: Seq<TreeV>, pm: Seq<(Seq<u8>, Seq<(u32, Seq<u32>)>)>) -> EvalV
    decreases ts,
{
    if ts.len() == 0 {
        EvalV::All
    } else {
        inter_ev(eval_cat(ts.drop_last(), pm), eval(ts.last(), pm))
    }
}

/// A tree that cannot prune evaluates to "everything", and one that can
/// prune always evaluates to a finite set, whatever the postings hold.
pub proof fn lemma_is_all_eval(t: TreeV, pm: Seq<(Seq<u8>, Seq<(u32, Seq<u32>)>)>)
    ensures
        is_all_spec(t) <==> eval(t, pm) is All,
    decreases t,
{
    match t {
        TreeV::Alternation(ts) => {
            lemma_alt_all(ts, pm);
        },
        TreeV::Concat(ts) => {
            lemma_cat_all(ts, pm);
        },
        _ => {},
    }
}

proof fn lemma_alt_all(ts: Seq<TreeV>, pm: Seq<(Seq<u8>, Seq<(u32, Seq<u32>)>)>)
    ensures
        any_all(ts) <==> eval_alt(ts, pm) is All,
    decreases ts,
{
    if ts.len() > 0 {
        lemma_alt_all(ts.drop_last(), pm);
        lemma_is_all_eval(ts.last(), pm);
        lemma_any_all_index(ts);
        lemma_any_all_index(ts.drop_last());
        if any_all(ts) {
            let i = choose|i: int| 0 <= i < ts.len() && is_all_spec(#[trigger] ts[i]);
            if i < ts.len() - 1 {
                assert(ts.drop_last()[i] == ts[i]);
                assert(any_all(ts.drop_last()));
            }
        }
        if eval_alt(ts, pm) is All {
            if eval_alt(ts.drop_last(), pm) is All {
                let i = choose|i: int|
                    0 <= i < ts.drop_last().len() && is_all_spec(#[trigger] ts.drop_last()[i]);
                assert(is_all_spec(ts[i]));
            } else {
                assert(is_all_spec(ts.last()));
                assert(is_all_spec(ts[ts.len() - 1]));
            }
        }
    }
}

proof fn lemma_cat_all(ts: Seq<TreeV>, pm: Seq<(Seq<u8>, Seq<(u32, Seq<u32>)>)>)
    ensures
        all_all(ts) <==> eval_cat(ts, pm) is All,
    decreases ts,
{
    if ts.len() > 0 {
        lemma_cat_all(ts.drop_last(), pm);
        lemma_is_all_eval(ts.last(), pm);
        lemma_any_all_index(ts);
        lemma_any_all_index(ts.drop_last());
        if all_all(ts) {
            assert forall|i: int|
                0 <= i < ts.drop_last().len() implies is_all_spec(
                #[trigger] ts.drop_last()[i]) by {
                assert(is_all_spec(ts[i]));
            }
            assert(is_all_spec(ts.last()));
        }
        if eval_cat(ts, pm) is All {
            assert(eval_cat(ts.drop_last(), pm) is All && eval(ts.last(), pm) is All);
            assert forall|i: int| 0 <= i < ts.len() implies is_all_spec(#[trigger] ts[i]) by {
                if i < ts.len() - 1 {
                    assert(is_all_spec(ts.drop_last()[i]));
                } else {
                    assert(is_all_spec(ts.last()));
                }
            }
        }
    }
}

// ---------------------------------------------------------------------
// Executable tree operations.
// ---------------------------------------------------------------------

/// Whether the tree mentions `g` as a leaf.
pub open spec fn tree_mentions(t: TreeV, g: Seq<u8>) -> bool
    decreases t,
{
    match t {
        TreeV::Gram(h) => h == g,
        TreeV::Concat(ts) => list_mentions(ts, g),
        TreeV::Alternation(ts) => list_mentions(ts, g),
        _ => false,
    }
}

pub open spec fn list_mentions(ts: Seq<TreeV>, g: Seq<u8>) -> bool
    decreases ts,
{
    if ts.len() == 0 {
        false
    } else {
        tree_mentions(ts[0], g) || list_mentions(ts.drop_first(), g)
    }
}

pub proof fn lemma_list_mentions_index(ts: Seq<TreeV>, g: Seq<u8>)
    ensures
        list_mentions(ts, g) <==> exists|i: int|
            0 <= i < ts.len() && tree_mentions(#[trigger] ts[i], g),
    decreases ts,
{
    if ts.len() > 0 {
        lemma_list_mentions_index(ts.drop_first(), g);
        if list_mentions(ts, g) && !tree_mentions(ts[0], g) {
            let i = choose|i: int|
                0 <= i < ts.drop_first().len() && tree_mentions(
                    #[trigger] ts.drop_first()[i],
                    g,
                );
            assert(tree_mentions(ts[i + 1], g));
        }
        if exists|i: int| 0 <= i < ts.len() && tree_mentions(#[trigger] ts[i], g) {
            let i = choose|i: int| 0 <= i < ts.len() && tree_mentions(#[trigger] ts[i], g);
            if i > 0 {
                assert(tree_mentions(ts.drop_first()[i - 1], g));
            }
        }
    }
}

impl NgramTree {
    /// True exactly when the tree cannot prune, whatever the index holds.
    pub fn is_all(&self) -> (r: bool)
        ensures
            r == is_all_spec(tree_view(*self)),
        decreases *self,
    {
        match self {
            NgramTree::ALL => true,
            NgramTree::Empty => false,
            NgramTree::Gram(_) => false,
            NgramTree::Alternation(sub) => {
                let ghost ts = tree_views(sub@);
                proof {
                    lemma_tree_views_index(sub@);
                    lemma_any_all_index(ts);
                }
                let mut i: usize = 0;
                while i < sub.len()
                    invariant
                        ts == tree_views(sub@),
                        ts.len() == sub@.len(),
                        *self == NgramTree::Alternation(*sub),
                        tree_view(*self) == TreeV::Alternation(ts),
                        forall|j: int| 0 <= j < sub@.len() ==> ts[j] == tree_view(#[trigger] sub@[j]),
                        any_all(ts) <==> exists|j: int|
                            0 <= j < ts.len() && is_all_spec(#[trigger] ts[j]),
                        0 <= i <= sub@.len(),
                        forall|j: int| 0 <= j < i ==> !is_all_spec(#[trigger] ts[j]),
                    decreases sub@.len() - i,
                {
                    proof {
                        assert(decreases_to!(*self => *sub));
                        assert(decreases_to!(*sub => sub@));
                        assert(decreases_to!(sub@ => sub@[i as int]));
                    }
                    if sub[i].is_all() {
                        proof {
                            assert(is_all_spec(ts[i as int]));
                        }
                        return true;
                    }
                    i += 1;
                }
                false
            },
            NgramTree::Concat(sub) => {
                let ghost ts = tree_views(sub@);
                proof {
                    lemma_tree_views_index(sub@);
                    lemma_any_all_index(ts);
                }
                let mut i: usize = 0;
                while i < sub.len()
                    invariant
                        ts == tree_views(sub@),
                        ts.len() == sub@.len(),
                        *self == NgramTree::Concat(*sub),
                        tree_view(*self) == TreeV::Concat(ts),
                        forall|j: int| 0 <= j < sub@.len() ==> ts[j] == tree_view(#[trigger] sub@[j]),
                        all_all(ts) <==> forall|j: int|
                            0 <= j < ts.len() ==> is_all_spec(#[trigger] ts[j]),
                        0 <= i <= sub@.len(),
                        forall|j: int| 0 <= j < i ==> is_all_spec(#[trigger] ts[j]),
                    decreases sub@.len() - i,
                {
                    proof {
                        assert(decreases_to!(*self => *sub));
                        assert(decreases_to!(*sub => sub@));
                        assert(decreases_to!(sub@ => sub@[i as int]));
                    }
                    if !sub[i].is_all() {
                        proof {
                            assert(!is_all_spec(ts[i as int]));
                        }
                        return false;
                    }
                    i += 1;
                }
                true
            },
        }
    }

    /// The sorted, duplicate-free fetch list: exactly the tree's leaves.
    pub fn ngrams(&self) -> (r: Vec<NgramIndex>)
        ensures
            grams_strictly_sorted(r@),
            forall|b: Seq<u8>|
                #![trigger contains_gram(r@, b)]
                contains_gram(r@, b) <==> tree_mentions(tree_view(*self), b),
    {
        let mut out: Vec<NgramIndex> = Vec::new();
        self.collect_grams(&mut out);
        out
    }

    /// Collects the tree's leaves into a sorted, duplicate-free list.
    fn collect_grams(&self, out: &mut Vec<NgramIndex>)
        requires
            grams_strictly_sorted(old(out)@),
        ensures
            grams_strictly_sorted(final(out)@),
            forall|b: Seq<u8>|
                #![trigger contains_gram(final(out)@, b)]
                contains_gram(final(out)@, b) <==> (contains_gram(old(out)@, b) || tree_mentions(
                    tree_view(*self),
                    b,
                )),
        decreases *self,
    {
        match self {
            NgramTree::ALL => {},
            NgramTree::Empty => {},
            NgramTree::Gram(g) => {
                crate::index::insert_sorted_unique(out, g.duplicate());
            },
            NgramTree::Alternation(sub) => {
                collect_grams_list(sub, out);
                proof {
                    lemma_tree_views_index(sub@);
                }
            },
            NgramTree::Concat(sub) => {
                collect_grams_list(sub, out);
                proof {
                    lemma_tree_views_index(sub@);
                }
            },
        }
    }
}

/// Collects the leaves of a list of subtrees.
fn collect_grams_list(sub: &Vec<NgramTree>, out: &mut Vec<NgramIndex>)
    requires
        grams_strictly_sorted(old(out)@),
    ensures
        grams_strictly_sorted(final(out)@),
        forall|b: Seq<u8>|
            #![trigger contains_gram(final(out)@, b)]
            contains_gram(final(out)@, b) <==> (contains_gram(old(out)@, b) || list_mentions(
                tree_views(sub@),
                b,
            )),
    decreases *sub,
{
    let ghost ts = tree_views(sub@);
    proof {
        lemma_tree_views_index(sub@);
    }
    let mut i: usize = 0;
    while i < sub.len()
        invariant
            ts == tree_views(sub@),
            ts.len() == sub@.len(),
            forall|j: int| 0 <= j < sub@.len() ==> ts[j] == tree_view(#[trigger] sub@[j]),
            0 <= i <= sub@.len(),
            grams_strictly_sorted(out@),
            forall|b: Seq<u8>|
                #![trigger contains_gram(out@, b)]
                contains_gram(out@, b) <==> (contains_gram(old(out)@, b) || exists|j: int|
                    0 <= j < i && tree_mentions(#[trigger] ts[j], b)),
        decreases sub@.len() - i,
    {
        let ghost before = out@;
        proof {
            assert(decreases_to!(*sub => sub@));
            assert(decreases_to!(sub@ => sub@[i as int]));
        }
        sub[i].collect_grams(out);
        proof {
            assert forall|b: Seq<u8>|
                contains_gram(out@, b) <==> (contains_gram(old(out)@, b) || exists|j: int|
                    0 <= j < i + 1 && tree_mentions(#[trigger] ts[j], b)) by {
                if contains_gram(old(out)@, b) {
                    assert(contains_gram(before, b));
                    assert(contains_gram(out@, b) <==> (contains_gram(before, b)
                        || tree_mentions(tree_view(sub@[i as int]), b)));
                    assert(contains_gram(out@, b));
                }
                if contains_gram(out@, b) && !contains_gram(old(out)@, b) {
                    if contains_gram(before, b) {
                        let j = choose|j: int| 0 <= j < i && tree_mentions(#[trigger] ts[j], b);
                        assert(0 <= j < i + 1 && tree_mentions(ts[j], b));
                    } else {
                        assert(tree_mentions(tree_view(sub@[i as int]), b));
                        assert(tree_mentions(ts[i as int], b));
                    }
                }
                if !contains_gram(old(out)@, b) && (exists|j: int|
                    0 <= j < i + 1 && tree_mentions(#[trigger] ts[j], b)) {
                    let j = choose|j: int| 0 <= j < i + 1 && tree_mentions(#[trigger] ts[j], b);
                    if j < i {
                        assert(contains_gram(before, b));
                        assert(contains_gram(out@, b) <==> (contains_gram(before, b)
                            || tree_mentions(tree_view(sub@[i as int]), b)));
                        assert(contains_gram(out@, b));
                    } else {
                        assert(tree_mentions(tree_view(sub@[i as int]), b));
                        assert(contains_gram(out@, b) <==> (contains_gram(before, b)
                            || tree_mentions(tree_view(sub@[i as int]), b)));
                        assert(contains_gram(out@, b));
                    }
                }
            }
        }
        i += 1;
    }
    proof {
        assert forall|b: Seq<u8>|
            contains_gram(out@, b) <==> (contains_gram(old(out)@, b) || list_mentions(ts, b)) by {
            lemma_list_mentions_index(ts, b);
        }
    }
}

// ---------------------------------------------------------------------
// Candidate sets and executable evaluation.
// ---------------------------------------------------------------------

/// The pairs of a candidate list, as a mathematical set.
pub open spec fn pairs_set(v: Seq<FileLineIndex>) -> Set<(u32, u32)> {
    Set::new(|pr: (u32, u32)| pairs_of(v).contains(pr))
}

/// The outcome of evaluating a tree: the no-pruning marker, or a finite
/// candidate list.
pub enum NgramTreeResult {
    ALL,
    Finite(Vec<FileLineIndex>),
}

/// The mathematical value of a result.
pub open spec fn result_view(r: NgramTreeResult) -> EvalV {
    match r {
        NgramTreeResult::ALL => EvalV::All,
        NgramTreeResult::Finite(v) => EvalV::Finite(pairs_set(v@)),
    }
}

/// A finite result lists each candidate once.
pub open spec fn result_wf(r: NgramTreeResult) -> bool {
    match r {
        NgramTreeResult::ALL => true,
        NgramTreeResult::Finite(v) => forall|i: int, j: int|
            0 <= i < j < v@.len() ==> (#[trigger] v@[i])@ != (#[trigger] v@[j])@,
    }
}

/// Whether the list holds the position.
fn contains_pair(v: &Vec<FileLineIndex>, x: &FileLineIndex) -> (r: bool)
    ensures
        r == pairs_of(v@).contains(x@),
{
    let ghost mv = pairs_of(v@);
    let mut i: usize = 0;
    while i < v.len()
        invariant
            mv == v@.map_values(|y: FileLineIndex| y@),
            mv.len() == v@.len(),
            0 <= i <= v@.len(),
            forall|j: int| 0 <= j < i ==> mv[j] != x@,
        decreases v@.len() - i,
    {
        if v[i].file_id.id() == x.file_id.id() && v[i].line_id.line_number()
            == x.line_id.line_number() {
            proof {
                assert(mv[i as int] == x@);
            }
            return true;
        }
        i += 1;
    }
    proof {
        if mv.contains(x@) {
            let j = choose|j: int| 0 <= j < mv.len() && mv[j] == x@;
        }
    }
    false
}

/// The raw pairs of a candidate list.
pub open spec fn pairs_of(v: Seq<FileLineIndex>) -> Seq<(u32, u32)> {
    v.map_values(|x: FileLineIndex| x@)
}

/// Appends the members of `b` that `a` lacks.
fn union_pairs(a: Vec<FileLineIndex>, b: Vec<FileLineIndex>) -> (r: Vec<FileLineIndex>)
    requires
        forall|i: int, j: int|
            0 <= i < j < a@.len() ==> (#[trigger] a@[i])@ != (#[trigger] a@[j])@,
    ensures
        forall|i: int, j: int|
            0 <= i < j < r@.len() ==> (#[trigger] r@[i])@ != (#[trigger] r@[j])@,
        pairs_set(r@) == pairs_set(a@).union(pairs_set(b@)),
{
    let mut out = a;
    let mut i: usize = 0;
    while i < b.len()
        invariant
            0 <= i <= b@.len(),
            forall|x: int, y: int|
                0 <= x < y < out@.len() ==> (#[trigger] out@[x])@ != (#[trigger] out@[y])@,
            forall|pr: (u32, u32)|
                #![trigger pairs_of(out@).contains(pr)]
                pairs_of(out@).contains(pr) <==> (pairs_of(a@).contains(pr) || pairs_of(
                    b@.take(i as int),
                ).contains(pr)),
        decreases b@.len() - i,
    {
        let ghost before = out@;
        let present = contains_pair(&out, &b[i]);
        proof {
            assert(pairs_of(before) == before.map_values(|y: FileLineIndex| y@));
        }
        if !present {
            out.push(b[i]);
        }
        proof {
            let bi = b@[i as int]@;
            assert(pairs_of(b@.take(i + 1)) =~= pairs_of(b@.take(i as int)).push(bi));
            if !present {
                assert(pairs_of(out@) =~= pairs_of(before).push(bi));
                assert forall|x: int, y: int|
                    0 <= x < y < out@.len() implies (#[trigger] out@[x])@ != (
                #[trigger] out@[y])@ by {
                    if y == out@.len() - 1 {
                        assert(!pairs_of(before).contains(bi));
                        assert(pairs_of(before)[x] == out@[x]@);
                    } else {
                        assert(before[x]@ != before[y]@);
                    }
                }
            } else {
                assert(out@ == before);
            }
            assert forall|pr: (u32, u32)|
                #![trigger pairs_of(out@).contains(pr)]
                pairs_of(out@).contains(pr) <==> (pairs_of(a@).contains(pr) || pairs_of(
                    b@.take(i + 1),
                ).contains(pr)) by {
                let om = pairs_of(out@);
                let bm = pairs_of(before);
                let tm = pairs_of(b@.take(i + 1));
                let pm2 = pairs_of(b@.take(i as int));
                if om.contains(pr) {
                    let w = choose|w: int| 0 <= w < om.len() && om[w] == pr;
                    if w < before.len() {
                        assert(bm[w] == pr);
                        assert(bm.contains(pr));
                        assert(pairs_of(a@).contains(pr) || pm2.contains(pr));
                        if pm2.contains(pr) {
                            let u = choose|u: int| 0 <= u < pm2.len() && pm2[u] == pr;
                            assert(tm[u] == pr);
                            assert(tm.contains(pr));
                        }
                    } else {
                        assert(pr == bi);
                        assert(tm[i as int] == bi);
                        assert(tm.contains(pr));
                    }
                }
                if tm.contains(pr) {
                    let w = choose|w: int| 0 <= w < tm.len() && tm[w] == pr;
                    if w < i {
                        assert(pm2[w] == pr);
                        assert(pm2.contains(pr));
                        assert(bm.contains(pr));
                        let v2 = choose|v2: int| 0 <= v2 < bm.len() && bm[v2] == pr;
                        assert(om[v2] == pr);
                    } else {
                        assert(pr == bi);
                        if present {
                            assert(bm.contains(pr));
                            let v2 = choose|v2: int| 0 <= v2 < bm.len() && bm[v2] == pr;
                            assert(om[v2] == pr);
                        } else {
                            assert(om[om.len() - 1] == bi);
                        }
                    }
                    assert(om.contains(pr));
                }
                if pairs_of(a@).contains(pr) || pm2.contains(pr) {
                    assert(bm.contains(pr));
                    let v2 = choose|v2: int| 0 <= v2 < bm.len() && bm[v2] == pr;
                    assert(om[v2] == pr);
                    assert(om.contains(pr));
                }
            }
        }
        i += 1;
    }
    proof {
        assert(b@.take(i as int) =~= b@);
        assert(pairs_set(out@) =~= pairs_set(a@).union(pairs_set(b@))) by {
            assert forall|pr: (u32, u32)|
                pairs_set(out@).contains(pr) <==> pairs_set(a@).union(pairs_set(b@)).contains(
                    pr,
                ) by {
                assert(pairs_set(out@).contains(pr) <==> pairs_of(out@).contains(pr));
                assert(pairs_of(out@).contains(pr) <==> (pairs_of(a@).contains(pr) || pairs_of(
                    b@,
                ).contains(pr)));
            }
        }
    }
    out
}

/// Keeps the members of `a` that `b` also holds.
fn intersect_pairs(a: Vec<FileLineIndex>, b: &Vec<FileLineIndex>) -> (r: Vec<FileLineIndex>)
    requires
        forall|i: int, j: int|
            0 <= i < j < a@.len() ==> (#[trigger] a@[i])@ != (#[trigger] a@[j])@,
    ensures
        forall|i: int, j: int|
            0 <= i < j < r@.len() ==> (#[trigger] r@[i])@ != (#[trigger] r@[j])@,
        pairs_set(r@) == pairs_set(a@).intersect(pairs_set(b@)),
{
    let mut out: Vec<FileLineIndex> = Vec::new();
    let mut i: usize = 0;
    proof {
        assert(pairs_of(out@) =~= Seq::<(u32, u32)>::empty());
    }
    while i < a.len()
        invariant
            0 <= i <= a@.len(),
            forall|x: int, y: int|
                0 <= x < y < a@.len() ==> (#[trigger] a@[x])@ != (#[trigger] a@[y])@,
            forall|x: int, y: int|
                0 <= x < y < out@.len() ==> (#[trigger] out@[x])@ != (#[trigger] out@[y])@,
            forall|pr: (u32, u32)|
                #![trigger pairs_of(out@).contains(pr)]
                pairs_of(out@).contains(pr) <==> (pairs_of(a@.take(i as int)).contains(pr)
                    && pairs_of(b@).contains(pr)),
        decreases a@.len() - i,
    {
        let ghost before = out@;
        let keep = contains_pair(b, &a[i]);
        proof {
            assert(pairs_of(b@) == b@.map_values(|y: FileLineIndex| y@));
        }
        if keep {
            out.push(a[i]);
        }
        proof {
            let ai = a@[i as int]@;
            assert(pairs_of(a@.take(i + 1)) =~= pairs_of(a@.take(i as int)).push(ai));
            if keep {
                assert(pairs_of(out@) =~= pairs_of(before).push(ai));
                assert forall|x: int, y: int|
                    0 <= x < y < out@.len() implies (#[trigger] out@[x])@ != (
                #[trigger] out@[y])@ by {
                    if y == out@.len() - 1 {
                        if pairs_of(before).contains(ai) {
                            let tk = pairs_of(a@.take(i as int));
                            assert(tk.contains(ai));
                            let w2 = choose|w2: int| 0 <= w2 < tk.len() && tk[w2] == ai;
                            assert(a@[w2]@ == a@[i as int]@);
                        }
                        assert(pairs_of(before)[x] == out@[x]@);
                    } else {
                        assert(before[x]@ != before[y]@);
                    }
                }
            } else {
                assert(out@ == before);
            }
            assert forall|pr: (u32, u32)|
                #![trigger pairs_of(out@).contains(pr)]
                pairs_of(out@).contains(pr) <==> (pairs_of(a@.take(i + 1)).contains(pr)
                    && pairs_of(b@).contains(pr)) by {
                let om = pairs_of(out@);
                let bm = pairs_of(before);
                let tm = pairs_of(a@.take(i + 1));
                let pm2 = pairs_of(a@.take(i as int));
                if om.contains(pr) {
                    let w = choose|w: int| 0 <= w < om.len() && om[w] == pr;
                    if w < before.len() {
                        assert(bm[w] == pr);
                        assert(bm.contains(pr));
                        assert(pm2.contains(pr));
                        let v2 = choose|v2: int| 0 <= v2 < pm2.len() && pm2[v2] == pr;
                        assert(tm[v2] == pr);
                    } else {
                        assert(pr == ai);
                        assert(tm[i as int] == ai);
                    }
                    assert(tm.contains(pr));
                }
                if tm.contains(pr) && pairs_of(b@).contains(pr) {
                    let w = choose|w: int| 0 <= w < tm.len() && tm[w] == pr;
                    if w < i {
                        assert(pm2[w] == pr);
                        assert(pm2.contains(pr));
                        assert(bm.contains(pr));
                        let v2 = choose|v2: int| 0 <= v2 < bm.len() && bm[v2] == pr;
                        assert(om[v2] == pr);
                    } else {
                        assert(pr == ai);
                        assert(keep);
                        assert(om[om.len() - 1] == ai);
                    }
                    assert(om.contains(pr));
                }
            }
        }
        i += 1;
    }
    proof {
        assert(a@.take(i as int) =~= a@);
        assert(pairs_set(out@) =~= pairs_set(a@).intersect(pairs_set(b@))) by {
            assert forall|pr: (u32, u32)|
                pairs_set(out@).contains(pr) <==> pairs_set(a@).intersect(
                    pairs_set(b@),
                ).contains(pr) by {
                assert(pairs_set(out@).contains(pr) <==> pairs_of(out@).contains(pr));
                assert(pairs_of(out@).contains(pr) <==> (pairs_of(a@).contains(pr) && pairs_of(
                    b@,
                ).contains(pr)));
            }
        }
    }
    out
}

impl NgramTreeResult {
    /// Set union with "everything" absorbing.
    pub fn alternation(self, b: Self) -> (r: Self)
        requires
            result_wf(self),
            result_wf(b),
        ensures
            result_wf(r),
            result_view(r) == union_ev(result_view(self), result_view(b)),
    {
        match (self, b) {
            (NgramTreeResult::Finite(x), NgramTreeResult::Finite(y)) => {
                NgramTreeResult::Finite(union_pairs(x, y))
            },
            (_, _) => NgramTreeResult::ALL,
        }
    }

    /// Set intersection with "everything" as identity.
    pub fn concat(self, b: Self) -> (r: Self)
        requires
            result_wf(self),
            result_wf(b),
        ensures
            result_wf(r),
            result_view(r) == inter_ev(result_view(self), result_view(b)),
    {
        match (self, b) {
            (NgramTreeResult::Finite(x), NgramTreeResult::Finite(y)) => NgramTreeResult::Finite(
                intersect_pairs(x, &y),
            ),
            (NgramTreeResult::Finite(x), NgramTreeResult::ALL) => NgramTreeResult::Finite(x),
            (NgramTreeResult::ALL, NgramTreeResult::Finite(y)) => NgramTreeResult::Finite(y),
            (NgramTreeResult::ALL, NgramTreeResult::ALL) => NgramTreeResult::ALL,
        }
    }
}

/// Deduplicates a candidate list.
fn dedup_pairs(v: Vec<FileLineIndex>) -> (r: Vec<FileLineIndex>)
    ensures
        forall|i: int, j: int|
            0 <= i < j < r@.len() ==> (#[trigger] r@[i])@ != (#[trigger] r@[j])@,
        pairs_set(r@) == pairs_set(v@),
{
    let empty: Vec<FileLineIndex> = Vec::new();
    let r = union_pairs(empty, v);
    proof {
        assert(pairs_set(r@) =~= pairs_set(v@));
    }
    r
}

impl NgramTree {
    /// Evaluates the tree bottom-up against the fetched postings. An
    /// n-gram missing from the map contributes an empty candidate set.
    pub fn get_file_lines(&self, ngram_to_data: &Vec<(NgramIndex, NgramData)>) -> (r:
        NgramTreeResult)
        ensures
            result_wf(r),
            result_view(r) == eval(tree_view(*self), pm_view(ngram_to_data@)),
        decreases *self,
    {
        let ghost pm = pm_view(ngram_to_data@);
        match self {
            NgramTree::ALL => NgramTreeResult::ALL,
            NgramTree::Empty => {
                let r = NgramTreeResult::Finite(Vec::new());
                proof {
                    match &r {
                        NgramTreeResult::Finite(v) => {
                            assert(pairs_set(v@) =~= Set::empty());
                        },
                        _ => {},
                    }
                }
                r
            },
            NgramTree::Gram(e) => {
                let found = lookup_posting(ngram_to_data, e);
                match found {
                    None => {
                        let r = NgramTreeResult::Finite(Vec::new());
                        proof {
                            match &r {
                                NgramTreeResult::Finite(v) => {
                                    assert(pairs_set(v@) =~= posting_set(pm, e@));
                                },
                                _ => {},
                            }
                        }
                        r
                    },
                    Some(nd) => {
                        let flat = nd.file_lines();
                        let ghost p = nd.posting();
                        let deduped = dedup_pairs(flat);
                        proof {
                            assert forall|pr: (u32, u32)|
                                pairs_set(flat@).contains(pr) <==> posting_set(pm, e@).contains(
                                    pr,
                                ) by {
                                crate::data::lemma_flatten_posting_contains(p, pr.0, pr.1);
                                assert(flat@.map_values(|x: FileLineIndex| x@).contains(pr)
                                    <==> crate::data::flatten_posting(p).contains(pr));
                            }
                            assert(pairs_set(deduped@) =~= posting_set(pm, e@));
                        }
                        NgramTreeResult::Finite(deduped)
                    },
                }
            },
            NgramTree::Alternation(sub) => {
                let ghost ts = tree_views(sub@);
                proof {
                    lemma_tree_views_index(sub@);
                }
                let mut acc = NgramTreeResult::Finite(Vec::new());
                proof {
                    assert(ts.take(0) =~= Seq::<TreeV>::empty());
                    match &acc {
                        NgramTreeResult::Finite(v) => {
                            assert(pairs_set(v@) =~= Set::empty());
                        },
                        _ => {},
                    }
                    assert(result_view(acc) == eval_alt(ts.take(0), pm));
                }
                let mut i: usize = 0;
                while i < sub.len()
                    invariant
                        pm == pm_view(ngram_to_data@),
                        ts == tree_views(sub@),
                        ts.len() == sub@.len(),
                        *self == NgramTree::Alternation(*sub),
                        tree_view(*self) == TreeV::Alternation(ts),
                        forall|j: int|
                            0 <= j < sub@.len() ==> ts[j] == tree_view(#[trigger] sub@[j]),
                        0 <= i <= sub@.len(),
                        result_wf(acc),
                        result_view(acc) == eval_alt(ts.take(i as int), pm),
                    decreases sub@.len() - i,
                {
                    proof {
                        assert(decreases_to!(*self => *sub));
                        assert(decreases_to!(*sub => sub@));
                        assert(decreases_to!(sub@ => sub@[i as int]));
                    }
                    let child = sub[i].get_file_lines(ngram_to_data);
                    acc = acc.alternation(child);
                    proof {
                        assert(ts.take(i + 1).drop_last() =~= ts.take(i as int));
                        assert(ts.take(i + 1).last() == ts[i as int]);
                    }
                    i += 1;
                }
                proof {
                    assert(ts.take(i as int) =~= ts);
                }
                acc
            },
            NgramTree::Concat(sub) => {
                let ghost ts = tree_views(sub@);
                proof {
                    lemma_tree_views_index(sub@);
                }
                let mut acc = NgramTreeResult::ALL;
                proof {
                    assert(ts.take(0) =~= Seq::<TreeV>::empty());
                    assert(result_view(acc) == eval_cat(ts.take(0), pm));
                }
                let mut i: usize = 0;
                while i < sub.len()
                    invariant
                        pm == pm_view(ngram_to_data@),
                        ts == tree_views(sub@),
                        ts.len() == sub@.len(),
                        *self == NgramTree::Concat(*sub),
                        tree_view(*self) == TreeV::Concat(ts),
                        forall|j: int|
                            0 <= j < sub@.len() ==> ts[j] == tree_view(#[trigger] sub@[j]),
                        0 <= i <= sub@.len(),
                        result_wf(acc),
                        result_view(acc) == eval_cat(ts.take(i as int), pm),
                    decreases sub@.len() - i,
                {
                    proof {
                        assert(decreases_to!(*self => *sub));
                        assert(decreases_to!(*sub => sub@));
                        assert(decreases_to!(sub@ => sub@[i as int]));
                    }
                    let child = sub[i].get_file_lines(ngram_to_data);
                    acc = acc.concat(child);
                    proof {
                        assert(ts.take(i + 1).drop_last() =~= ts.take(i as int));
                        assert(ts.take(i + 1).last() == ts[i as int]);
                    }
                    i += 1;
                }
                proof {
                    assert(ts.take(i as int) =~= ts);
                }
                acc
            },
        }
    }
}

/// Finds the fetched posting of an n-gram.
fn lookup_posting<'a>(
    ngram_to_data: &'a Vec<(NgramIndex, NgramData)>,
    g: &NgramIndex,
) -> (r: Option<&'a NgramData>)
    ensures
        match r {
            Some(nd) => lookup_bytes(pm_view(ngram_to_data@), g@) == Some(nd.posting()),
            None => lookup_bytes(pm_view(ngram_to_data@), g@) is None,
        },
{
    let ghost pm = pm_view(ngram_to_data@);
    let mut i: usize = 0;
    proof {
        assert(pm.skip(0) =~= pm);
    }
    while i < ngram_to_data.len()
        invariant
            pm == pm_view(ngram_to_data@),
            0 <= i <= pm.len(),
            pm.len() == ngram_to_data@.len(),
            lookup_bytes(pm, g@) == lookup_bytes(pm.skip(i as int), g@),
        decreases pm.len() - i,
    {
        if bytes_eq(ngram_to_data[i].0.bytes().as_slice(), g.bytes().as_slice()) {
            proof {
                crate::assoc::lemma_lookup_bytes_skip_hit(pm, g@, i as int);
            }
            return Some(&ngram_to_data[i].1);
        }
        proof {
            crate::assoc::lemma_lookup_bytes_skip_miss(pm, g@, i as int);
        }
        i += 1;
    }
    proof {
        assert(pm.skip(i as int) =~= Seq::<(Seq<u8>, Seq<(u32, Seq<u32>)>)>::empty());
    }
    None
}

// ---------------------------------------------------------------------
// The staged query pipeline.
// ---------------------------------------------------------------------

/// The parser's abstract syntax tree, handled only by the conversion
/// below.
#[verifier::external_type_specification]
#[verifier::external_body]
pub struct ExHir(regex_syntax::hir::Hir);

/// Converts the parser's abstract syntax into the library's own shape,
/// node for node. Relies on regex_syntax's HirKind: subtrees recurse,
/// fields move over.
#[verifier::external_body]
fn hir_to_ir(h: &regex_syntax::hir::Hir) -> RegexIr {
    match h.kind() {
        regex_syntax::hir::HirKind::Empty => RegexIr::Empty,
        regex_syntax::hir::HirKind::Literal(l) => RegexIr::Literal(l.0.to_vec()),
        regex_syntax::hir::HirKind::Class(_) => RegexIr::Class,
        regex_syntax::hir::HirKind::Look(_) => RegexIr::Look,
        regex_syntax::hir::HirKind::Repetition(r) => RegexIr::Repetition {
            min: r.min,
            sub: Box::new(hir_to_ir(&r.sub)),
        },
        regex_syntax::hir::HirKind::Capture(c) => RegexIr::Capture(Box::new(hir_to_ir(&c.sub))),
        regex_syntax::hir::HirKind::Concat(hs) => RegexIr::Concat(hirs_to_irs(hs)),
        regex_syntax::hir::HirKind::Alternation(hs) => RegexIr::Alternation(hirs_to_irs(hs)),
    }
}

/// Converts a combinator's subtrees. Relies on regex_syntax's Hir only
/// through the conversion above.
#[verifier::external_body]
fn hirs_to_irs(hs: &[regex_syntax::hir::Hir]) -> Vec<RegexIr> {
    hs.iter().map(hir_to_ir).collect()
}

/// What the regex parser makes of a pattern: the pattern's shape, or
/// nothing for a malformed pattern. The parse depends on the pattern's
/// characters alone.
pub uninterp spec fn parsed_ir_of(pattern: Seq<char>) -> Option<RegexIr>;

/// Relies on regex_syntax::parse: it succeeds exactly on well-formed
/// patterns, a function of the pattern alone; a parsed pattern is handed
/// over in the library's own shape.
#[verifier::external_body]
fn parse_pattern(pattern: &str) -> (r: Result<RegexIr, IgrepError>)
    ensures
        r is Ok <==> parsed_ir_of(pattern@) is Some,
        r matches Ok(ir) ==> parsed_ir_of(pattern@) == Some(ir),
        r matches Err(e) ==> e == IgrepError::BadPattern,
{
    match regex_syntax::parse(pattern) {
        Ok(hir) => Ok(hir_to_ir(&hir)),
        Err(_) => Err(IgrepError::BadPattern),
    }
}

/// A decoded index map holds an n-gram length of at least 1.
pub proof fn lemma_index_record_n(data: Seq<u8>)
    ensures
        index_record_of(data) matches Some(t) ==> t.0 >= 1,
{
}

/// The query engine: the loaded index map and the staged pipeline that
/// runs a query against it.
pub struct Engine {
    index_data: IndexData,
}

/// Stage 1 output: the n-gram tree of the pattern.
pub struct OneSearchInit {
    tree: NgramTree,
}

/// Stage 2 state: the tree and its fetch list.
pub struct OneSearchNgramsIndex {
    tree: NgramTree,
    indexs: Vec<NgramIndex>,
}

/// Stage 3 state: the tree and the decoded postings of the fetch list.
pub struct OneSearchNgramData {
    tree: NgramTree,
    indexs_ranges: Vec<(NgramIndex, NgramData)>,
}

/// Stage 3 output: the candidate positions grouped by file, or the
/// no-pruning marker.
pub struct OneSearchFileIndex {
    pub all: bool,
    pub file_lines_index: Vec<(FileIndex, Vec<LineIndex>)>,
}

/// Stage 4 output for one file: its record and its candidate lines.
pub struct OneSearchFileData {
    pub file_resault: (FileData, Vec<LineIndex>),
}

impl OneSearchInit {
    pub closed spec fn tree_spec(&self) -> TreeV {
        tree_view(self.tree)
    }

    pub fn new(tree: NgramTree) -> (r: Self)
        ensures
            r.tree_spec() == tree_view(tree),
    {
        Self { tree }
    }
}

impl OneSearchNgramsIndex {
    pub closed spec fn tree_spec(&self) -> TreeV {
        tree_view(self.tree)
    }

    pub closed spec fn indexs_spec(&self) -> Seq<Seq<u8>> {
        self.indexs@.map_values(|g: NgramIndex| g@)
    }

    /// The fetch list is the sorted, duplicate-free set of the tree's
    /// leaves.
    pub fn new(tree: NgramTree) -> (r: Self)
        ensures
            r.tree_spec() == tree_view(tree),
            forall|i: int, j: int|
                0 <= i < j < r.indexs_spec().len() ==> lex_lt(
                    #[trigger] r.indexs_spec()[i],
                    #[trigger] r.indexs_spec()[j],
                ),
            forall|b: Seq<u8>|
                #![trigger r.indexs_spec().contains(b)]
                r.indexs_spec().contains(b) <==> tree_mentions(tree_view(tree), b),
    {
        let indexs = tree.ngrams();
        let r = Self { tree, indexs };
        proof {
            assert forall|i: int, j: int|
                0 <= i < j < r.indexs_spec().len() implies lex_lt(
                    #[trigger] r.indexs_spec()[i],
                    #[trigger] r.indexs_spec()[j],
                ) by {
                assert(lex_lt(r.indexs@[i]@, r.indexs@[j]@));
            }
            assert forall|b: Seq<u8>|
                r.indexs_spec().contains(b) <==> tree_mentions(tree_view(r.tree), b) by {
                if r.indexs_spec().contains(b) {
                    let i = choose|i: int|
                        0 <= i < r.indexs_spec().len() && r.indexs_spec()[i] == b;
                    assert(r.indexs@[i]@ == b);
                    assert(contains_gram(r.indexs@, b));
                }
                if tree_mentions(tree_view(r.tree), b) {
                    assert(contains_gram(r.indexs@, b));
                    let i = choose|i: int| 0 <= i < r.indexs@.len() && r.indexs@[i]@ == b;
                    assert(r.indexs_spec()[i] == b);
                }
            }
        }
        r
    }

    /// How many n-grams are to be fetched.
    pub fn len(&self) -> (r: usize)
        ensures
            r == self.indexs_spec().len(),
    {
        self.indexs.len()
    }
}

impl OneSearchNgramData {
    pub closed spec fn tree_spec(&self) -> TreeV {
        tree_view(self.tree)
    }

    /// The decoded posting map the tree is evaluated against.
    pub closed spec fn pm_spec(&self) -> Seq<(Seq<u8>, Seq<(u32, Seq<u32>)>)> {
        pm_view(self.indexs_ranges@)
    }
}

/// The smaller of two lengths.
pub open spec fn min_len(a: nat, b: nat) -> nat {
    if a < b {
        a
    } else {
        b
    }
}

/// The fetch plan: each n-gram of the fetch list that the index map
/// knows, paired with its blob range, in fetch-list order; an absent
/// n-gram contributes nothing and is treated as an empty posting.
pub open spec fn fetch_list(
    indexs: Seq<Seq<u8>>,
    ngrams: Seq<(Seq<u8>, (u64, u32))>,
) -> Seq<(Seq<u8>, (u64, u32))>
    decreases indexs.len(),
{
    if indexs.len() == 0 {
        Seq::empty()
    } else {
        fetch_list(indexs.drop_last(), ngrams) + (match lookup_bytes(ngrams, indexs.last()) {
            Some(r) => seq![(indexs.last(), r)],
            None => Seq::empty(),
        })
    }
}

/// A shorter fetch list is a prefix of the longer one.
proof fn lemma_fetch_list_prefix(indexs: Seq<Seq<u8>>, ngrams: Seq<(Seq<u8>, (u64, u32))>, i: int)
    requires
        0 <= i <= indexs.len(),
    ensures
        fetch_list(indexs.take(i), ngrams).len() <= fetch_list(indexs, ngrams).len(),
        forall|k: int|
            0 <= k < fetch_list(indexs.take(i), ngrams).len() ==> #[trigger] fetch_list(
                indexs.take(i),
                ngrams,
            )[k] == fetch_list(indexs, ngrams)[k],
    decreases indexs.len(),
{
    if i == indexs.len() {
        assert(indexs.take(i) =~= indexs);
    } else {
        assert(indexs.take(i) =~= indexs.drop_last().take(i));
        lemma_fetch_list_prefix(indexs.drop_last(), ngrams, i);
        let shorter = fetch_list(indexs.drop_last(), ngrams);
        assert forall|k: int| 0 <= k < shorter.len() implies #[trigger] shorter[k] == fetch_list(
            indexs,
            ngrams,
        )[k] by {}
    }
}

impl Engine {
    /// The loaded index map.
    pub closed spec fn index_spec(&self) -> IndexData {
        self.index_data
    }

    /// Loads the index map artifact.
    pub fn new(index_data_buf: Vec<u8>) -> (r: Result<Self, IgrepError>)
        ensures
            r matches Ok(e) ==> index_record_of(index_data_buf@) == Some(
                (e.index_spec().n(), e.index_spec().files(), e.index_spec().ngrams()),
            ) && e.index_spec().n() >= 1,
            r is Err ==> index_record_of(index_data_buf@) is None,
    {
        let ghost buf = index_data_buf@;
        match IndexData::from_data(index_data_buf) {
            Err(e) => Err(e),
            Ok(index_data) => {
                proof {
                    lemma_index_record_n(buf);
                }
                Ok(Self { index_data })
            },
        }
    }

    /// The configured n-gram length of the store.
    pub fn ngram_len(&self) -> (r: u8)
        ensures
            r == self.index_spec().n(),
    {
        self.index_data.ngram_len()
    }

    /// How many files the loaded index map holds.
    pub fn file_count(&self) -> (r: usize)
        ensures
            r == self.index_spec().files().len(),
    {
        self.index_data.file_count()
    }

    /// How many distinct n-grams the loaded index map holds.
    pub fn ngram_count(&self) -> (r: usize)
        ensures
            r == self.index_spec().ngrams().len(),
    {
        self.index_data.ngram_count()
    }

    /// One entry of the loaded file map, for walking every indexed file
    /// when the tree cannot prune and every line must be verified.
    pub fn file_at(&self, i: usize) -> (r: (FileIndex, FileRange))
        requires
            i < self.index_spec().files().len(),
        ensures
            (r.0@, r.1@) == self.index_spec().files()[i as int],
    {
        self.index_data.file_at(i)
    }

    /// The blob range of one file's record.
    pub fn file_range(&self, fid: &FileIndex) -> (r: Option<FileRange>)
        ensures
            match r {
                Some(rg) => lookup_u32(self.index_spec().files(), fid@) == Some(rg@),
                None => lookup_u32(self.index_spec().files(), fid@) is None,
            },
    {
        self.index_data.get_file_range(fid)
    }

    /// Stage 4 helper: decodes a fetched file record.
    pub fn build_file_data(&self, data: Vec<u8>) -> (r: Result<FileData, IgrepError>)
        ensures
            r matches Ok(d) ==> crate::codec::file_record_of(data@) == Some(
                (d.name_spec(), d.entries()),
            ),
            r is Err ==> crate::codec::file_record_of(data@) is None,
    {
        FileData::from_data(data)
    }

    /// Stage 4 helper: decodes a fetched line record.
    pub fn build_file_line_data(&self, data: Vec<u8>) -> (r: Result<FileLineData, IgrepError>)
        ensures
            r matches Ok(d) ==> crate::codec::line_record_of(data@) == Some(d@),
            r is Err ==> crate::codec::line_record_of(data@) is None,
    {
        FileLineData::from_data(data)
    }

    /// Stage 1: parses the pattern and synthesizes its n-gram tree. The
    /// query fails exactly on a malformed pattern; a parsed pattern
    /// yields the tree of its shape at the store's n-gram length.
    pub fn init(&self, pattern: &str) -> (r: Result<OneSearchInit, IgrepError>)
        requires
            self.index_spec().n() >= 1,
        ensures
            r is Ok <==> parsed_ir_of(pattern@) is Some,
            r matches Err(e) ==> e == IgrepError::BadPattern,
            r matches Ok(o) ==> o.tree_spec() == tree_of_ir(
                parsed_ir_of(pattern@)->Some_0,
                self.index_spec().n() as nat,
            ),
    {
        let n = self.index_data.ngram_len();
        match parse_pattern(pattern) {
            Err(e) => Err(e),
            Ok(ir) => {
                let tree = build_tree(&ir, n);
                let r = OneSearchInit::new(tree);
                proof {
                    assert(r.tree_spec() == tree_of_ir(ir, n as nat));
                }
                Ok(r)
            },
        }
    }

    /// Stage 2, first half: the fetch list of the query.
    pub fn init_to_ngram_index(&self, one_search_init: OneSearchInit) -> (r: OneSearchNgramsIndex)
        ensures
            r.tree_spec() == one_search_init.tree_spec(),
            forall|b: Seq<u8>|
                #![trigger r.indexs_spec().contains(b)]
                r.indexs_spec().contains(b) <==> tree_mentions(one_search_init.tree_spec(), b),
    {
        OneSearchNgramsIndex::new(one_search_init.tree)
    }

    /// Stage 2, second half: the fetch plan of the query, each n-gram the
    /// index map knows paired with its blob range, in fetch-list order;
    /// an n-gram the index map lacks is skipped, its posting empty.
    pub fn ngram_ranges(&self, one_search_ngram_index: &OneSearchNgramsIndex) -> (r: Vec<
        (NgramIndex, NgramRange),
    >)
        ensures
            r@.map_values(|x: (NgramIndex, NgramRange)| (x.0@, x.1@)) == fetch_list(
                one_search_ngram_index.indexs_spec(),
                self.index_spec().ngrams(),
            ),
    {
        let ghost ids = one_search_ngram_index.indexs_spec();
        let ghost ngrams = self.index_spec().ngrams();
        let mut out: Vec<(NgramIndex, NgramRange)> = Vec::new();
        let mut i: usize = 0;
        proof {
            assert(ids.take(0) =~= Seq::<Seq<u8>>::empty());
            assert(out@.map_values(|x: (NgramIndex, NgramRange)| (x.0@, x.1@)) =~= fetch_list(
                ids.take(0),
                ngrams,
            ));
        }
        while i < one_search_ngram_index.indexs.len()
            invariant
                ids == one_search_ngram_index.indexs_spec(),
                ngrams == self.index_spec().ngrams(),
                0 <= i <= ids.len(),
                ids.len() == one_search_ngram_index.indexs@.len(),
                out@.map_values(|x: (NgramIndex, NgramRange)| (x.0@, x.1@)) == fetch_list(
                    ids.take(i as int),
                    ngrams,
                ),
            decreases ids.len() - i,
        {
            let ghost before = out@;
            match self.index_data.get_ngram_range(&one_search_ngram_index.indexs[i]) {
                Some(rg) => {
                    let key = one_search_ngram_index.indexs[i].duplicate();
                    out.push((key, rg));
                    proof {
                        assert(out@.map_values(|x: (NgramIndex, NgramRange)| (x.0@, x.1@))
                            =~= before.map_values(
                            |x: (NgramIndex, NgramRange)| (x.0@, x.1@),
                        ).push((ids[i as int], rg@)));
                    }
                },
                None => {},
            }
            proof {
                assert(ids.take(i + 1).drop_last() =~= ids.take(i as int));
                assert(ids.take(i + 1).last() == ids[i as int]);
                assert(ids[i as int] == one_search_ngram_index.indexs@[i as int]@);
                assert(out@.map_values(|x: (NgramIndex, NgramRange)| (x.0@, x.1@)) =~= fetch_list(
                    ids.take(i + 1),
                    ngrams,
                ));
            }
            i += 1;
        }
        proof {
            assert(ids.take(i as int) =~= ids);
        }
        out
    }

    /// Stage 3, first half: decodes each fetched posting and pairs it
    /// with its own n-gram of the fetch plan, position by position; an
    /// n-gram the index map lacks got no buffer and gets no pair. The
    /// query fails exactly when one of the paired buffers does not
    /// decode.
    pub fn ngram_index_to_ngram_data(
        &self,
        one_search_ngram_index: OneSearchNgramsIndex,
        datas: Vec<Vec<u8>>,
    ) -> (r: Result<OneSearchNgramData, IgrepError>)
        ensures
            ({
                let fl = fetch_list(
                    one_search_ngram_index.indexs_spec(),
                    self.index_spec().ngrams(),
                );
                let m = min_len(fl.len(), datas@.len());
                &&& (r is Ok <==> forall|k: int|
                    0 <= k < m ==> crate::codec::ngram_record_of(
                        (#[trigger] datas@[k])@,
                    ) is Some)
                &&& (r matches Ok(o) ==> {
                    &&& o.tree_spec() == one_search_ngram_index.tree_spec()
                    &&& o.pm_spec().len() == m
                    &&& forall|k: int|
                        0 <= k < m ==> (#[trigger] o.pm_spec()[k]).0 == fl[k].0
                    &&& forall|k: int|
                        0 <= k < m ==> crate::codec::ngram_record_of((#[trigger] datas@[k])@)
                            == Some(o.pm_spec()[k].1)
                })
            }),
    {
        let ghost ids = one_search_ngram_index.indexs_spec();
        let ghost ngrams = self.index_spec().ngrams();
        let ghost fl = fetch_list(ids, ngrams);
        let ghost datas0 = datas@;
        let tree = one_search_ngram_index.tree;
        let indexs = one_search_ngram_index.indexs;
        let mut rest = datas;
        let mut pairs: Vec<(NgramIndex, NgramData)> = Vec::new();
        let n = indexs.len();
        let total = rest.len();
        let mut i: usize = 0;
        let mut j: usize = 0;
        proof {
            assert(rest@ =~= datas0.skip(0));
            assert(ids.take(0) =~= Seq::<Seq<u8>>::empty());
        }
        while i < n
            invariant
                datas0 == datas@,
                datas0.len() == total <= usize::MAX,
                tree_view(tree) == one_search_ngram_index.tree_spec(),
                ids == one_search_ngram_index.indexs_spec(),
                ngrams == self.index_spec().ngrams(),
                fl == fetch_list(ids, ngrams),
                indexs@.map_values(|g: NgramIndex| g@) == ids,
                indexs@.len() == n == ids.len(),
                0 <= i <= n,
                0 <= j <= datas0.len(),
                rest@ == datas0.skip(j as int),
                j == fetch_list(ids.take(i as int), ngrams).len(),
                pm_view(pairs@).len() == j,
                forall|k: int|
                    0 <= k < j ==> (#[trigger] pm_view(pairs@)[k]).0 == fetch_list(
                        ids.take(i as int),
                        ngrams,
                    )[k].0,
                forall|k: int|
                    0 <= k < j ==> crate::codec::ngram_record_of((#[trigger] datas0[k])@)
                        == Some(pm_view(pairs@)[k].1),
            decreases n - i,
        {
            let ghost fcur = fetch_list(ids.take(i as int), ngrams);
            let ghost fnext = fetch_list(ids.take(i + 1), ngrams);
            proof {
                assert(ids.take(i + 1).drop_last() =~= ids.take(i as int));
                assert(ids.take(i + 1).last() == ids[i as int]);
                assert(ids[i as int] == indexs@[i as int]@);
            }
            match self.index_data.get_ngram_range(&indexs[i]) {
                None => {
                    proof {
                        assert(fnext =~= fcur);
                    }
                },
                Some(_) => {
                    proof {
                        assert(fnext =~= fcur.push((ids[i as int], lookup_bytes(
                            ngrams,
                            ids[i as int],
                        )->Some_0)));
                    }
                    if rest.len() == 0 {
                        // buffers exhausted: everything fetched is paired
                        proof {
                            assert(j == datas0.len());
                            lemma_fetch_list_prefix(ids, ngrams, i as int);
                            assert(min_len(fl.len(), datas0.len()) == j) by {
                                assert(fl.len() >= fcur.len());
                            }
                            assert forall|k: int|
                                0 <= k < j implies (#[trigger] pm_view(pairs@)[k]).0
                                == fl[k].0 by {
                                assert(fcur[k] == fl[k]);
                            }
                        }
                        let o = OneSearchNgramData { tree, indexs_ranges: pairs };
                        proof {
                            assert(o.tree_spec() == one_search_ngram_index.tree_spec());
                        }
                        return Ok(o);
                    }
                    let buf = rest.remove(0);
                    proof {
                        assert(datas0.skip(j as int)[0] == datas0[j as int]);
                        assert(rest@ =~= datas0.skip(j + 1));
                    }
                    match NgramData::from_data(buf) {
                        Err(e) => {
                            proof {
                                assert(crate::codec::ngram_record_of(
                                    datas0[j as int]@,
                                ) is None);
                                lemma_fetch_list_prefix(ids, ngrams, i + 1);
                                assert(fl.len() >= fnext.len());
                                assert(j < min_len(fl.len(), datas0.len()));
                            }
                            return Err(e);
                        },
                        Ok(nd) => {
                            let ghost before = pm_view(pairs@);
                            let key = indexs[i].duplicate();
                            pairs.push((key, nd));
                            proof {
                                assert(pm_view(pairs@) =~= before.push(
                                    (ids[i as int], pm_view(pairs@).last().1),
                                ));
                                assert forall|k: int|
                                    0 <= k < j + 1 implies (#[trigger] pm_view(pairs@)[k]).0
                                    == fnext[k].0 by {
                                    if k < j {
                                        assert(fnext[k] == fcur[k]);
                                        assert(pm_view(pairs@)[k] == before[k]);
                                    } else {
                                        assert(fnext[k] == (ids[i as int], lookup_bytes(
                                            ngrams,
                                            ids[i as int],
                                        )->Some_0));
                                    }
                                }
                            }
                            j += 1;
                        },
                    }
                },
            }
            i += 1;
        }
        proof {
            assert(ids.take(i as int) =~= ids);
            assert(j == fl.len());
            assert(min_len(fl.len(), datas0.len()) == j);
        }
        let o = OneSearchNgramData { tree, indexs_ranges: pairs };
        Ok(o)
    }

    /// Stage 3, second half: evaluates the tree against the decoded
    /// postings and groups the candidates by file.
    pub fn ngram_data_to_file_lines(&self, one_search_ngram_data: OneSearchNgramData) -> (r:
        OneSearchFileIndex)
        ensures
            r.all <==> eval(one_search_ngram_data.tree_spec(), one_search_ngram_data.pm_spec())
                is All,
            r.all ==> r.file_lines_index@.len() == 0,
            !r.all ==> forall|f: u32, l: u32|
                posting_contains(crate::data::raw_posting(r.file_lines_index@), f, l) <==> eval(
                    one_search_ngram_data.tree_spec(),
                    one_search_ngram_data.pm_spec(),
                )->Finite_0.contains((f, l)),
            crate::assoc::unique_keys_u32(crate::data::raw_posting(r.file_lines_index@)),
            forall|i: int, a: int, b: int|
                0 <= i < crate::data::raw_posting(r.file_lines_index@).len() && 0 <= a < b
                    < crate::data::raw_posting(r.file_lines_index@)[i].1.len()
                    ==> crate::data::raw_posting(r.file_lines_index@)[i].1[a]
                    != crate::data::raw_posting(r.file_lines_index@)[i].1[b],
    {
        let res = one_search_ngram_data.tree.get_file_lines(
            &one_search_ngram_data.indexs_ranges,
        );
        OneSearchFileIndex::new(res)
    }
}

impl OneSearchFileIndex {
    /// Groups a finite candidate set by file, keeping first-seen file
    /// order; each file's candidate list holds each line once; the
    /// no-pruning marker leaves the map empty.
    pub fn new(ngram_tree_result: NgramTreeResult) -> (r: Self)
        requires
            result_wf(ngram_tree_result),
        ensures
            r.all <==> result_view(ngram_tree_result) is All,
            r.all ==> r.file_lines_index@.len() == 0,
            !r.all ==> forall|f: u32, l: u32|
                posting_contains(crate::data::raw_posting(r.file_lines_index@), f, l)
                    <==> result_view(ngram_tree_result)->Finite_0.contains((f, l)),
            crate::assoc::unique_keys_u32(crate::data::raw_posting(r.file_lines_index@)),
            forall|i: int, a: int, b: int|
                0 <= i < crate::data::raw_posting(r.file_lines_index@).len() && 0 <= a < b
                    < crate::data::raw_posting(r.file_lines_index@)[i].1.len()
                    ==> crate::data::raw_posting(r.file_lines_index@)[i].1[a]
                    != crate::data::raw_posting(r.file_lines_index@)[i].1[b],
    {
        match ngram_tree_result {
            NgramTreeResult::ALL => {
                let r = OneSearchFileIndex { all: true, file_lines_index: Vec::new() };
                proof {
                    assert(crate::data::raw_posting(r.file_lines_index@).len() == 0);
                }
                r
            },
            NgramTreeResult::Finite(set) => {
                let ghost pairs = pairs_of(set@);
                let mut grouped: Vec<(FileIndex, Vec<LineIndex>)> = Vec::new();
                let mut i: usize = 0;
                proof {
                    assert(pairs.take(0) =~= Seq::<(u32, u32)>::empty());
                    assert(crate::data::raw_posting(grouped@) =~= crate::data::group_postings(
                        pairs.take(0),
                    ));
                }
                while i < set.len()
                    invariant
                        pairs == pairs_of(set@),
                        pairs.len() == set@.len(),
                        0 <= i <= set@.len(),
                        crate::data::raw_posting(grouped@) == crate::data::group_postings(
                            pairs.take(i as int),
                        ),
                    decreases set@.len() - i,
                {
                    let fid = set[i].file_id;
                    let lid = set[i].line_id;
                    let ghost before = crate::data::raw_posting(grouped@);
                    crate::data::add_pair(&mut grouped, fid, lid);
                    proof {
                        assert(pairs.take(i + 1).drop_last() =~= pairs.take(i as int));
                        assert(pairs.take(i + 1).last() == pairs[i as int]);
                        assert(pairs[i as int] == (fid@, lid@));
                    }
                    i += 1;
                }
                proof {
                    assert(pairs.take(i as int) =~= pairs);
                }
                let r = OneSearchFileIndex { all: false, file_lines_index: grouped };
                proof {
                    assert forall|f: u32, l: u32|
                        posting_contains(crate::data::raw_posting(r.file_lines_index@), f, l)
                            <==> pairs_set(set@).contains((f, l)) by {
                        crate::data::lemma_group_postings_contains(pairs, f, l);
                    }
                    assert forall|a: int, b: int|
                        0 <= a < b < pairs.len() implies pairs[a] != pairs[b] by {
                        assert(set@[a]@ != set@[b]@);
                    }
                    crate::data::lemma_group_postings_wf(pairs);
                }
                r
            },
        }
    }

    /// The files holding at least one candidate, in stored order.
    pub fn file_range(&self) -> (r: Vec<FileIndex>)
        ensures
            r@.len() == self.file_lines_index@.len(),
            forall|i: int|
                0 <= i < r@.len() ==> (#[trigger] r@[i])@ == self.file_lines_index@[i].0@,
    {
        let mut out: Vec<FileIndex> = Vec::new();
        let mut i: usize = 0;
        while i < self.file_lines_index.len()
            invariant
                0 <= i <= self.file_lines_index@.len(),
                out@.len() == i,
                forall|j: int|
                    0 <= j < i ==> (#[trigger] out@[j])@ == self.file_lines_index@[j].0@,
            decreases self.file_lines_index@.len() - i,
        {
            out.push(self.file_lines_index[i].0);
            i += 1;
        }
        out
    }

    /// Stage 4: pairs a decoded file record with that file's candidate
    /// lines. Nothing comes back under the no-pruning marker or for a
    /// file without candidates.
    pub fn file_data(&self, file_data: FileData, fid: &FileIndex) -> (r: Option<
        OneSearchFileData,
    >)
        ensures
            self.all ==> r is None,
            !self.all ==> match r {
                Some(o) => {
                    &&& o.file_resault.0 == file_data
                    &&& lookup_u32(
                        crate::data::raw_posting(self.file_lines_index@),
                        fid@,
                    ) == Some(o.file_resault.1@.map_values(|l: LineIndex| l@))
                },
                None => lookup_u32(
                    crate::data::raw_posting(self.file_lines_index@),
                    fid@,
                ) is None,
            },
    {
        if self.all {
            return None;
        }
        let ghost rp = crate::data::raw_posting(self.file_lines_index@);
        let mut i: usize = 0;
        proof {
            assert(rp.skip(0) =~= rp);
        }
        while i < self.file_lines_index.len()
            invariant
                !self.all,
                rp == crate::data::raw_posting(self.file_lines_index@),
                0 <= i <= rp.len(),
                rp.len() == self.file_lines_index@.len(),
                lookup_u32(rp, fid@) == lookup_u32(rp.skip(i as int), fid@),
            decreases rp.len() - i,
        {
            if self.file_lines_index[i].0.id() == fid.id() {
                proof {
                    crate::assoc::lemma_lookup_u32_skip_hit(rp, fid@, i as int);
                }
                let lines = copy_lines(&self.file_lines_index[i].1);
                return Some(OneSearchFileData { file_resault: (file_data, lines) });
            }
            proof {
                crate::assoc::lemma_lookup_u32_skip_miss(rp, fid@, i as int);
            }
            i += 1;
        }
        proof {
            assert(rp.skip(i as int) =~= Seq::<(u32, Seq<u32>)>::empty());
        }
        None
    }
}

/// Copies a line-number list.
fn copy_lines(v: &Vec<LineIndex>) -> (r: Vec<LineIndex>)
    ensures
        r@ == v@,
{
    let mut out: Vec<LineIndex> = Vec::new();
    let mut i: usize = 0;
    while i < v.len()
        invariant
            0 <= i <= v@.len(),
            out@ == v@.take(i as int),
        decreases v@.len() - i,
    {
        out.push(v[i]);
        proof {
            assert(v@.take(i + 1) =~= v@.take(i as int).push(v@[i as int]));
        }
        i += 1;
    }
    proof {
        assert(v@.take(i as int) =~= v@);
    }
    out
}

// ---------------------------------------------------------------------
// Stage 5: verification of the candidates by the external matcher.
// ---------------------------------------------------------------------

/// The candidates the matcher confirmed, in order: exactly those whose
/// span list is non-empty.
pub open spec fn matched_filter(
    cv: Seq<(u32, Seq<char>)>,
    sp: Seq<Seq<(usize, usize)>>,
    upto: int,
) -> Seq<(u32, Seq<char>, Seq<(usize, usize)>)>
    decreases upto,
{
    if upto <= 0 {
        Seq::empty()
    } else {
        matched_filter(cv, sp, upto - 1) + (if sp[upto - 1].len() > 0 {
            seq![(cv[upto - 1].0, cv[upto - 1].1, sp[upto - 1])]
        } else {
            Seq::empty()
        })
    }
}

/// Copies a span list.
fn copy_spans(v: &Vec<(usize, usize)>) -> (r: Vec<(usize, usize)>)
    ensures
        r@ == v@,
{
    let mut out: Vec<(usize, usize)> = Vec::new();
    let mut i: usize = 0;
    while i < v.len()
        invariant
            0 <= i <= v@.len(),
            out@ == v@.take(i as int),
        decreases v@.len() - i,
    {
        out.push(v[i]);
        proof {
            assert(v@.take(i + 1) =~= v@.take(i as int).push(v@[i as int]));
        }
        i += 1;
    }
    proof {
        assert(v@.take(i as int) =~= v@);
    }
    out
}

/// Stage 5: keeps exactly the candidate lines on which the external
/// matcher reported at least one span, in candidate order, each with its
/// spans. The reported set is the candidates with a non-empty match
/// list, no more and no fewer.
pub fn verify_candidates(
    candidates: &Vec<(LineIndex, FileLineData)>,
    matches: &Vec<Vec<(usize, usize)>>,
) -> (r: Vec<(LineIndex, FileLineData, Vec<(usize, usize)>)>)
    requires
        candidates@.len() == matches@.len(),
    ensures
        r@.map_values(
            |t: (LineIndex, FileLineData, Vec<(usize, usize)>)| (t.0@, t.1@, t.2@),
        ) == matched_filter(
            candidates@.map_values(|c: (LineIndex, FileLineData)| (c.0@, c.1@)),
            matches@.map_values(|m: Vec<(usize, usize)>| m@),
            candidates@.len() as int,
        ),
{
    let ghost cv = candidates@.map_values(|c: (LineIndex, FileLineData)| (c.0@, c.1@));
    let ghost sp = matches@.map_values(|m: Vec<(usize, usize)>| m@);
    let mut out: Vec<(LineIndex, FileLineData, Vec<(usize, usize)>)> = Vec::new();
    let mut i: usize = 0;
    proof {
        assert(out@.map_values(
            |t: (LineIndex, FileLineData, Vec<(usize, usize)>)| (t.0@, t.1@, t.2@),
        ) =~= matched_filter(cv, sp, 0));
    }
    while i < candidates.len()
        invariant
            cv == candidates@.map_values(|c: (LineIndex, FileLineData)| (c.0@, c.1@)),
            sp == matches@.map_values(|m: Vec<(usize, usize)>| m@),
            candidates@.len() == matches@.len() == cv.len() == sp.len(),
            0 <= i <= cv.len(),
            out@.map_values(
                |t: (LineIndex, FileLineData, Vec<(usize, usize)>)| (t.0@, t.1@, t.2@),
            ) == matched_filter(cv, sp, i as int),
        decreases cv.len() - i,
    {
        let ghost before = out@;
        if matches[i].len() > 0 {
            let li = candidates[i].0;
            let text = FileLineData::new(candidates[i].1.get().clone());
            let spans = copy_spans(&matches[i]);
            out.push((li, text, spans));
            proof {
                assert(out@.map_values(
                    |t: (LineIndex, FileLineData, Vec<(usize, usize)>)| (t.0@, t.1@, t.2@),
                ) =~= before.map_values(
                    |t: (LineIndex, FileLineData, Vec<(usize, usize)>)| (t.0@, t.1@, t.2@),
                ).push((cv[i as int].0, cv[i as int].1, sp[i as int])));
            }
        }
        proof {
            assert(sp[i as int].len() > 0 ==> matched_filter(cv, sp, i + 1) =~= matched_filter(
                cv,
                sp,
                i as int,
            ).push((cv[i as int].0, cv[i as int].1, sp[i as int])));
            assert(sp[i as int].len() == 0 ==> matched_filter(cv, sp, i + 1) =~= matched_filter(
                cv,
                sp,
                i as int,
            ));
        }
        i += 1;
    }
    out
}

// ---------------------------------------------------------------------
// Soundness of pruning.
// ---------------------------------------------------------------------

/// The conservative condition a line must meet for a tree: every
/// concatenation branch, some alternation branch, and each leaf as a
/// byte window of the line.
pub open spec fn tree_matches_line(t: TreeV, bytes: Seq<u8>, n: nat) -> bool
    decreases t,
{
    match t {
        TreeV::All => true,
        TreeV::Empty => false,
        TreeV::Gram(g) => is_window(bytes, n, g),
        TreeV::Concat(ts) => cat_matches(ts, bytes, n),
        TreeV::Alternation(ts) => alt_matches(ts, bytes, n),
    }
}

pub open spec fn cat_matches(ts: Seq<TreeV>, bytes: Seq<u8>, n: nat) -> bool
    decreases ts,
{
    if ts.len() == 0 {
        true
    } else {
        cat_matches(ts.drop_last(), bytes, n) && tree_matches_line(ts.last(), bytes, n)
    }
}

pub open spec fn alt_matches(ts: Seq<TreeV>, bytes: Seq<u8>, n: nat) -> bool
    decreases ts,
{
    if ts.len() == 0 {
        false
    } else {
        alt_matches(ts.drop_last(), bytes, n) || tree_matches_line(ts.last(), bytes, n)
    }
}

/// The fetched postings are complete for one line: every leaf of the
/// tree that occurs in the line as a window is mapped, and its posting
/// holds the line.
pub open spec fn postings_complete_for(
    t: TreeV,
    pm: Seq<(Seq<u8>, Seq<(u32, Seq<u32>)>)>,
    f: u32,
    l: u32,
    bytes: Seq<u8>,
    n: nat,
) -> bool {
    forall|g: Seq<u8>|
        tree_mentions(t, g) && is_window(bytes, n, g) ==> ((#[trigger] lookup_bytes(pm, g))
            matches Some(p) && posting_contains(p, f, l))
}

/// No false negatives: a line that meets the tree's condition is in the
/// candidate set whenever the fetched postings are complete for it and
/// the evaluation prunes at all.
pub proof fn lemma_eval_sound(
    t: TreeV,
    pm: Seq<(Seq<u8>, Seq<(u32, Seq<u32>)>)>,
    f: u32,
    l: u32,
    bytes: Seq<u8>,
    n: nat,
)
    requires
        postings_complete_for(t, pm, f, l, bytes, n),
        tree_matches_line(t, bytes, n),
    ensures
        eval(t, pm) matches EvalV::Finite(s) ==> s.contains((f, l)),
    decreases t,
{
    match t {
        TreeV::All => {},
        TreeV::Empty => {},
        TreeV::Gram(g) => {
            assert(tree_mentions(t, g));
            assert(lookup_bytes(pm, g) matches Some(p) && posting_contains(p, f, l));
        },
        TreeV::Concat(ts) => {
            lemma_cat_sound(ts, pm, f, l, bytes, n);
        },
        TreeV::Alternation(ts) => {
            lemma_alt_sound(ts, pm, f, l, bytes, n);
        },
    }
}

proof fn lemma_cat_sound(
    ts: Seq<TreeV>,
    pm: Seq<(Seq<u8>, Seq<(u32, Seq<u32>)>)>,
    f: u32,
    l: u32,
    bytes: Seq<u8>,
    n: nat,
)
    requires
        forall|g: Seq<u8>|
            list_mentions(ts, g) && is_window(bytes, n, g) ==> ((#[trigger] lookup_bytes(pm, g))
                matches Some(p) && posting_contains(p, f, l)),
        cat_matches(ts, bytes, n),
    ensures
        eval_cat(ts, pm) matches EvalV::Finite(s) ==> s.contains((f, l)),
    decreases ts,
{
    if ts.len() > 0 {
        assert forall|g: Seq<u8>|
            list_mentions(ts.drop_last(), g) && is_window(bytes, n, g) implies (
        #[trigger] lookup_bytes(pm, g)) matches Some(p) && posting_contains(p, f, l) by {
            lemma_list_mentions_index(ts.drop_last(), g);
            let i = choose|i: int|
                0 <= i < ts.drop_last().len() && tree_mentions(#[trigger] ts.drop_last()[i], g);
            assert(ts[i] == ts.drop_last()[i]);
            lemma_list_mentions_index(ts, g);
            assert(list_mentions(ts, g));
        }
        lemma_cat_sound(ts.drop_last(), pm, f, l, bytes, n);
        assert(postings_complete_for(ts.last(), pm, f, l, bytes, n)) by {
            assert forall|g: Seq<u8>|
                tree_mentions(ts.last(), g) && is_window(bytes, n, g) implies (
            #[trigger] lookup_bytes(pm, g)) matches Some(p) && posting_contains(p, f, l) by {
                lemma_list_mentions_index(ts, g);
                assert(ts[ts.len() - 1] == ts.last());
                assert(list_mentions(ts, g));
            }
        }
        lemma_eval_sound(ts.last(), pm, f, l, bytes, n);
    }
}

proof fn lemma_alt_sound(
    ts: Seq<TreeV>,
    pm: Seq<(Seq<u8>, Seq<(u32, Seq<u32>)>)>,
    f: u32,
    l: u32,
    bytes: Seq<u8>,
    n: nat,
)
    requires
        forall|g: Seq<u8>|
            list_mentions(ts, g) && is_window(bytes, n, g) ==> ((#[trigger] lookup_bytes(pm, g))
                matches Some(p) && posting_contains(p, f, l)),
        alt_matches(ts, bytes, n),
    ensures
        eval_alt(ts, pm) matches EvalV::Finite(s) ==> s.contains((f, l)),
    decreases ts,
{
    if ts.len() > 0 {
        if alt_matches(ts.drop_last(), bytes, n) {
            assert forall|g: Seq<u8>|
                list_mentions(ts.drop_last(), g) && is_window(bytes, n, g) implies (
            #[trigger] lookup_bytes(pm, g)) matches Some(p) && posting_contains(p, f, l) by {
                lemma_list_mentions_index(ts.drop_last(), g);
                let i = choose|i: int|
                    0 <= i < ts.drop_last().len() && tree_mentions(
                        #[trigger] ts.drop_last()[i],
                        g,
                    );
                assert(ts[i] == ts.drop_last()[i]);
                lemma_list_mentions_index(ts, g);
                assert(list_mentions(ts, g));
            }
            lemma_alt_sound(ts.drop_last(), pm, f, l, bytes, n);
            if eval_alt(ts, pm) is Finite {
                let s = eval_alt(ts, pm)->Finite_0;
                match (eval_alt(ts.drop_last(), pm), eval(ts.last(), pm)) {
                    (EvalV::Finite(x), EvalV::Finite(y)) => {
                        assert(s == x.union(y));
                        assert(x.contains((f, l)));
                        assert(s.contains((f, l)));
                    },
                    _ => {},
                }
            }
        } else {
            assert(tree_matches_line(ts.last(), bytes, n));
            assert(postings_complete_for(ts.last(), pm, f, l, bytes, n)) by {
                assert forall|g: Seq<u8>|
                    tree_mentions(ts.last(), g) && is_window(bytes, n, g) implies (
                #[trigger] lookup_bytes(pm, g)) matches Some(p) && posting_contains(p, f, l) by {
                    lemma_list_mentions_index(ts, g);
                    assert(ts[ts.len() - 1] == ts.last());
                    assert(list_mentions(ts, g));
                }
            }
            lemma_eval_sound(ts.last(), pm, f, l, bytes, n);
            if eval_alt(ts, pm) is Finite {
                let s = eval_alt(ts, pm)->Finite_0;
                match (eval_alt(ts.drop_last(), pm), eval(ts.last(), pm)) {
                    (EvalV::Finite(x), EvalV::Finite(y)) => {
                        assert(s == x.union(y));
                        assert(y.contains((f, l)));
                        assert(s.contains((f, l)));
                    },
                    _ => {},
                }
            }
        }
    }
}

} // verus!
