//! The binary layout of the records. Integers are little-endian and
//! fixed-width; byte strings and lists carry a 64-bit count in front.
//! The encoders and decoders are defined as spec functions over byte
//! sequences; the executable code is proved against them, and decoding
//! an encoded record gives the record back.

use vstd::prelude::*;

use vstd::bytes::{
    lemma_auto_spec_u32_to_from_le_bytes, lemma_auto_spec_u64_to_from_le_bytes,
    spec_u32_from_le_bytes, spec_u32_to_le_bytes, spec_u64_from_le_bytes, spec_u64_to_le_bytes,
    u32_from_le_bytes, u32_to_le_bytes, u64_from_le_bytes, u64_to_le_bytes,
};
use vstd::slice::{slice_subrange, slice_to_vec};

use crate::compress::{deflate_bytes, deflate_of, inflate_bytes, inflate_of};
use crate::data::{FileData, FileLineData, IndexData, NgramData};
use crate::error::IgrepError;
use crate::index::{FileIndex, LineIndex, NgramIndex};
use crate::range::{FileLineRange, FileRange, NgramRange, Range};
use vstd::utf8::{decode_utf8, encode_utf8, encode_utf8_decode_utf8, encode_utf8_valid_utf8, valid_utf8};

verus! {

pub open spec fn enc_u32(x: u32) -> Seq<u8> {
    spec_u32_to_le_bytes(x)
}

pub open spec fn enc_u64(x: u64) -> Seq<u8> {
    spec_u64_to_le_bytes(x)
}

pub open spec fn enc_range(r: (u64, u32)) -> Seq<u8> {
    enc_u64(r.0) + enc_u32(r.1)
}

pub open spec fn enc_bytes(b: Seq<u8>) -> Seq<u8> {
    enc_u64(b.len() as u64) + b
}

pub open spec fn enc_str(s: Seq<char>) -> Seq<u8> {
    enc_bytes(encode_utf8(s))
}

pub open spec fn dec_u32(b: Seq<u8>, pos: int) -> Option<(u32, int)> {
    if 0 <= pos && pos + 4 <= b.len() {
        Some((spec_u32_from_le_bytes(b.subrange(pos, pos + 4)), pos + 4))
    } else {
        None
    }
}

pub open spec fn dec_u64(b: Seq<u8>, pos: int) -> Option<(u64, int)> {
    if 0 <= pos && pos + 8 <= b.len() {
        Some((spec_u64_from_le_bytes(b.subrange(pos, pos + 8)), pos + 8))
    } else {
        None
    }
}

pub open spec fn dec_range(b: Seq<u8>, pos: int) -> Option<((u64, u32), int)> {
    match dec_u64(b, pos) {
        None => None,
        Some((start, p)) => match dec_u32(b, p) {
            None => None,
            Some((len, p2)) => Some(((start, len), p2)),
        },
    }
}

pub open spec fn dec_bytes(b: Seq<u8>, pos: int) -> Option<(Seq<u8>, int)> {
    match dec_u64(b, pos) {
        None => None,
        Some((n, p)) => if p + n <= b.len() {
            Some((b.subrange(p, p + n), p + n))
        } else {
            None
        },
    }
}

pub open spec fn dec_str(b: Seq<u8>, pos: int) -> Option<(Seq<char>, int)> {
    match dec_bytes(b, pos) {
        None => None,
        Some((bs, p)) => if valid_utf8(bs) {
            Some((decode_utf8(bs), p))
        } else {
            None
        },
    }
}

pub proof fn lemma_dec_u32_at(b: Seq<u8>, pos: int, x: u32)
    requires
        0 <= pos,
        pos + 4 <= b.len(),
        b.subrange(pos, pos + 4) == enc_u32(x),
    ensures
        dec_u32(b, pos) == Some((x, pos + 4)),
{
    lemma_auto_spec_u32_to_from_le_bytes();
    assert(spec_u32_to_le_bytes(x).len() == 4);
    assert(spec_u32_from_le_bytes(b.subrange(pos, pos + 4)) == spec_u32_from_le_bytes(
        spec_u32_to_le_bytes(x),
    ));
    assert(spec_u32_from_le_bytes(spec_u32_to_le_bytes(x)) == x);
}

pub proof fn lemma_dec_u64_at(b: Seq<u8>, pos: int, x: u64)
    requires
        0 <= pos,
        pos + 8 <= b.len(),
        b.subrange(pos, pos + 8) == enc_u64(x),
    ensures
        dec_u64(b, pos) == Some((x, pos + 8)),
{
    lemma_auto_spec_u64_to_from_le_bytes();
}

pub proof fn lemma_enc_u32_len(x: u32)
    ensures
        enc_u32(x).len() == 4,
{
    lemma_auto_spec_u32_to_from_le_bytes();
}

pub proof fn lemma_enc_u64_len(x: u64)
    ensures
        enc_u64(x).len() == 8,
{
    lemma_auto_spec_u64_to_from_le_bytes();
}

pub proof fn lemma_dec_range_at(b: Seq<u8>, pos: int, r: (u64, u32))
    requires
        0 <= pos,
        pos + 12 <= b.len(),
        b.subrange(pos, pos + 12) == enc_range(r),
    ensures
        dec_range(b, pos) == Some((r, pos + 12)),
{
    lemma_enc_u64_len(r.0);
    lemma_enc_u32_len(r.1);
    assert(b.subrange(pos, pos + 8) =~= enc_range(r).subrange(0, 8));
    assert(enc_range(r).subrange(0, 8) =~= enc_u64(r.0));
    assert(b.subrange(pos + 8, pos + 12) =~= enc_range(r).subrange(8, 12));
    assert(enc_range(r).subrange(8, 12) =~= enc_u32(r.1));
    lemma_dec_u64_at(b, pos, r.0);
    lemma_dec_u32_at(b, pos + 8, r.1);
}

pub proof fn lemma_dec_bytes_at(b: Seq<u8>, pos: int, s: Seq<u8>)
    requires
        0 <= pos,
        s.len() <= u64::MAX,
        pos + 8 + s.len() <= b.len(),
        b.subrange(pos, pos + 8 + s.len()) == enc_bytes(s),
    ensures
        dec_bytes(b, pos) == Some((s, pos + 8 + s.len())),
{
    lemma_enc_u64_len(s.len() as u64);
    assert(b.subrange(pos, pos + 8) =~= enc_bytes(s).subrange(0, 8));
    assert(enc_bytes(s).subrange(0, 8) =~= enc_u64(s.len() as u64));
    lemma_dec_u64_at(b, pos, s.len() as u64);
    assert(b.subrange(pos + 8, pos + 8 + s.len()) =~= enc_bytes(s).subrange(8, 8 + s.len() as int));
    assert(enc_bytes(s).subrange(8, 8 + s.len() as int) =~= s);
}

pub proof fn lemma_dec_str_at(b: Seq<u8>, pos: int, s: Seq<char>)
    requires
        0 <= pos,
        encode_utf8(s).len() <= u64::MAX,
        pos + 8 + encode_utf8(s).len() <= b.len(),
        b.subrange(pos, pos + 8 + encode_utf8(s).len()) == enc_str(s),
    ensures
        dec_str(b, pos) == Some((s, pos + 8 + encode_utf8(s).len())),
{
    lemma_dec_bytes_at(b, pos, encode_utf8(s));
    broadcast use encode_utf8_valid_utf8;
    broadcast use encode_utf8_decode_utf8;

    assert(decode_utf8(encode_utf8(s)) == s);
}

pub fn push_u32(out: &mut Vec<u8>, x: u32)
    ensures
        final(out)@ == old(out)@ + enc_u32(x),
{
    let mut b = u32_to_le_bytes(x);
    out.append(&mut b);
}

pub fn push_u64(out: &mut Vec<u8>, x: u64)
    ensures
        final(out)@ == old(out)@ + enc_u64(x),
{
    let mut b = u64_to_le_bytes(x);
    out.append(&mut b);
}

pub fn push_range(out: &mut Vec<u8>, start: u64, len: u32)
    ensures
        final(out)@ == old(out)@ + enc_range((start, len)),
{
    push_u64(out, start);
    push_u32(out, len);
    proof {
        assert(out@ =~= old(out)@ + enc_range((start, len)));
    }
}

pub fn push_bytes(out: &mut Vec<u8>, b: &[u8])
    ensures
        final(out)@ == old(out)@ + enc_bytes(b@),
{
    let n = b.len();
    push_u64(out, n as u64);
    out.extend_from_slice(b);
    proof {
        assert(out@ =~= old(out)@ + enc_bytes(b@));
    }
}

pub fn push_str(out: &mut Vec<u8>, s: &String)
    ensures
        final(out)@ == old(out)@ + enc_str(s@),
{
    push_bytes(out, s.as_str().as_bytes());
}

pub fn read_u32(b: &[u8], pos: usize) -> (r: Option<(u32, usize)>)
    ensures
        match r {
            Some((x, p)) => dec_u32(b@, pos as int) == Some((x, p as int)),
            None => dec_u32(b@, pos as int) is None,
        },
{
    if pos <= b.len() && b.len() - pos >= 4 {
        let s = slice_subrange(b, pos, pos + 4);
        Some((u32_from_le_bytes(s), pos + 4))
    } else {
        None
    }
}

pub fn read_u64(b: &[u8], pos: usize) -> (r: Option<(u64, usize)>)
    ensures
        match r {
            Some((x, p)) => dec_u64(b@, pos as int) == Some((x, p as int)),
            None => dec_u64(b@, pos as int) is None,
        },
{
    if pos <= b.len() && b.len() - pos >= 8 {
        let s = slice_subrange(b, pos, pos + 8);
        Some((u64_from_le_bytes(s), pos + 8))
    } else {
        None
    }
}

pub fn read_range(b: &[u8], pos: usize) -> (r: Option<((u64, u32), usize)>)
    ensures
        match r {
            Some((x, p)) => dec_range(b@, pos as int) == Some((x, p as int)),
            None => dec_range(b@, pos as int) is None,
        },
{
    match read_u64(b, pos) {
        None => None,
        Some((start, p)) => match read_u32(b, p) {
            None => None,
            Some((len, p2)) => Some(((start, len), p2)),
        },
    }
}

pub fn read_bytes(b: &[u8], pos: usize) -> (r: Option<(Vec<u8>, usize)>)
    ensures
        match r {
            Some((v, p)) => dec_bytes(b@, pos as int) == Some((v@, p as int)),
            None => dec_bytes(b@, pos as int) is None,
        },
{
    match read_u64(b, pos) {
        None => None,
        Some((n, p)) => {
            if n <= (b.len() - p) as u64 {
                let end = p + n as usize;
                let s = slice_subrange(b, p, end);
                Some((slice_to_vec(s), end))
            } else {
                None
            }
        },
    }
}

/// Relies on String::from_utf8: it returns the string of the given bytes
/// exactly when they are valid UTF-8.
#[verifier::external_body]
fn string_from_utf8(v: Vec<u8>) -> (r: Option<String>)
    ensures
        r matches Some(s) ==> encode_utf8(s@) == v@,
        r is Some <==> valid_utf8(v@),
{
    String::from_utf8(v).ok()
}

pub fn read_str(b: &[u8], pos: usize) -> (r: Option<(String, usize)>)
    ensures
        match r {
            Some((s, p)) => dec_str(b@, pos as int) == Some((s@, p as int)),
            None => dec_str(b@, pos as int) is None,
        },
{
    match read_bytes(b, pos) {
        None => None,
        Some((v, p)) => {
            let ghost bs = v@;
            match string_from_utf8(v) {
                None => None,
                Some(s) => {
                    proof {
                        broadcast use encode_utf8_valid_utf8;
                        broadcast use encode_utf8_decode_utf8;

                        assert(decode_utf8(bs) == s@);
                    }
                    Some((s, p))
                },
            }
        },
    }
}

pub open spec fn enc_u32s(s: Seq<u32>) -> Seq<u8>
    decreases s.len(),
{
    if s.len() == 0 {
        Seq::empty()
    } else {
        enc_u32(s[0]) + enc_u32s(s.drop_first())
    }
}

/// One entry of an integer-keyed range map.
pub open spec fn enc_u32_range_entry(e: (u32, (u64, u32))) -> Seq<u8> {
    enc_u32(e.0) + enc_range(e.1)
}

pub open spec fn enc_u32_range_entries(s: Seq<(u32, (u64, u32))>) -> Seq<u8>
    decreases s.len(),
{
    if s.len() == 0 {
        Seq::empty()
    } else {
        enc_u32_range_entry(s[0]) + enc_u32_range_entries(s.drop_first())
    }
}

/// One entry of a posting: file id, line count, lines.
pub open spec fn enc_posting_entry(e: (u32, Seq<u32>)) -> Seq<u8> {
    enc_u32(e.0) + enc_u64(e.1.len() as u64) + enc_u32s(e.1)
}

pub open spec fn enc_posting_entries(s: Seq<(u32, Seq<u32>)>) -> Seq<u8>
    decreases s.len(),
{
    if s.len() == 0 {
        Seq::empty()
    } else {
        enc_posting_entry(s[0]) + enc_posting_entries(s.drop_first())
    }
}

/// One entry of the byte-keyed range map.
pub open spec fn enc_bytes_range_entry(e: (Seq<u8>, (u64, u32))) -> Seq<u8> {
    enc_bytes(e.0) + enc_range(e.1)
}

pub open spec fn enc_bytes_range_entries(s: Seq<(Seq<u8>, (u64, u32))>) -> Seq<u8>
    decreases s.len(),
{
    if s.len() == 0 {
        Seq::empty()
    } else {
        enc_bytes_range_entry(s[0]) + enc_bytes_range_entries(s.drop_first())
    }
}

pub proof fn lemma_enc_u32s_push(s: Seq<u32>, x: u32)
    ensures
        enc_u32s(s.push(x)) == enc_u32s(s) + enc_u32(x),
    decreases s.len(),
{
    let t = s.push(x);
    if s.len() == 0 {
        assert(t[0] == x);
        assert(t.drop_first() =~= Seq::<u32>::empty());
        assert(enc_u32s(t) == enc_u32(t[0]) + enc_u32s(t.drop_first()));
        assert(enc_u32(t[0]) + enc_u32s(t.drop_first()) =~= enc_u32s(s) + enc_u32(x));
    } else {
        assert(t[0] == s[0]);
        assert(t.drop_first() =~= s.drop_first().push(x));
        lemma_enc_u32s_push(s.drop_first(), x);
        assert(enc_u32s(t) == enc_u32(s[0]) + (enc_u32s(s.drop_first()) + enc_u32(x)));
        assert(enc_u32(s[0]) + (enc_u32s(s.drop_first()) + enc_u32(x)) =~= enc_u32s(s)
            + enc_u32(x));
    }
}

pub proof fn lemma_enc_u32_range_entries_push(s: Seq<(u32, (u64, u32))>, e: (u32, (u64, u32)))
    ensures
        enc_u32_range_entries(s.push(e)) == enc_u32_range_entries(s) + enc_u32_range_entry(e),
    decreases s.len(),
{
    let t = s.push(e);
    if s.len() == 0 {
        assert(t[0] == e);
        assert(t.drop_first() =~= Seq::<(u32, (u64, u32))>::empty());
        assert(enc_u32_range_entries(t) == enc_u32_range_entry(t[0]) + enc_u32_range_entries(
            t.drop_first(),
        ));
        assert(enc_u32_range_entry(t[0]) + enc_u32_range_entries(t.drop_first())
            =~= enc_u32_range_entries(s) + enc_u32_range_entry(e));
    } else {
        assert(t[0] == s[0]);
        assert(t.drop_first() =~= s.drop_first().push(e));
        lemma_enc_u32_range_entries_push(s.drop_first(), e);
        assert(enc_u32_range_entries(t) == enc_u32_range_entry(s[0]) + (enc_u32_range_entries(
            s.drop_first(),
        ) + enc_u32_range_entry(e)));
        assert(enc_u32_range_entry(s[0]) + (enc_u32_range_entries(s.drop_first())
            + enc_u32_range_entry(e)) =~= enc_u32_range_entries(s) + enc_u32_range_entry(e));
    }
}

pub proof fn lemma_enc_posting_entries_push(s: Seq<(u32, Seq<u32>)>, e: (u32, Seq<u32>))
    ensures
        enc_posting_entries(s.push(e)) == enc_posting_entries(s) + enc_posting_entry(e),
    decreases s.len(),
{
    let t = s.push(e);
    if s.len() == 0 {
        assert(t[0] == e);
        assert(t.drop_first() =~= Seq::<(u32, Seq<u32>)>::empty());
        assert(enc_posting_entries(t) == enc_posting_entry(t[0]) + enc_posting_entries(
            t.drop_first(),
        ));
        assert(enc_posting_entry(t[0]) + enc_posting_entries(t.drop_first())
            =~= enc_posting_entries(s) + enc_posting_entry(e));
    } else {
        assert(t[0] == s[0]);
        assert(t.drop_first() =~= s.drop_first().push(e));
        lemma_enc_posting_entries_push(s.drop_first(), e);
        assert(enc_posting_entries(t) == enc_posting_entry(s[0]) + (enc_posting_entries(
            s.drop_first(),
        ) + enc_posting_entry(e)));
        assert(enc_posting_entry(s[0]) + (enc_posting_entries(s.drop_first())
            + enc_posting_entry(e)) =~= enc_posting_entries(s) + enc_posting_entry(e));
    }
}

pub proof fn lemma_enc_bytes_range_entries_push(s: Seq<(Seq<u8>, (u64, u32))>, e: (Seq<u8>, (u64, u32)))
    ensures
        enc_bytes_range_entries(s.push(e)) == enc_bytes_range_entries(s) + enc_bytes_range_entry(e),
    decreases s.len(),
{
    let t = s.push(e);
    if s.len() == 0 {
        assert(t[0] == e);
        assert(t.drop_first() =~= Seq::<(Seq<u8>, (u64, u32))>::empty());
        assert(enc_bytes_range_entries(t) == enc_bytes_range_entry(t[0])
            + enc_bytes_range_entries(t.drop_first()));
        assert(enc_bytes_range_entry(t[0]) + enc_bytes_range_entries(t.drop_first())
            =~= enc_bytes_range_entries(s) + enc_bytes_range_entry(e));
    } else {
        assert(t[0] == s[0]);
        assert(t.drop_first() =~= s.drop_first().push(e));
        lemma_enc_bytes_range_entries_push(s.drop_first(), e);
        assert(enc_bytes_range_entries(t) == enc_bytes_range_entry(s[0]) + (
        enc_bytes_range_entries(s.drop_first()) + enc_bytes_range_entry(e)));
        assert(enc_bytes_range_entry(s[0]) + (enc_bytes_range_entries(s.drop_first())
            + enc_bytes_range_entry(e)) =~= enc_bytes_range_entries(s) + enc_bytes_range_entry(
            e,
        ));
    }
}

pub open spec fn dec_u32s(b: Seq<u8>, pos: int, n: nat) -> Option<(Seq<u32>, int)>
    decreases n,
{
    if n == 0 {
        Some((Seq::empty(), pos))
    } else {
        match dec_u32(b, pos) {
            None => None,
            Some((x, p)) => match dec_u32s(b, p, (n - 1) as nat) {
                None => None,
                Some((s, p2)) => Some((seq![x] + s, p2)),
            },
        }
    }
}

pub open spec fn dec_u32_range_entries(b: Seq<u8>, pos: int, n: nat) -> Option<
    (Seq<(u32, (u64, u32))>, int),
>
    decreases n,
{
    if n == 0 {
        Some((Seq::empty(), pos))
    } else {
        match dec_u32(b, pos) {
            None => None,
            Some((k, p)) => match dec_range(b, p) {
                None => None,
                Some((r, p2)) => match dec_u32_range_entries(b, p2, (n - 1) as nat) {
                    None => None,
                    Some((s, p3)) => Some((seq![(k, r)] + s, p3)),
                },
            },
        }
    }
}

pub open spec fn dec_posting_entries(b: Seq<u8>, pos: int, n: nat) -> Option<
    (Seq<(u32, Seq<u32>)>, int),
>
    decreases n,
{
    if n == 0 {
        Some((Seq::empty(), pos))
    } else {
        match dec_u32(b, pos) {
            None => None,
            Some((k, p)) => match dec_u64(b, p) {
                None => None,
                Some((cnt, p2)) => match dec_u32s(b, p2, cnt as nat) {
                    None => None,
                    Some((lines, p3)) => match dec_posting_entries(b, p3, (n - 1) as nat) {
                        None => None,
                        Some((s, p4)) => Some((seq![(k, lines)] + s, p4)),
                    },
                },
            },
        }
    }
}

pub open spec fn dec_bytes_range_entries(b: Seq<u8>, pos: int, n: nat) -> Option<
    (Seq<(Seq<u8>, (u64, u32))>, int),
>
    decreases n,
{
    if n == 0 {
        Some((Seq::empty(), pos))
    } else {
        match dec_bytes(b, pos) {
            None => None,
            Some((k, p)) => match dec_range(b, p) {
                None => None,
                Some((r, p2)) => match dec_bytes_range_entries(b, p2, (n - 1) as nat) {
                    None => None,
                    Some((s, p3)) => Some((seq![(k, r)] + s, p3)),
                },
            },
        }
    }
}

/// Splits a subrange hypothesis over a concatenation.
pub proof fn lemma_concat_subranges(b: Seq<u8>, pos: int, x: Seq<u8>, y: Seq<u8>)
    requires
        0 <= pos,
        pos + x.len() + y.len() <= b.len(),
        b.subrange(pos, pos + x.len() + y.len()) == x + y,
    ensures
        b.subrange(pos, pos + x.len()) == x,
        b.subrange(pos + x.len(), pos + x.len() + y.len()) == y,
{
    assert(b.subrange(pos, pos + x.len()) =~= (x + y).subrange(0, x.len() as int));
    assert((x + y).subrange(0, x.len() as int) =~= x);
    assert(b.subrange(pos + x.len(), pos + x.len() + y.len()) =~= (x + y).subrange(
        x.len() as int,
        x.len() + y.len() as int,
    ));
    assert((x + y).subrange(x.len() as int, x.len() + y.len() as int) =~= y);
}

/// Pointwise view of a subrange hypothesis.
pub proof fn lemma_subrange_index(b: Seq<u8>, pos: int, e: Seq<u8>)
    requires
        0 <= pos,
        pos + e.len() <= b.len(),
        b.subrange(pos, pos + e.len()) == e,
    ensures
        forall|k: int| 0 <= k < e.len() ==> b[pos + k] == e[k],
{
    assert forall|k: int| 0 <= k < e.len() implies b[pos + k] == e[k] by {
        assert(b.subrange(pos, pos + e.len())[k] == e[k]);
    }
}

pub proof fn lemma_dec_u32s_at(b: Seq<u8>, pos: int, s: Seq<u32>)
    requires
        0 <= pos,
        pos + enc_u32s(s).len() <= b.len(),
        b.subrange(pos, pos + enc_u32s(s).len()) == enc_u32s(s),
    ensures
        dec_u32s(b, pos, s.len()) == Some((s, pos + enc_u32s(s).len())),
    decreases s.len(),
{
    if s.len() == 0 {
        assert(dec_u32s(b, pos, 0) == Some((Seq::<u32>::empty(), pos)));
        assert(s =~= Seq::<u32>::empty());
    } else {
        let e0 = enc_u32(s[0]);
        let rest = enc_u32s(s.drop_first());
        assert(enc_u32s(s) == e0 + rest);
        lemma_subrange_index(b, pos, enc_u32s(s));
        lemma_enc_u32_len(s[0]);
        let total = enc_u32s(s).len() as int;
        assert(total == 4 + rest.len());
        assert(b.subrange(pos, pos + 4) =~= enc_u32s(s).subrange(0, 4));
        assert(enc_u32s(s).subrange(0, 4) =~= e0);
        lemma_dec_u32_at(b, pos, s[0]);
        assert(b.subrange(pos + 4, pos + 4 + rest.len()) =~= enc_u32s(s).subrange(4, total));
        assert(enc_u32s(s).subrange(4, total) =~= rest);
        lemma_dec_u32s_at(b, pos + 4, s.drop_first());
        assert(seq![s[0]] + s.drop_first() =~= s);
    }
}

pub proof fn lemma_dec_u32_range_entries_at(b: Seq<u8>, pos: int, s: Seq<(u32, (u64, u32))>)
    requires
        0 <= pos,
        pos + enc_u32_range_entries(s).len() <= b.len(),
        b.subrange(pos, pos + enc_u32_range_entries(s).len()) == enc_u32_range_entries(s),
    ensures
        dec_u32_range_entries(b, pos, s.len()) == Some(
            (s, pos + enc_u32_range_entries(s).len()),
        ),
    decreases s.len(),
{
    if s.len() == 0 {
        assert(s =~= Seq::<(u32, (u64, u32))>::empty());
    } else {
        let e0 = enc_u32_range_entry(s[0]);
        let rest = enc_u32_range_entries(s.drop_first());
        assert(enc_u32_range_entries(s) == e0 + rest);
        lemma_enc_u32_len(s[0].0);
        lemma_enc_u64_len(s[0].1.0);
        lemma_enc_u32_len(s[0].1.1);
        assert(e0 == enc_u32(s[0].0) + enc_range(s[0].1));
        assert(e0.len() == 16);
        lemma_concat_subranges(b, pos, e0, rest);
        lemma_concat_subranges(b, pos, enc_u32(s[0].0), enc_range(s[0].1));
        lemma_dec_u32_at(b, pos, s[0].0);
        lemma_dec_range_at(b, pos + 4, s[0].1);
        lemma_dec_u32_range_entries_at(b, pos + 16, s.drop_first());
        assert(seq![s[0]] + s.drop_first() =~= s);
    }
}

pub proof fn lemma_dec_posting_entries_at(b: Seq<u8>, pos: int, s: Seq<(u32, Seq<u32>)>)
    requires
        0 <= pos,
        pos + enc_posting_entries(s).len() <= b.len(),
        b.subrange(pos, pos + enc_posting_entries(s).len()) == enc_posting_entries(s),
        forall|i: int| 0 <= i < s.len() ==> (#[trigger] s[i]).1.len() <= u64::MAX,
    ensures
        dec_posting_entries(b, pos, s.len()) == Some((s, pos + enc_posting_entries(s).len())),
    decreases s.len(),
{
    if s.len() == 0 {
        assert(s =~= Seq::<(u32, Seq<u32>)>::empty());
    } else {
        let e0 = enc_posting_entry(s[0]);
        let rest = enc_posting_entries(s.drop_first());
        assert(enc_posting_entries(s) == e0 + rest);
        let lines = s[0].1;
        assert(s[0].1.len() <= u64::MAX);
        lemma_enc_u32_len(s[0].0);
        lemma_enc_u64_len(lines.len() as u64);
        let a = enc_u32(s[0].0);
        let c = enc_u32s(lines);
        let ab = a + enc_u64(lines.len() as u64);
        assert(e0 == ab + c);
        lemma_concat_subranges(b, pos, e0, rest);
        lemma_concat_subranges(b, pos, ab, c);
        lemma_concat_subranges(b, pos, a, enc_u64(lines.len() as u64));
        lemma_dec_u32_at(b, pos, s[0].0);
        lemma_dec_u64_at(b, pos + 4, lines.len() as u64);
        lemma_dec_u32s_at(b, pos + 12, lines);
        assert((lines.len() as u64) as nat == lines.len());
        assert forall|i: int|
            0 <= i < s.drop_first().len() implies (#[trigger] s.drop_first()[i]).1.len()
            <= u64::MAX by {
            assert(s[i + 1].1.len() <= u64::MAX);
        }
        lemma_dec_posting_entries_at(b, pos + e0.len(), s.drop_first());
        assert(seq![s[0]] + s.drop_first() =~= s);
    }
}

pub proof fn lemma_dec_bytes_range_entries_at(b: Seq<u8>, pos: int, s: Seq<(Seq<u8>, (u64, u32))>)
    requires
        0 <= pos,
        pos + enc_bytes_range_entries(s).len() <= b.len(),
        b.subrange(pos, pos + enc_bytes_range_entries(s).len()) == enc_bytes_range_entries(s),
        forall|i: int| 0 <= i < s.len() ==> (#[trigger] s[i]).0.len() <= u64::MAX,
    ensures
        dec_bytes_range_entries(b, pos, s.len()) == Some(
            (s, pos + enc_bytes_range_entries(s).len()),
        ),
    decreases s.len(),
{
    if s.len() == 0 {
        assert(s =~= Seq::<(Seq<u8>, (u64, u32))>::empty());
    } else {
        let e0 = enc_bytes_range_entry(s[0]);
        let rest = enc_bytes_range_entries(s.drop_first());
        assert(enc_bytes_range_entries(s) == e0 + rest);
        let key = s[0].0;
        assert(s[0].0.len() <= u64::MAX);
        lemma_enc_u64_len(key.len() as u64);
        lemma_enc_u64_len(s[0].1.0);
        lemma_enc_u32_len(s[0].1.1);
        let kl = key.len() as int;
        assert(e0 == enc_bytes(key) + enc_range(s[0].1));
        assert(enc_bytes(key).len() == 8 + kl);
        assert(enc_range(s[0].1).len() == 12);
        lemma_concat_subranges(b, pos, e0, rest);
        lemma_concat_subranges(b, pos, enc_bytes(key), enc_range(s[0].1));
        lemma_dec_bytes_at(b, pos, key);
        lemma_dec_range_at(b, pos + 8 + kl, s[0].1);
        assert forall|i: int|
            0 <= i < s.drop_first().len() implies (#[trigger] s.drop_first()[i]).0.len()
            <= u64::MAX by {
            assert(s[i + 1].0.len() <= u64::MAX);
        }
        lemma_dec_bytes_range_entries_at(b, pos + e0.len(), s.drop_first());
        assert(seq![s[0]] + s.drop_first() =~= s);
    }
}

// ---------------------------------------------------------------------
// Records. A record is one element of the content blob or the index map
// artifact; each is compressed on its own, so each is encoded on its own.
// ---------------------------------------------------------------------

pub open spec fn enc_line_record(s: Seq<char>) -> Seq<u8> {
    enc_str(s)
}

pub open spec fn dec_line_record(b: Seq<u8>) -> Option<Seq<char>> {
    match dec_str(b, 0) {
        None => None,
        Some((s, _)) => Some(s),
    }
}

pub open spec fn enc_file_record(name: Seq<char>, es: Seq<(u32, (u64, u32))>) -> Seq<u8> {
    enc_str(name) + enc_u64(es.len() as u64) + enc_u32_range_entries(es)
}

pub open spec fn dec_file_record(b: Seq<u8>) -> Option<(Seq<char>, Seq<(u32, (u64, u32))>)> {
    match dec_str(b, 0) {
        None => None,
        Some((name, p)) => match dec_u64(b, p) {
            None => None,
            Some((n, p2)) => match dec_u32_range_entries(b, p2, n as nat) {
                None => None,
                Some((es, _)) => if forall|i: int| 0 <= i < es.len() ==> (#[trigger] es[i]).0
                    != 0 {
                    Some((name, es))
                } else {
                    None
                },
            },
        },
    }
}

pub open spec fn enc_ngram_record(p: Seq<(u32, Seq<u32>)>) -> Seq<u8> {
    enc_u64(p.len() as u64) + enc_posting_entries(p)
}

pub open spec fn posting_lines_nonzero(p: Seq<(u32, Seq<u32>)>) -> bool {
    forall|i: int, j: int|
        0 <= i < p.len() && 0 <= j < p[i].1.len() ==> p[i].1[j] != 0
}

pub open spec fn dec_ngram_record(b: Seq<u8>) -> Option<Seq<(u32, Seq<u32>)>> {
    match dec_u64(b, 0) {
        None => None,
        Some((n, p)) => match dec_posting_entries(b, p, n as nat) {
            None => None,
            Some((es, _)) => if posting_lines_nonzero(es) {
                Some(es)
            } else {
                None
            },
        },
    }
}

pub open spec fn enc_index_record(
    n: u8,
    fs: Seq<(u32, (u64, u32))>,
    gs: Seq<(Seq<u8>, (u64, u32))>,
) -> Seq<u8> {
    seq![n] + enc_u64(fs.len() as u64) + enc_u32_range_entries(fs) + enc_u64(gs.len() as u64)
        + enc_bytes_range_entries(gs)
}

pub open spec fn dec_index_record(b: Seq<u8>) -> Option<
    (u8, Seq<(u32, (u64, u32))>, Seq<(Seq<u8>, (u64, u32))>),
> {
    if b.len() < 1 || b[0] == 0 {
        None
    } else {
        let n = b[0];
        match dec_u64(b, 1) {
            None => None,
            Some((fn_, p)) => match dec_u32_range_entries(b, p, fn_ as nat) {
                None => None,
                Some((fs, p2)) => match dec_u64(b, p2) {
                    None => None,
                    Some((gn, p3)) => match dec_bytes_range_entries(b, p3, gn as nat) {
                        None => None,
                        Some((gs, _)) => if forall|i: int|
                            0 <= i < gs.len() ==> (#[trigger] gs[i]).0.len() != 0 {
                            Some((n, fs, gs))
                        } else {
                            None
                        },
                    },
                },
            },
        }
    }
}

/// Decoding an encoded line record yields the line unchanged.
pub proof fn lemma_line_record_round_trip(s: Seq<char>)
    requires
        encode_utf8(s).len() <= u64::MAX,
    ensures
        dec_line_record(enc_line_record(s)) == Some(s),
{
    let b = enc_line_record(s);
    lemma_enc_u64_len(encode_utf8(s).len() as u64);
    assert(b.subrange(0, 8 + encode_utf8(s).len() as int) =~= b);
    lemma_dec_str_at(b, 0, s);
}

/// Decoding an encoded file record yields path and line map unchanged.
pub proof fn lemma_file_record_round_trip(name: Seq<char>, es: Seq<(u32, (u64, u32))>)
    requires
        encode_utf8(name).len() <= u64::MAX,
        es.len() <= u64::MAX,
        forall|i: int| 0 <= i < es.len() ==> (#[trigger] es[i]).0 != 0,
    ensures
        dec_file_record(enc_file_record(name, es)) == Some((name, es)),
{
    let b = enc_file_record(name, es);
    let x1 = enc_str(name);
    let x2 = enc_u64(es.len() as u64);
    let x3 = enc_u32_range_entries(es);
    lemma_enc_u64_len(encode_utf8(name).len() as u64);
    lemma_enc_u64_len(es.len() as u64);
    assert(b == (x1 + x2) + x3);
    assert(b.subrange(0, b.len() as int) =~= b);
    lemma_concat_subranges(b, 0, x1 + x2, x3);
    lemma_concat_subranges(b, 0, x1, x2);
    lemma_dec_str_at(b, 0, name);
    lemma_dec_u64_at(b, x1.len() as int, es.len() as u64);
    lemma_dec_u32_range_entries_at(b, x1.len() + 8 as int, es);
    assert((es.len() as u64) as nat == es.len());
}

/// Decoding an encoded posting yields the posting unchanged.
pub proof fn lemma_ngram_record_round_trip(p: Seq<(u32, Seq<u32>)>)
    requires
        p.len() <= u64::MAX,
        forall|i: int| 0 <= i < p.len() ==> (#[trigger] p[i]).1.len() <= u64::MAX,
        posting_lines_nonzero(p),
    ensures
        dec_ngram_record(enc_ngram_record(p)) == Some(p),
{
    let b = enc_ngram_record(p);
    let x1 = enc_u64(p.len() as u64);
    let x2 = enc_posting_entries(p);
    lemma_enc_u64_len(p.len() as u64);
    assert(b == x1 + x2);
    assert(b.subrange(0, b.len() as int) =~= b);
    lemma_concat_subranges(b, 0, x1, x2);
    lemma_dec_u64_at(b, 0, p.len() as u64);
    lemma_dec_posting_entries_at(b, 8, p);
    assert((p.len() as u64) as nat == p.len());
}

/// Decoding an encoded index map yields its three parts unchanged.
pub proof fn lemma_index_record_round_trip(
    n: u8,
    fs: Seq<(u32, (u64, u32))>,
    gs: Seq<(Seq<u8>, (u64, u32))>,
)
    requires
        n >= 1,
        fs.len() <= u64::MAX,
        gs.len() <= u64::MAX,
        forall|i: int| 0 <= i < gs.len() ==> 0 < (#[trigger] gs[i]).0.len() <= u64::MAX,
    ensures
        dec_index_record(enc_index_record(n, fs, gs)) == Some((n, fs, gs)),
{
    let b = enc_index_record(n, fs, gs);
    let x0: Seq<u8> = seq![n];
    let x1 = enc_u64(fs.len() as u64);
    let x2 = enc_u32_range_entries(fs);
    let x3 = enc_u64(gs.len() as u64);
    let x4 = enc_bytes_range_entries(gs);
    lemma_enc_u64_len(fs.len() as u64);
    lemma_enc_u64_len(gs.len() as u64);
    assert(b == (((x0 + x1) + x2) + x3) + x4);
    assert(b.subrange(0, b.len() as int) =~= b);
    lemma_concat_subranges(b, 0, ((x0 + x1) + x2) + x3, x4);
    lemma_concat_subranges(b, 0, (x0 + x1) + x2, x3);
    lemma_concat_subranges(b, 0, x0 + x1, x2);
    lemma_concat_subranges(b, 0, x0, x1);
    assert(b[0] == n);
    lemma_dec_u64_at(b, 1, fs.len() as u64);
    lemma_dec_u32_range_entries_at(b, 9, fs);
    assert((fs.len() as u64) as nat == fs.len());
    lemma_dec_u64_at(b, 9 + x2.len() as int, gs.len() as u64);
    lemma_dec_bytes_range_entries_at(b, 17 + x2.len() as int, gs);
    assert((gs.len() as u64) as nat == gs.len());
}

// ---------------------------------------------------------------------
// Executable encoders, proved against the spec encoders.
// ---------------------------------------------------------------------

pub fn encode_file_line_data(d: &FileLineData) -> (r: Vec<u8>)
    ensures
        r@ == enc_line_record(d@),
{
    let mut out: Vec<u8> = Vec::new();
    push_str(&mut out, d.get());
    proof {
        assert(out@ =~= enc_line_record(d@));
    }
    out
}

pub fn encode_file_data(d: &FileData) -> (r: Vec<u8>)
    ensures
        r@ == enc_file_record(d.name_spec(), d.entries()),
{
    let ghost es = d.entries();
    let mut out: Vec<u8> = Vec::new();
    push_str(&mut out, d.name());
    let n = d.lines_len();
    push_u64(&mut out, n as u64);
    let ghost head = enc_str(d.name_spec()) + enc_u64(es.len() as u64);
    proof {
        assert(out@ =~= head + enc_u32_range_entries(es.take(0)));
    }
    let mut i: usize = 0;
    while i < n
        invariant
            es == d.entries(),
            n == es.len(),
            head == enc_str(d.name_spec()) + enc_u64(es.len() as u64),
            0 <= i <= n,
            out@ == head + enc_u32_range_entries(es.take(i as int)),
        decreases n - i,
    {
        let e = d.line_at(i);
        push_u32(&mut out, e.0.line_number());
        push_range(&mut out, e.1.0.start, e.1.0.len);
        proof {
            lemma_enc_u32_range_entries_push(es.take(i as int), es[i as int]);
            assert(es.take(i + 1) =~= es.take(i as int).push(es[i as int]));
            assert(out@ =~= head + enc_u32_range_entries(es.take(i + 1)));
        }
        i += 1;
    }
    proof {
        assert(es.take(n as int) =~= es);
        assert(out@ =~= enc_file_record(d.name_spec(), d.entries()));
    }
    out
}

pub fn encode_ngram_data(d: &NgramData) -> (r: Vec<u8>)
    ensures
        r@ == enc_ngram_record(d.posting()),
{
    let ghost p = d.posting();
    let mut out: Vec<u8> = Vec::new();
    let n = d.entry_count();
    push_u64(&mut out, n as u64);
    let ghost head = enc_u64(p.len() as u64);
    proof {
        assert(out@ =~= head + enc_posting_entries(p.take(0)));
    }
    let mut i: usize = 0;
    while i < n
        invariant
            p == d.posting(),
            n == p.len(),
            head == enc_u64(p.len() as u64),
            0 <= i <= n,
            out@ == head + enc_posting_entries(p.take(i as int)),
        decreases n - i,
    {
        let fid = d.entry_fid(i);
        let lines = d.entry_lines(i);
        let ghost entry = p[i as int];
        push_u32(&mut out, fid.id());
        push_u64(&mut out, lines.len() as u64);
        let ghost mid = head + enc_posting_entries(p.take(i as int)) + enc_u32(entry.0)
            + enc_u64(entry.1.len() as u64);
        proof {
            assert(out@ =~= mid + enc_u32s(entry.1.take(0)));
        }
        let mut j: usize = 0;
        while j < lines.len()
            invariant
                p == d.posting(),
                entry == p[i as int],
                0 <= i < p.len(),
                entry == (p[i as int].0, lines@.map_values(|l: LineIndex| l@)),
                entry.1.len() == lines@.len(),
                0 <= j <= lines@.len(),
                out@ == mid + enc_u32s(entry.1.take(j as int)),
            decreases lines@.len() - j,
        {
            push_u32(&mut out, lines[j].line_number());
            proof {
                lemma_enc_u32s_push(entry.1.take(j as int), entry.1[j as int]);
                assert(entry.1.take(j + 1) =~= entry.1.take(j as int).push(entry.1[j as int]));
                assert(out@ =~= mid + enc_u32s(entry.1.take(j + 1)));
            }
            j += 1;
        }
        proof {
            assert(entry.1.take(j as int) =~= entry.1);
            lemma_enc_posting_entries_push(p.take(i as int), entry);
            assert(p.take(i + 1) =~= p.take(i as int).push(entry));
            assert(out@ =~= head + enc_posting_entries(p.take(i + 1)));
        }
        i += 1;
    }
    proof {
        assert(p.take(n as int) =~= p);
        assert(out@ =~= enc_ngram_record(p));
    }
    out
}

pub fn encode_index_data(d: &IndexData) -> (r: Vec<u8>)
    ensures
        r@ == enc_index_record(d.n(), d.files(), d.ngrams()),
{
    let ghost fs = d.files();
    let ghost gs = d.ngrams();
    let mut out: Vec<u8> = Vec::new();
    out.push(d.ngram_len());
    let nf = d.file_count();
    push_u64(&mut out, nf as u64);
    let ghost head = seq![d.n()] + enc_u64(fs.len() as u64);
    proof {
        assert(out@ =~= head + enc_u32_range_entries(fs.take(0)));
    }
    let mut i: usize = 0;
    while i < nf
        invariant
            fs == d.files(),
            nf == fs.len(),
            head == seq![d.n()] + enc_u64(fs.len() as u64),
            0 <= i <= nf,
            out@ == head + enc_u32_range_entries(fs.take(i as int)),
        decreases nf - i,
    {
        let e = d.file_at(i);
        push_u32(&mut out, e.0.id());
        push_range(&mut out, e.1.0.start, e.1.0.len);
        proof {
            lemma_enc_u32_range_entries_push(fs.take(i as int), fs[i as int]);
            assert(fs.take(i + 1) =~= fs.take(i as int).push(fs[i as int]));
            assert(out@ =~= head + enc_u32_range_entries(fs.take(i + 1)));
        }
        i += 1;
    }
    proof {
        assert(fs.take(nf as int) =~= fs);
    }
    let ng = d.ngram_count();
    push_u64(&mut out, ng as u64);
    let ghost head2 = head + enc_u32_range_entries(fs) + enc_u64(gs.len() as u64);
    proof {
        assert(out@ =~= head2 + enc_bytes_range_entries(gs.take(0)));
    }
    let mut k: usize = 0;
    while k < ng
        invariant
            fs == d.files(),
            gs == d.ngrams(),
            ng == gs.len(),
            head2 == seq![d.n()] + enc_u64(fs.len() as u64) + enc_u32_range_entries(fs)
                + enc_u64(gs.len() as u64),
            0 <= k <= ng,
            out@ == head2 + enc_bytes_range_entries(gs.take(k as int)),
        decreases ng - k,
    {
        let key = d.ngram_key_at(k);
        let rg = d.ngram_range_at(k);
        push_bytes(&mut out, key.bytes().as_slice());
        push_range(&mut out, rg.0.start, rg.0.len);
        proof {
            lemma_enc_bytes_range_entries_push(gs.take(k as int), gs[k as int]);
            assert(gs.take(k + 1) =~= gs.take(k as int).push(gs[k as int]));
            assert(out@ =~= head2 + enc_bytes_range_entries(gs.take(k + 1)));
        }
        k += 1;
    }
    proof {
        assert(gs.take(ng as int) =~= gs);
        assert(out@ =~= enc_index_record(d.n(), fs, gs));
    }
    out
}

// ---------------------------------------------------------------------
// Executable decoders, proved against the spec decoders.
// ---------------------------------------------------------------------

/// Prefixes an already-decoded head onto a decoder's continuation.
pub open spec fn compose_dec<T>(prefix: Seq<T>, rest: Option<(Seq<T>, int)>) -> Option<
    (Seq<T>, int),
> {
    match rest {
        None => None,
        Some((s, p)) => Some((prefix + s, p)),
    }
}

fn read_u32_range_entries(b: &[u8], pos: usize, n: u64) -> (r: Option<
    (Vec<(u32, (u64, u32))>, usize),
>)
    ensures
        match r {
            Some((v, p)) => dec_u32_range_entries(b@, pos as int, n as nat) == Some(
                (v@, p as int),
            ),
            None => dec_u32_range_entries(b@, pos as int, n as nat) is None,
        },
{
    let mut acc: Vec<(u32, (u64, u32))> = Vec::new();
    let mut cur = pos;
    let mut k: u64 = 0;
    proof {
        let d0 = dec_u32_range_entries(b@, pos as int, n as nat);
        if d0 is Some {
            assert(acc@ + d0->Some_0.0 =~= d0->Some_0.0);
        }
    }
    while k < n
        invariant
            0 <= k <= n,
            compose_dec(acc@, dec_u32_range_entries(b@, cur as int, (n - k) as nat))
                == dec_u32_range_entries(b@, pos as int, n as nat),
        decreases n - k,
    {
        let ghost m = (n - k - 1) as nat;
        match read_u32(b, cur) {
            None => {
                return None;
            },
            Some((key, p)) => {
                match read_range(b, p) {
                    None => {
                        return None;
                    },
                    Some((rg, p2)) => {
                        proof {
                            let d = dec_u32_range_entries(b@, p2 as int, m);
                            if d is Some {
                                assert(acc@ + (seq![(key, rg)] + d->Some_0.0) =~= acc@.push(
                                    (key, rg),
                                ) + d->Some_0.0);
                            }
                        }
                        acc.push((key, rg));
                        cur = p2;
                    },
                }
            },
        }
        k += 1;
    }
    proof {
        assert(dec_u32_range_entries(b@, cur as int, 0) == Some(
            (Seq::<(u32, (u64, u32))>::empty(), cur as int),
        ));
        assert(acc@ + Seq::<(u32, (u64, u32))>::empty() =~= acc@);
    }
    Some((acc, cur))
}

fn read_u32s(b: &[u8], pos: usize, n: u64) -> (r: Option<(Vec<u32>, usize)>)
    ensures
        match r {
            Some((v, p)) => dec_u32s(b@, pos as int, n as nat) == Some((v@, p as int)),
            None => dec_u32s(b@, pos as int, n as nat) is None,
        },
{
    let mut acc: Vec<u32> = Vec::new();
    let mut cur = pos;
    let mut k: u64 = 0;
    proof {
        let d0 = dec_u32s(b@, pos as int, n as nat);
        if d0 is Some {
            assert(acc@ + d0->Some_0.0 =~= d0->Some_0.0);
        }
    }
    while k < n
        invariant
            0 <= k <= n,
            compose_dec(acc@, dec_u32s(b@, cur as int, (n - k) as nat)) == dec_u32s(
                b@,
                pos as int,
                n as nat,
            ),
        decreases n - k,
    {
        let ghost m = (n - k - 1) as nat;
        match read_u32(b, cur) {
            None => {
                return None;
            },
            Some((x, p)) => {
                proof {
                    let d = dec_u32s(b@, p as int, m);
                    if d is Some {
                        assert(acc@ + (seq![x] + d->Some_0.0) =~= acc@.push(x) + d->Some_0.0);
                    }
                }
                acc.push(x);
                cur = p;
            },
        }
        k += 1;
    }
    proof {
        assert(acc@ + Seq::<u32>::empty() =~= acc@);
    }
    Some((acc, cur))
}

/// The posting view of raw decoded entries.
pub open spec fn raw_pairs_view(v: Seq<(u32, Vec<u32>)>) -> Seq<(u32, Seq<u32>)> {
    v.map_values(|e: (u32, Vec<u32>)| (e.0, e.1@))
}

fn read_posting_entries(b: &[u8], pos: usize, n: u64) -> (r: Option<(Vec<(u32, Vec<u32>)>, usize)>)
    ensures
        match r {
            Some((v, p)) => dec_posting_entries(b@, pos as int, n as nat) == Some(
                (raw_pairs_view(v@), p as int),
            ),
            None => dec_posting_entries(b@, pos as int, n as nat) is None,
        },
{
    let mut acc: Vec<(u32, Vec<u32>)> = Vec::new();
    let mut cur = pos;
    let mut k: u64 = 0;
    proof {
        let d0 = dec_posting_entries(b@, pos as int, n as nat);
        if d0 is Some {
            assert(raw_pairs_view(acc@) + d0->Some_0.0 =~= d0->Some_0.0);
        }
    }
    while k < n
        invariant
            0 <= k <= n,
            compose_dec(raw_pairs_view(acc@), dec_posting_entries(b@, cur as int, (n - k) as nat))
                == dec_posting_entries(b@, pos as int, n as nat),
        decreases n - k,
    {
        let ghost m = (n - k - 1) as nat;
        match read_u32(b, cur) {
            None => {
                return None;
            },
            Some((fid, p)) => {
                match read_u64(b, p) {
                    None => {
                        return None;
                    },
                    Some((cnt, p2)) => {
                        match read_u32s(b, p2, cnt) {
                            None => {
                                return None;
                            },
                            Some((lines, p3)) => {
                                proof {
                                    let d = dec_posting_entries(b@, p3 as int, m);
                                    assert(raw_pairs_view(acc@.push((fid, lines)))
                                        =~= raw_pairs_view(acc@).push((fid, lines@)));
                                    if d is Some {
                                        assert(raw_pairs_view(acc@) + (seq![(fid, lines@)]
                                            + d->Some_0.0) =~= raw_pairs_view(
                                            acc@.push((fid, lines)),
                                        ) + d->Some_0.0);
                                    }
                                }
                                acc.push((fid, lines));
                                cur = p3;
                            },
                        }
                    },
                }
            },
        }
        k += 1;
    }
    proof {
        assert(raw_pairs_view(acc@) + Seq::<(u32, Seq<u32>)>::empty() =~= raw_pairs_view(acc@));
    }
    Some((acc, cur))
}

/// The map view of raw decoded byte-keyed entries.
pub open spec fn raw_keys_view(v: Seq<(Vec<u8>, (u64, u32))>) -> Seq<(Seq<u8>, (u64, u32))> {
    v.map_values(|e: (Vec<u8>, (u64, u32))| (e.0@, e.1))
}

fn read_bytes_range_entries(b: &[u8], pos: usize, n: u64) -> (r: Option<
    (Vec<(Vec<u8>, (u64, u32))>, usize),
>)
    ensures
        match r {
            Some((v, p)) => dec_bytes_range_entries(b@, pos as int, n as nat) == Some(
                (raw_keys_view(v@), p as int),
            ),
            None => dec_bytes_range_entries(b@, pos as int, n as nat) is None,
        },
{
    let mut acc: Vec<(Vec<u8>, (u64, u32))> = Vec::new();
    let mut cur = pos;
    let mut k: u64 = 0;
    proof {
        let d0 = dec_bytes_range_entries(b@, pos as int, n as nat);
        if d0 is Some {
            assert(raw_keys_view(acc@) + d0->Some_0.0 =~= d0->Some_0.0);
        }
    }
    while k < n
        invariant
            0 <= k <= n,
            compose_dec(raw_keys_view(acc@), dec_bytes_range_entries(b@, cur as int, (n - k) as nat))
                == dec_bytes_range_entries(b@, pos as int, n as nat),
        decreases n - k,
    {
        let ghost m = (n - k - 1) as nat;
        match read_bytes(b, cur) {
            None => {
                return None;
            },
            Some((key, p)) => {
                match read_range(b, p) {
                    None => {
                        return None;
                    },
                    Some((rg, p2)) => {
                        proof {
                            let d = dec_bytes_range_entries(b@, p2 as int, m);
                            assert(raw_keys_view(acc@.push((key, rg))) =~= raw_keys_view(
                                acc@,
                            ).push((key@, rg)));
                            if d is Some {
                                assert(raw_keys_view(acc@) + (seq![(key@, rg)] + d->Some_0.0)
                                    =~= raw_keys_view(acc@.push((key, rg))) + d->Some_0.0);
                            }
                        }
                        acc.push((key, rg));
                        cur = p2;
                    },
                }
            },
        }
        k += 1;
    }
    proof {
        assert(raw_keys_view(acc@) + Seq::<(Seq<u8>, (u64, u32))>::empty() =~= raw_keys_view(
            acc@,
        ));
    }
    Some((acc, cur))
}

pub fn decode_file_line_data(b: &[u8]) -> (r: Option<FileLineData>)
    ensures
        match r {
            Some(d) => dec_line_record(b@) == Some(d@),
            None => dec_line_record(b@) is None,
        },
{
    match read_str(b, 0) {
        None => None,
        Some((s, _)) => Some(FileLineData::new(s)),
    }
}

pub fn decode_file_data(b: &[u8]) -> (r: Option<FileData>)
    ensures
        match r {
            Some(d) => dec_file_record(b@) == Some((d.name_spec(), d.entries())),
            None => dec_file_record(b@) is None,
        },
{
    let (name, p) = match read_str(b, 0) {
        None => {
            return None;
        },
        Some(x) => x,
    };
    let (n, p2) = match read_u64(b, p) {
        None => {
            return None;
        },
        Some(x) => x,
    };
    let (raw, _) = match read_u32_range_entries(b, p2, n) {
        None => {
            return None;
        },
        Some(x) => x,
    };
    let ghost es = raw@;
    let ghost outcome = dec_file_record(b@);
    proof {
        assert(outcome == if (forall|j: int| 0 <= j < es.len() ==> (#[trigger] es[j]).0 != 0) {
            Some((name@, es))
        } else {
            None
        });
    }
    let mut entries: Vec<(LineIndex, FileLineRange)> = Vec::new();
    let mut i: usize = 0;
    while i < raw.len()
        invariant
            es == raw@,
            outcome == dec_file_record(b@),
            outcome == if (forall|j: int| 0 <= j < es.len() ==> (#[trigger] es[j]).0 != 0) {
                Some((name@, es))
            } else {
                None
            },
            0 <= i <= es.len(),
            forall|j: int| 0 <= j < i ==> (#[trigger] es[j]).0 != 0,
            entries@.map_values(|e: (LineIndex, FileLineRange)| (e.0@, e.1@)) == es.take(
                i as int,
            ),
        decreases es.len() - i,
    {
        let (key, rg) = raw[i];
        match LineIndex::try_new(key) {
            None => {
                proof {
                    assert(es[i as int].0 == 0);
                    assert(dec_file_record(b@) is None);
                }
                return None;
            },
            Some(li) => {
                let ghost before = entries@;
                entries.push((li, FileLineRange(Range { start: rg.0, len: rg.1 })));
                proof {
                    assert(entries@.map_values(|e: (LineIndex, FileLineRange)| (e.0@, e.1@))
                        =~= before.map_values(|e: (LineIndex, FileLineRange)| (e.0@, e.1@)).push(
                        (key, rg),
                    ));
                    assert(es.take(i + 1) =~= es.take(i as int).push(es[i as int]));
                }
            },
        }
        i += 1;
    }
    proof {
        assert(es.take(i as int) =~= es);
        assert(outcome == Some((name@, es)));
    }
    Some(FileData::from_parts(name, entries))
}

pub fn decode_ngram_data(b: &[u8]) -> (r: Option<NgramData>)
    ensures
        match r {
            Some(d) => dec_ngram_record(b@) == Some(d.posting()),
            None => dec_ngram_record(b@) is None,
        },
{
    let (n, p) = match read_u64(b, 0) {
        None => {
            return None;
        },
        Some(x) => x,
    };
    let (raw, _) = match read_posting_entries(b, p, n) {
        None => {
            return None;
        },
        Some(x) => x,
    };
    let ghost es = raw_pairs_view(raw@);
    let ghost outcome = dec_ngram_record(b@);
    proof {
        assert(outcome == if posting_lines_nonzero(es) {
            Some(es)
        } else {
            None
        });
    }
    let mut entries: Vec<(FileIndex, Vec<LineIndex>)> = Vec::new();
    let mut i: usize = 0;
    while i < raw.len()
        invariant
            es == raw_pairs_view(raw@),
            es.len() == raw@.len(),
            outcome == dec_ngram_record(b@),
            outcome == if posting_lines_nonzero(es) {
                Some(es)
            } else {
                None
            },
            0 <= i <= es.len(),
            forall|j: int, l: int|
                0 <= j < i && 0 <= l < es[j].1.len() ==> es[j].1[l] != 0,
            crate::data::raw_posting(entries@) == es.take(i as int),
        decreases es.len() - i,
    {
        let fid = raw[i].0;
        let lines = &raw[i].1;
        let ghost entry = es[i as int];
        proof {
            assert(entry == (fid, lines@));
        }
        let mut converted: Vec<LineIndex> = Vec::new();
        let mut j: usize = 0;
        while j < lines.len()
            invariant
                es == raw_pairs_view(raw@),
                outcome == dec_ngram_record(b@),
                outcome == if posting_lines_nonzero(es) {
                    Some(es)
                } else {
                    None
                },
                0 <= i < es.len(),
                entry == es[i as int],
                entry == (fid, lines@),
                0 <= j <= lines@.len(),
                forall|l: int| 0 <= l < j ==> (#[trigger] lines@[l]) != 0,
                converted@.map_values(|l: LineIndex| l@) == lines@.take(j as int),
            decreases lines@.len() - j,
        {
            match LineIndex::try_new(lines[j]) {
                None => {
                    proof {
                        assert(es[i as int].1[j as int] == 0);
                        assert(!posting_lines_nonzero(es));
                        assert(dec_ngram_record(b@) is None);
                    }
                    return None;
                },
                Some(li) => {
                    let ghost before = converted@;
                    converted.push(li);
                    proof {
                        assert(converted@.map_values(|l: LineIndex| l@) =~= before.map_values(
                            |l: LineIndex| l@,
                        ).push(lines@[j as int]));
                        assert(lines@.take(j + 1) =~= lines@.take(j as int).push(
                            lines@[j as int],
                        ));
                    }
                },
            }
            j += 1;
        }
        proof {
            assert(lines@.take(j as int) =~= lines@);
        }
        let ghost before = entries@;
        entries.push((FileIndex::new(fid), converted));
        proof {
            assert(crate::data::raw_posting(entries@) =~= crate::data::raw_posting(before).push(
                (fid, lines@),
            ));
            assert(es.take(i + 1) =~= es.take(i as int).push(es[i as int]));
        }
        i += 1;
    }
    proof {
        assert(es.take(i as int) =~= es);
        assert(posting_lines_nonzero(es));
        assert(outcome == Some(es));
    }
    Some(NgramData::from_parts(entries))
}

pub fn decode_index_data(b: &[u8]) -> (r: Option<IndexData>)
    ensures
        match r {
            Some(d) => dec_index_record(b@) == Some((d.n(), d.files(), d.ngrams())),
            None => dec_index_record(b@) is None,
        },
{
    if b.len() < 1 {
        return None;
    }
    let n = b[0];
    if n == 0 {
        return None;
    }
    let (fn_, p) = match read_u64(b, 1) {
        None => {
            return None;
        },
        Some(x) => x,
    };
    let (fraw, p2) = match read_u32_range_entries(b, p, fn_) {
        None => {
            return None;
        },
        Some(x) => x,
    };
    let (gn, p3) = match read_u64(b, p2) {
        None => {
            return None;
        },
        Some(x) => x,
    };
    let (graw, _) = match read_bytes_range_entries(b, p3, gn) {
        None => {
            return None;
        },
        Some(x) => x,
    };
    let ghost fs = fraw@;
    let ghost gs = raw_keys_view(graw@);
    let ghost outcome = dec_index_record(b@);
    proof {
        assert(outcome == if (forall|j: int| 0 <= j < gs.len() ==> (#[trigger] gs[j]).0.len()
            != 0) {
            Some((n, fs, gs))
        } else {
            None
        });
    }
    let mut files: Vec<(FileIndex, FileRange)> = Vec::new();
    let mut i: usize = 0;
    while i < fraw.len()
        invariant
            fs == fraw@,
            gs == raw_keys_view(graw@),
            outcome == dec_index_record(b@),
            outcome == if (forall|j: int| 0 <= j < gs.len() ==> (#[trigger] gs[j]).0.len()
                != 0) {
                Some((n, fs, gs))
            } else {
                None
            },
            0 <= i <= fs.len(),
            files@.map_values(|e: (FileIndex, FileRange)| (e.0@, e.1@)) == fs.take(i as int),
        decreases fs.len() - i,
    {
        let (key, rg) = fraw[i];
        let ghost before = files@;
        files.push((FileIndex::new(key), FileRange(Range { start: rg.0, len: rg.1 })));
        proof {
            assert(files@.map_values(|e: (FileIndex, FileRange)| (e.0@, e.1@)) =~= before.map_values(
                |e: (FileIndex, FileRange)| (e.0@, e.1@),
            ).push((key, rg)));
            assert(fs.take(i + 1) =~= fs.take(i as int).push(fs[i as int]));
        }
        i += 1;
    }
    proof {
        assert(fs.take(i as int) =~= fs);
    }
    let mut grams: Vec<(NgramIndex, NgramRange)> = Vec::new();
    let mut k: usize = 0;
    while k < graw.len()
        invariant
            fs == fraw@,
            gs == raw_keys_view(graw@),
            gs.len() == graw@.len(),
            outcome == dec_index_record(b@),
            outcome == if (forall|j: int| 0 <= j < gs.len() ==> (#[trigger] gs[j]).0.len()
                != 0) {
                Some((n, fs, gs))
            } else {
                None
            },
            files@.map_values(|e: (FileIndex, FileRange)| (e.0@, e.1@)) == fs,
            0 <= k <= gs.len(),
            forall|j: int| 0 <= j < k ==> (#[trigger] gs[j]).0.len() != 0,
            grams@.map_values(|e: (NgramIndex, NgramRange)| (e.0@, e.1@)) == gs.take(k as int),
        decreases gs.len() - k,
    {
        let key = &graw[k].0;
        let rg = graw[k].1;
        if key.len() == 0 {
            proof {
                assert(gs[k as int].0.len() == 0);
                assert(dec_index_record(b@) is None);
            }
            return None;
        }
        let gi = NgramIndex::new(key.as_slice());
        let ghost before = grams@;
        grams.push((gi, NgramRange(Range { start: rg.0, len: rg.1 })));
        proof {
            assert(grams@.map_values(|e: (NgramIndex, NgramRange)| (e.0@, e.1@))
                =~= before.map_values(|e: (NgramIndex, NgramRange)| (e.0@, e.1@)).push(
                (gs[k as int].0, rg),
            ));
            assert(gs.take(k + 1) =~= gs.take(k as int).push(gs[k as int]));
        }
        k += 1;
    }
    proof {
        assert(gs.take(k as int) =~= gs);
        assert(outcome == Some((n, fs, gs)));
    }
    Some(IndexData::from_parts(n, files, grams))
}


pub proof fn lemma_enc_u32s_len(s: Seq<u32>)
    ensures
        enc_u32s(s).len() == 4 * s.len(),
    decreases s.len(),
{
    if s.len() > 0 {
        lemma_enc_u32_len(s[0]);
        lemma_enc_u32s_len(s.drop_first());
    }
}

proof fn lemma_enc_posting_entry_bound(p: Seq<(u32, Seq<u32>)>, i: int)
    requires
        0 <= i < p.len(),
    ensures
        enc_posting_entries(p).len() >= p[i].1.len(),
    decreases p.len(),
{
    lemma_enc_u32_len(p[0].0);
    lemma_enc_u64_len(p[0].1.len() as u64);
    lemma_enc_u32s_len(p[0].1);
    if i == 0 {
    } else {
        assert(p.drop_first()[i - 1] == p[i]);
        lemma_enc_posting_entry_bound(p.drop_first(), i - 1);
    }
}

// ---------------------------------------------------------------------
// Compressed record form: encode then deflate; inflate then decode.
// ---------------------------------------------------------------------

/// What a compressed buffer holds as a line record, if anything.
pub open spec fn line_record_of(data: Seq<u8>) -> Option<Seq<char>> {
    match inflate_of(data) {
        None => None,
        Some(ib) => dec_line_record(ib),
    }
}

/// What a compressed buffer holds as a file record, if anything.
pub open spec fn file_record_of(data: Seq<u8>) -> Option<(Seq<char>, Seq<(u32, (u64, u32))>)> {
    match inflate_of(data) {
        None => None,
        Some(ib) => dec_file_record(ib),
    }
}

/// What a compressed buffer holds as a posting, if anything.
pub open spec fn ngram_record_of(data: Seq<u8>) -> Option<Seq<(u32, Seq<u32>)>> {
    match inflate_of(data) {
        None => None,
        Some(ib) => dec_ngram_record(ib),
    }
}

/// What a compressed buffer holds as an index map, if anything.
pub open spec fn index_record_of(data: Seq<u8>) -> Option<
    (u8, Seq<(u32, (u64, u32))>, Seq<(Seq<u8>, (u64, u32))>),
> {
    match inflate_of(data) {
        None => None,
        Some(ib) => dec_index_record(ib),
    }
}

impl FileLineData {
    /// The compressed encoding of this record. Encoding and compression
    /// cannot fail.
    pub fn to_data(&self) -> (r: Result<Vec<u8>, IgrepError>)
        ensures
            r is Ok,
            r matches Ok(v) ==> line_record_of(v@) == Some(self@) && v@ == deflate_of(
                enc_line_record(self@),
            ),
    {
        let e = encode_file_line_data(self);
        let elen = e.len();
        let r = deflate_bytes(e.as_slice());
        proof {
            if r is Ok {
                lemma_enc_u64_len(encode_utf8(self@).len() as u64);
                assert(encode_utf8(self@).len() <= elen);
                lemma_line_record_round_trip(self@);
            }
        }
        r
    }

    /// Decodes a compressed line record.
    pub fn from_data(data: Vec<u8>) -> (r: Result<Self, IgrepError>)
        ensures
            r matches Ok(d) ==> line_record_of(data@) == Some(d@),
            r is Err ==> line_record_of(data@) is None,
    {
        match inflate_bytes(data.as_slice()) {
            Err(e) => Err(e),
            Ok(ib) => match decode_file_line_data(ib.as_slice()) {
                None => Err(IgrepError::CorruptIndex),
                Some(d) => Ok(d),
            },
        }
    }
}

impl FileData {
    /// The compressed encoding of this record. Encoding and compression
    /// cannot fail.
    pub fn to_data(&self) -> (r: Result<Vec<u8>, IgrepError>)
        ensures
            r is Ok,
            r matches Ok(v) ==> v@ == deflate_of(
                enc_file_record(self.name_spec(), self.entries()),
            ),
            self.wf() ==> (r matches Ok(v) ==> file_record_of(v@) == Some(
                (self.name_spec(), self.entries()),
            )),
    {
        let ghost es = self.entries();
        let nlines = self.lines_len();
        let e = encode_file_data(self);
        let elen = e.len();
        let r = deflate_bytes(e.as_slice());
        proof {
            if r is Ok {
                if self.wf() {
                    lemma_enc_u64_len(encode_utf8(self.name_spec()).len() as u64);
                    lemma_enc_u64_len(es.len() as u64);
                    assert(encode_utf8(self.name_spec()).len() <= elen);
                    lemma_file_record_round_trip(self.name_spec(), es);
                }
            }
        }
        r
    }

    /// Decodes a compressed file record.
    pub fn from_data(data: Vec<u8>) -> (r: Result<Self, IgrepError>)
        ensures
            r matches Ok(d) ==> file_record_of(data@) == Some((d.name_spec(), d.entries())),
            r is Err ==> file_record_of(data@) is None,
    {
        match inflate_bytes(data.as_slice()) {
            Err(e) => Err(e),
            Ok(ib) => match decode_file_data(ib.as_slice()) {
                None => Err(IgrepError::CorruptIndex),
                Some(d) => Ok(d),
            },
        }
    }
}

impl NgramData {
    /// The compressed encoding of this record. Encoding and compression
    /// cannot fail.
    pub fn to_data(&self) -> (r: Result<Vec<u8>, IgrepError>)
        ensures
            r is Ok,
            r matches Ok(v) ==> v@ == deflate_of(enc_ngram_record(self.posting())),
            posting_lines_nonzero(self.posting()) ==> (r matches Ok(v) ==> ngram_record_of(v@)
                == Some(self.posting())),
    {
        let ghost p = self.posting();
        let n = self.entry_count();
        let e = encode_ngram_data(self);
        let elen = e.len();
        let r = deflate_bytes(e.as_slice());
        proof {
            if r is Ok {
                if posting_lines_nonzero(p) {
                    lemma_enc_u64_len(p.len() as u64);
                    assert forall|i: int|
                        0 <= i < p.len() implies (#[trigger] p[i]).1.len() <= u64::MAX by {
                        lemma_enc_posting_entry_bound(p, i);
                        assert(enc_posting_entries(p).len() <= elen);
                    }
                    lemma_ngram_record_round_trip(p);
                }
            }
        }
        r
    }

    /// Decodes a compressed posting.
    pub fn from_data(data: Vec<u8>) -> (r: Result<Self, IgrepError>)
        ensures
            r matches Ok(d) ==> ngram_record_of(data@) == Some(d.posting()),
            r is Err ==> ngram_record_of(data@) is None,
    {
        match inflate_bytes(data.as_slice()) {
            Err(e) => Err(e),
            Ok(ib) => match decode_ngram_data(ib.as_slice()) {
                None => Err(IgrepError::CorruptIndex),
                Some(d) => Ok(d),
            },
        }
    }
}

impl IndexData {
    /// The compressed encoding of this record. Encoding and compression
    /// cannot fail.
    pub fn to_data(&self) -> (r: Result<Vec<u8>, IgrepError>)
        ensures
            r is Ok,
            r matches Ok(v) ==> v@ == deflate_of(
                enc_index_record(self.n(), self.files(), self.ngrams()),
            ),
            self.wf() ==> (r matches Ok(v) ==> index_record_of(v@) == Some(
                (self.n(), self.files(), self.ngrams()),
            )),
    {
        let ghost fs = self.files();
        let ghost gs = self.ngrams();
        let nf = self.file_count();
        let ng = self.ngram_count();
        let e = encode_index_data(self);
        let r = deflate_bytes(e.as_slice());
        proof {
            if r is Ok {
                if self.wf() {
                    assert forall|i: int|
                        0 <= i < gs.len() implies 0 < (#[trigger] gs[i]).0.len() <= u64::MAX by {
                        assert(gs[i].0.len() == self.n());
                    }
                    lemma_index_record_round_trip(self.n(), fs, gs);
                }
            }
        }
        r
    }

    /// Decodes a compressed index map.
    pub fn from_data(data: Vec<u8>) -> (r: Result<Self, IgrepError>)
        ensures
            r matches Ok(d) ==> index_record_of(data@) == Some((d.n(), d.files(), d.ngrams())),
            r is Err ==> index_record_of(data@) is None,
    {
        match inflate_bytes(data.as_slice()) {
            Err(e) => Err(e),
            Ok(ib) => match decode_index_data(ib.as_slice()) {
                None => Err(IgrepError::CorruptIndex),
                Some(d) => Ok(d),
            },
        }
    }
}

} // verus!
