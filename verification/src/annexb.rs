//! Length-prefixed to Annex-B (start-code prefixed) NAL conversion.
//!
//! Some encoders emit access units in which each NAL unit is preceded by a big-endian length
//! field, and keep the parameter sets out of band. The wire wants the opposite: Annex-B, with
//! the parameter sets in every IDR.

use vstd::prelude::*;
use crate::be::{be, be_round_trip, be_value, lemma_be_len, pow256};
use crate::encode::EncodeError;

verus! {

broadcast use vstd::std_specs::vec::group_vec_axioms;

/// The 4-byte Annex-B start code prefixed to every emitted NAL.
pub const START_CODE: [u8; 4] = [0, 0, 0, 1];

/// HEVC NAL type of an IDR slice that may have decodable leading pictures.
pub const NAL_IDR_W_RADL: u8 = 19;

/// HEVC NAL type of an IDR slice without leading pictures.
pub const NAL_IDR_N_LP: u8 = 20;

/// The start code.
pub open spec fn start_code() -> Seq<u8> {
    seq![0u8, 0, 0, 1]
}

/// The HEVC NAL type in the first byte of a NAL header: forbidden_zero(1), type(6), and the
/// top bit of the layer.
pub open spec fn nal_type(first: u8) -> u8 {
    first / 2 % 64
}

/// The NAL is an IDR slice.
pub open spec fn is_idr(nal: Seq<u8>) -> bool {
    nal_type(nal[0]) == NAL_IDR_W_RADL || nal_type(nal[0]) == NAL_IDR_N_LP
}

/// What a big-endian length prefix says: as many low bits as an index has.
pub open spec fn prefix_value(prefix: Seq<u8>) -> nat {
    be_value(prefix) % (usize::MAX + 1) as nat
}

/// The Annex-B form of the NALs up to the first fault, and the outcome: whether one of them
/// was an IDR slice, or the fault.
pub open spec fn walked(src: Seq<u8>, size: nat) -> (
    Seq<u8>,
    core::result::Result<bool, Seq<char>>,
)
    decreases src.len(),
{
    let length = prefix_value(src.take(size as int)) as int;
    let rest = src.skip(size as int);
    if src.len() == 0 {
        (Seq::empty(), Ok(false))
    } else if src.len() < size {
        (Seq::empty(), Err("truncated NAL length prefix"@))
    } else if length > rest.len() {
        (Seq::empty(), Err("NAL length exceeds the access unit"@))
    } else if length <= 0 {
        (Seq::empty(), Err("zero-length NAL"@))
    } else {
        let (out, verdict) = walked(rest.skip(length), size);
        (
            start_code() + rest.take(length) + out,
            match verdict {
                Ok(keyframe) => Ok(keyframe || is_idr(rest)),
                Err(e) => Err(e),
            },
        )
    }
}

/// The result `r` reports the outcome `o`.
pub open spec fn reports(
    r: core::result::Result<bool, EncodeError>,
    o: core::result::Result<bool, Seq<char>>,
) -> bool {
    match o {
        Ok(keyframe) => r == Ok::<bool, EncodeError>(keyframe),
        Err(text) => r is Err && r->Err_0 is Bitstream && r->Err_0->Bitstream_0@ == text,
    }
}

/// Read a length prefix of `n` bytes at `at`.
fn read_prefix(src: &[u8], at: usize, n: usize) -> (r: usize)
    requires
        at + n <= src@.len(),
    ensures
        r == prefix_value(src@.subrange(at as int, at + n)),
{
    let total: usize = src.len();
    let mut length: usize = 0;
    let mut i: usize = 0;
    let ghost m = usize::MAX + 1;
    assert(src@.subrange(at as int, at as int) =~= Seq::empty());
    while i < n
        invariant
            i <= n,
            total == src@.len(),
            at + n <= total,
            m == usize::MAX + 1,
            length == be_value(src@.subrange(at as int, at + i)) as int % m,
        decreases n - i,
    {
        let ghost s = src@.subrange(at as int, at + i + 1);
        let byte: u8 = src[at + i];
        let keep: usize = length % (usize::MAX / 256 + 1);
        proof {
            assert(s.drop_last() =~= src@.subrange(at as int, at + i));
            assert(s.last() == byte);
            let v = be_value(s.drop_last()) as int;
            lemma_shift(v, length as int, keep as int, byte as int, m);
        }
        length = keep * 256 + byte as usize;
        i += 1;
    }
    length
}

/// Dropping the top byte before shifting in a new low byte is working modulo the word size.
proof fn lemma_shift(v: int, length: int, keep: int, byte: int, m: int)
    requires
        0 <= v,
        m == usize::MAX + 1,
        length == v % m,
        keep == length % (m / 256),
        0 <= byte < 256,
    ensures
        0 <= keep * 256 + byte < m,
        keep * 256 + byte == (v * 256 + byte) % m,
{
    let q = m / 256;
    assert(m == q * 256) by {
        assert(usize::MAX == 0xffff_ffff || usize::MAX == 0xffff_ffff_ffff_ffff);
    }
    let a = v / m;
    let b = length / q;
    assert(v == m * a + length) by {
        vstd::arithmetic::div_mod::lemma_fundamental_div_mod(v, m);
    }
    assert(length == q * b + keep) by {
        vstd::arithmetic::div_mod::lemma_fundamental_div_mod(length, q);
    }
    let k = 256 * a + b;
    assert(v * 256 + byte == k * m + (keep * 256 + byte)) by (nonlinear_arith)
        requires
            v == m * a + length,
            length == q * b + keep,
            m == q * 256,
            k == 256 * a + b,
    ;
    vstd::arithmetic::div_mod::lemma_fundamental_div_mod_converse(
        v * 256 + byte,
        m,
        k,
        keep * 256 + byte,
    );
}

/// Append `src`'s length-prefixed NALs to `out` as Annex-B, returning whether any of them was
/// an IDR slice. `nal_length_size` is the prefix width. On a fault, `out` keeps the NALs
/// before it.
pub fn append(src: &[u8], nal_length_size: usize, out: &mut Vec<u8>) -> (r: core::result::Result<
    bool,
    EncodeError,
>)
    ensures
        final(out)@ == old(out)@ + walked(src@, nal_length_size as nat).0,
        reports(r, walked(src@, nal_length_size as nat).1),
{
    let ghost size = nal_length_size as nat;
    let ghost before = out@;
    let ghost whole = walked(src@, size);
    let total: usize = src.len();
    let mut keyframe: bool = false;
    let mut offset: usize = 0;
    let ghost mut done: Seq<u8> = Seq::empty();
    assert(src@.skip(0) =~= src@);
    while offset < total
        invariant
            offset <= total,
            total == src@.len(),
            size == nal_length_size,
            whole == walked(src@, size),
            before == old(out)@,
            out@ == before + done,
            whole.0 == done + walked(src@.skip(offset as int), size).0,
            whole.1 == (match walked(src@.skip(offset as int), size).1 {
                Ok(k) => Ok::<bool, Seq<char>>(k || keyframe),
                Err(e) => Err(e),
            }),
        decreases total - offset,
    {
        let ghost left = src@.skip(offset as int);
        if total - offset < nal_length_size {
            assert(out@ =~= before + whole.0);
            return Err(EncodeError::Bitstream("truncated NAL length prefix"));
        }
        assert(left.take(size as int) =~= src@.subrange(offset as int, offset + nal_length_size));
        let length: usize = read_prefix(src, offset, nal_length_size);
        offset = offset + nal_length_size;
        let ghost rest = left.skip(size as int);
        assert(rest =~= src@.skip(offset as int));
        if length > total - offset {
            assert(out@ =~= before + whole.0);
            return Err(EncodeError::Bitstream("NAL length exceeds the access unit"));
        }
        if length == 0 {
            assert(out@ =~= before + whole.0);
            return Err(EncodeError::Bitstream("zero-length NAL"));
        }
        let end: usize = offset + length;
        let kind: u8 = src[offset] / 2 % 64;
        keyframe = keyframe || kind == NAL_IDR_W_RADL || kind == NAL_IDR_N_LP;
        let nal: &[u8] = vstd::slice::slice_subrange(src, offset, end);
        push_nal(nal, out);
        proof {
            assert(rest.take(length as int) =~= nal@);
            assert(rest.skip(length as int) =~= src@.skip(end as int));
            let tail = walked(src@.skip(end as int), size).0;
            let grown = done + (start_code() + nal@);
            assert(whole.0 =~= grown + tail);
            assert(out@ =~= before + grown);
            done = grown;
        }
        offset = end;
    }
    assert(out@ =~= before + whole.0);
    Ok(keyframe)
}

/// Append one NAL behind a start code.
pub fn push_nal(nal: &[u8], out: &mut Vec<u8>)
    ensures
        final(out)@ == old(out)@ + (start_code() + nal@),
{
    out.push(0);
    out.push(0);
    out.push(0);
    out.push(1);
    out.extend_from_slice(nal);
    assert(out@ =~= old(out)@ + (start_code() + nal@));
}

/// NALs behind length prefixes of `size` bytes.
pub open spec fn prefixed(nals: Seq<Seq<u8>>, size: nat) -> Seq<u8>
    decreases nals.len(),
{
    if nals.len() == 0 {
        Seq::empty()
    } else {
        be(nals.first().len(), size) + nals.first() + prefixed(nals.drop_first(), size)
    }
}

/// NALs behind start codes.
pub open spec fn started(nals: Seq<Seq<u8>>) -> Seq<u8>
    decreases nals.len(),
{
    if nals.len() == 0 {
        Seq::empty()
    } else {
        start_code() + nals.first() + started(nals.drop_first())
    }
}

/// Whether one of the NALs is an IDR slice.
pub open spec fn any_idr(nals: Seq<Seq<u8>>) -> bool {
    exists|i: int| 0 <= i < nals.len() && is_idr(#[trigger] nals[i])
}

/// The NALs of a well-formed access unit come out whole and in order, each behind a start
/// code, and the unit is a keyframe exactly if one of them is an IDR slice.
pub proof fn append_converts(nals: Seq<Seq<u8>>, size: nat)
    requires
        1 <= size,
        forall|i: int|
            0 <= i < nals.len() ==> 0 < (#[trigger] nals[i]).len() < pow256(size) && nals[i].len()
                <= usize::MAX,
    ensures
        walked(prefixed(nals, size), size) == (
            started(nals),
            Ok::<bool, Seq<char>>(any_idr(nals)),
        ),
    decreases nals.len(),
{
    if nals.len() > 0 {
        let nal = nals.first();
        let tail = nals.drop_first();
        let src = prefixed(nals, size);
        assert(nal == nals[0]);
        assert forall|i: int| 0 <= i < tail.len() implies 0 < (#[trigger] tail[i]).len() < pow256(
            size,
        ) && tail[i].len() <= usize::MAX by {
            assert(tail[i] == nals[i + 1]);
        }
        append_converts(tail, size);
        lemma_be_len(nal.len(), size);
        be_round_trip(nal.len(), size);
        vstd::arithmetic::div_mod::lemma_small_mod(nal.len(), pow256(size));
        assert(src.take(size as int) =~= be(nal.len(), size));
        let rest = src.skip(size as int);
        assert(rest =~= nal + prefixed(tail, size));
        vstd::arithmetic::div_mod::lemma_small_mod(nal.len(), (usize::MAX + 1) as nat);
        assert(rest.take(nal.len() as int) =~= nal);
        assert(rest.skip(nal.len() as int) =~= prefixed(tail, size));
        assert(rest[0] == nal[0]);
        assert(any_idr(nals) == (is_idr(nal) || any_idr(tail))) by {
            if any_idr(tail) {
                let i = choose|i: int| 0 <= i < tail.len() && is_idr(#[trigger] tail[i]);
                assert(is_idr(nals[i + 1]));
            }
            if any_idr(nals) {
                let i = choose|i: int| 0 <= i < nals.len() && is_idr(#[trigger] nals[i]);
                if i > 0 {
                    assert(is_idr(tail[i - 1]));
                }
            }
        }
    }
}

} // verus!
