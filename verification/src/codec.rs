//! Little-endian integer fields and the variable-length count encoding used
//! by the consensus transaction format, with exact encode/decode contracts.
//! Decoding accepts only the minimal (canonical) form of a count, so every
//! decoded value re-encodes to the very bytes it came from.

use vstd::prelude::*;

use vstd::bytes::*;
use vstd::slice::{slice_subrange, slice_to_vec};

use crate::errors::Error;

verus! {

/// The canonical variable-length encoding of a count: one byte below 0xfd,
/// otherwise a marker byte followed by the smallest little-endian width
/// that holds the value.
pub open spec fn spec_varint(n: u64) -> Seq<u8> {
    if n < 0xfd {
        seq![n as u8]
    } else if n <= 0xffff {
        seq![0xfdu8] + spec_u16_to_le_bytes(n as u16)
    } else if n <= 0xffffffff {
        seq![0xfeu8] + spec_u32_to_le_bytes(n as u32)
    } else {
        seq![0xffu8] + spec_u64_to_le_bytes(n)
    }
}

/// How many bytes the encoding of a count takes.
pub proof fn lemma_varint_len(n: u64)
    ensures
        n < 0xfd ==> spec_varint(n).len() == 1,
        0xfd <= n <= 0xffff ==> spec_varint(n).len() == 3,
        0xffff < n <= 0xffffffff ==> spec_varint(n).len() == 5,
        0xffffffff < n ==> spec_varint(n).len() == 9,
        1 <= spec_varint(n).len() <= 9,
{
    lemma_auto_spec_u16_to_from_le_bytes();
    lemma_auto_spec_u32_to_from_le_bytes();
    lemma_auto_spec_u64_to_from_le_bytes();
}

/// Splitting two equal concatenations at the same point gives equal parts.
pub proof fn lemma_concat_split(a: Seq<u8>, x: Seq<u8>, b: Seq<u8>, y: Seq<u8>)
    requires
        a.len() == b.len(),
        a + x == b + y,
    ensures
        a == b,
        x == y,
{
    assert(a =~= (a + x).subrange(0, a.len() as int));
    assert(b =~= (b + y).subrange(0, b.len() as int));
    assert(x =~= (a + x).subrange(a.len() as int, (a + x).len() as int));
    assert(y =~= (b + y).subrange(b.len() as int, (b + y).len() as int));
}

/// Two equal fixed-width little-endian images come from the same value.
pub proof fn lemma_u16_le_inj(a: u16, b: u16)
    requires
        spec_u16_to_le_bytes(a) == spec_u16_to_le_bytes(b),
    ensures
        a == b,
{
    lemma_auto_spec_u16_to_from_le_bytes();
    assert(spec_u16_to_le_bytes(a).len() == 2);
    assert(spec_u16_to_le_bytes(b).len() == 2);
    assert(spec_u16_from_le_bytes(spec_u16_to_le_bytes(a)) == spec_u16_from_le_bytes(
        spec_u16_to_le_bytes(b),
    ));
}

/// Two equal fixed-width little-endian images come from the same value.
pub proof fn lemma_u32_le_inj(a: u32, b: u32)
    requires
        spec_u32_to_le_bytes(a) == spec_u32_to_le_bytes(b),
    ensures
        a == b,
{
    lemma_auto_spec_u32_to_from_le_bytes();
    assert(spec_u32_to_le_bytes(a).len() == 4);
    assert(spec_u32_to_le_bytes(b).len() == 4);
    assert(spec_u32_from_le_bytes(spec_u32_to_le_bytes(a)) == spec_u32_from_le_bytes(
        spec_u32_to_le_bytes(b),
    ));
}

/// Two equal fixed-width little-endian images come from the same value.
pub proof fn lemma_u64_le_inj(a: u64, b: u64)
    requires
        spec_u64_to_le_bytes(a) == spec_u64_to_le_bytes(b),
    ensures
        a == b,
{
    lemma_auto_spec_u64_to_from_le_bytes();
    assert(spec_u64_to_le_bytes(a).len() == 8);
    assert(spec_u64_to_le_bytes(b).len() == 8);
    assert(spec_u64_from_le_bytes(spec_u64_to_le_bytes(a)) == spec_u64_from_le_bytes(
        spec_u64_to_le_bytes(b),
    ));
}

/// A count encoding is a prefix code: equal streams that both start with a
/// count carry the same count and the same remainder.
pub proof fn lemma_varint_prefix(k1: u64, x: Seq<u8>, k2: u64, y: Seq<u8>)
    requires
        spec_varint(k1) + x == spec_varint(k2) + y,
    ensures
        k1 == k2,
        x == y,
{
    lemma_varint_len(k1);
    lemma_varint_len(k2);
    let v1 = spec_varint(k1);
    let v2 = spec_varint(k2);
    assert((v1 + x)[0] == v1[0]);
    assert((v2 + y)[0] == v2[0]);
    if k1 < 0xfd {
        assert(v1[0] == k1 as u8 && (k1 as u8) < 0xfd);
    }
    if k2 < 0xfd {
        assert(v2[0] == k2 as u8 && (k2 as u8) < 0xfd);
    }
    // The first byte pins the width class, so both encodings have one length.
    assert(v1.len() == v2.len());
    lemma_concat_split(v1, x, v2, y);
    if k1 < 0xfd {
        assert(v1[0] == k1 as u8 && v2[0] == k2 as u8);
        assert(k1 == k1 as u8 as u64 && k2 == k2 as u8 as u64);
    } else if k1 <= 0xffff {
        lemma_concat_split(
            seq![0xfdu8],
            spec_u16_to_le_bytes(k1 as u16),
            seq![0xfdu8],
            spec_u16_to_le_bytes(k2 as u16),
        );
        lemma_u16_le_inj(k1 as u16, k2 as u16);
        assert(k1 == k1 as u16 as u64 && k2 == k2 as u16 as u64);
    } else if k1 <= 0xffffffff {
        lemma_concat_split(
            seq![0xfeu8],
            spec_u32_to_le_bytes(k1 as u32),
            seq![0xfeu8],
            spec_u32_to_le_bytes(k2 as u32),
        );
        lemma_u32_le_inj(k1 as u32, k2 as u32);
        assert(k1 == k1 as u32 as u64 && k2 == k2 as u32 as u64);
    } else {
        lemma_concat_split(
            seq![0xffu8],
            spec_u64_to_le_bytes(k1),
            seq![0xffu8],
            spec_u64_to_le_bytes(k2),
        );
        lemma_u64_le_inj(k1, k2);
    }
}

/// One position in a stream holds the canonical encoding of at most one
/// count.
pub proof fn lemma_varint_at_unique(b: Seq<u8>, pos: int, k1: u64, k2: u64)
    requires
        valid_varint_at(b, pos, k1),
        valid_varint_at(b, pos, k2),
    ensures
        k1 == k2,
{
    lemma_varint_len(k1);
    lemma_varint_len(k2);
    assert(b.subrange(pos, pos + spec_varint(k1).len())[0] == b[pos]);
    assert(b.subrange(pos, pos + spec_varint(k2).len())[0] == b[pos]);
    assert(spec_varint(k1)[0] == b[pos]);
    assert(spec_varint(k2)[0] == b[pos]);
    if k1 < 0xfd {
        assert(spec_varint(k1)[0] == k1 as u8 && (k1 as u8) < 0xfd);
    }
    if k2 < 0xfd {
        assert(spec_varint(k2)[0] == k2 as u8 && (k2 as u8) < 0xfd);
    }
    // The first byte pins the width class, so the encodings have one length
    // and cover the same bytes.
    assert(spec_varint(k1).len() == spec_varint(k2).len());
    assert(spec_varint(k1) == spec_varint(k2));
    assert(spec_varint(k1) + Seq::<u8>::empty() =~= spec_varint(k2) + Seq::<u8>::empty());
    lemma_varint_prefix(k1, Seq::<u8>::empty(), k2, Seq::<u8>::empty());
}

/// Appends the two-byte little-endian image of a value.
pub fn write_u16_le(out: &mut Vec<u8>, v: u16)
    ensures
        final(out)@ == old(out)@ + spec_u16_to_le_bytes(v),
{
    let mut bytes = u16_to_le_bytes(v);
    out.append(&mut bytes);
}

/// Appends the four-byte little-endian image of a value.
pub fn write_u32_le(out: &mut Vec<u8>, v: u32)
    ensures
        final(out)@ == old(out)@ + spec_u32_to_le_bytes(v),
{
    let mut bytes = u32_to_le_bytes(v);
    out.append(&mut bytes);
}

/// Appends the eight-byte little-endian image of a value.
pub fn write_u64_le(out: &mut Vec<u8>, v: u64)
    ensures
        final(out)@ == old(out)@ + spec_u64_to_le_bytes(v),
{
    let mut bytes = u64_to_le_bytes(v);
    out.append(&mut bytes);
}

/// Appends the canonical count encoding of a value.
pub fn write_varint(out: &mut Vec<u8>, n: u64)
    ensures
        final(out)@ == old(out)@ + spec_varint(n),
{
    if n < 0xfd {
        out.push(n as u8);
        proof {
            assert(out@ =~= old(out)@ + spec_varint(n));
        }
    } else if n <= 0xffff {
        out.push(0xfd);
        write_u16_le(out, n as u16);
        proof {
            assert(out@ =~= old(out)@ + spec_varint(n));
        }
    } else if n <= 0xffffffff {
        out.push(0xfe);
        write_u32_le(out, n as u32);
        proof {
            assert(out@ =~= old(out)@ + spec_varint(n));
        }
    } else {
        out.push(0xff);
        write_u64_le(out, n);
        proof {
            assert(out@ =~= old(out)@ + spec_varint(n));
        }
    }
}

/// Reads a four-byte little-endian value; fails only when the stream is
/// too short.
pub fn read_u32_le(bs: &[u8], pos: usize) -> (r: Result<(u32, usize), Error>)
    ensures
        r matches Ok(x) ==> pos + 4 <= bs@.len() && x.1 == pos + 4 && bs@.subrange(
            pos as int,
            pos as int + 4,
        ) == spec_u32_to_le_bytes(x.0),
        r matches Err(e) ==> pos + 4 > bs@.len() && e == Error::InvalidEncoding,
{
    if pos > bs.len() || bs.len() - pos < 4 {
        return Err(Error::InvalidEncoding);
    }
    let sub = slice_subrange(bs, pos, pos + 4);
    let v = u32_from_le_bytes(sub);
    proof {
        lemma_auto_spec_u32_to_from_le_bytes();
    }
    Ok((v, pos + 4))
}

/// Reads an eight-byte little-endian value; fails only when the stream is
/// too short.
pub fn read_u64_le(bs: &[u8], pos: usize) -> (r: Result<(u64, usize), Error>)
    ensures
        r matches Ok(x) ==> pos + 8 <= bs@.len() && x.1 == pos + 8 && bs@.subrange(
            pos as int,
            pos as int + 8,
        ) == spec_u64_to_le_bytes(x.0),
        r matches Err(e) ==> pos + 8 > bs@.len() && e == Error::InvalidEncoding,
{
    if pos > bs.len() || bs.len() - pos < 8 {
        return Err(Error::InvalidEncoding);
    }
    let sub = slice_subrange(bs, pos, pos + 8);
    let v = u64_from_le_bytes(sub);
    proof {
        lemma_auto_spec_u64_to_from_le_bytes();
    }
    Ok((v, pos + 8))
}

/// Copies an exact run of bytes out of the stream; fails only when the
/// stream is too short.
pub fn read_bytes(bs: &[u8], pos: usize, n: usize) -> (r: Result<(Vec<u8>, usize), Error>)
    ensures
        r matches Ok(x) ==> pos + n <= bs@.len() && x.1 == pos + n && x.0@ == bs@.subrange(
            pos as int,
            pos as int + n,
        ),
        r matches Err(e) ==> pos + n > bs@.len() && e == Error::InvalidEncoding,
{
    if pos > bs.len() || n > bs.len() - pos {
        return Err(Error::InvalidEncoding);
    }
    let sub = slice_subrange(bs, pos, pos + n);
    let v = slice_to_vec(sub);
    Ok((v, pos + n))
}

/// Whether a canonical count encoding of `k` sits at `pos` in the stream.
pub open spec fn valid_varint_at(b: Seq<u8>, pos: int, k: u64) -> bool {
    &&& 0 <= pos
    &&& pos + spec_varint(k).len() <= b.len()
    &&& b.subrange(pos, pos + spec_varint(k).len()) == spec_varint(k)
}

/// Reads a count; succeeds exactly when a canonical count encoding starts
/// at `pos`, and rejects truncated and non-minimal forms.
pub fn read_varint(bs: &[u8], pos: usize) -> (r: Result<(u64, usize), Error>)
    ensures
        r matches Ok(x) ==> valid_varint_at(bs@, pos as int, x.0) && x.1 == pos + spec_varint(
            x.0,
        ).len() && pos < x.1 <= bs@.len(),
        r matches Err(e) ==> (forall|k: u64| !valid_varint_at(bs@, pos as int, k)) && e
            == Error::InvalidEncoding,
{
    proof {
        lemma_auto_spec_u16_to_from_le_bytes();
        lemma_auto_spec_u32_to_from_le_bytes();
        lemma_auto_spec_u64_to_from_le_bytes();
    }
    if pos >= bs.len() {
        proof {
            assert forall|k: u64| !valid_varint_at(bs@, pos as int, k) by {
                lemma_varint_len(k);
            }
        }
        return Err(Error::InvalidEncoding);
    }
    let b0: u8 = *vstd::slice::slice_index_get(bs, pos);
    if b0 < 0xfd {
        proof {
            assert(bs@.subrange(pos as int, pos as int + 1) =~= spec_varint(b0 as u64));
        }
        Ok((b0 as u64, pos + 1))
    } else if b0 == 0xfd {
        match read_u16_le_inner(bs, pos + 1) {
            Ok(v) => {
                if v.0 < 0xfd {
                    proof {
                        varint_no_fit_fd(bs@, pos as int, v.0);
                    }
                    Err(Error::InvalidEncoding)
                } else {
                    proof {
                        assert(bs@.subrange(pos as int, pos as int + 3) =~= seq![0xfdu8]
                            + bs@.subrange(pos as int + 1, pos as int + 3));
                        assert(spec_varint(v.0 as u64) == seq![0xfdu8] + spec_u16_to_le_bytes(v.0));
                    }
                    Ok((v.0 as u64, pos + 3))
                }
            },
            Err(e) => {
                proof {
                    assert forall|k: u64| !valid_varint_at(bs@, pos as int, k) by {
                        lemma_varint_len(k);
                        if valid_varint_at(bs@, pos as int, k) {
                            assert(bs@.subrange(pos as int, pos as int + spec_varint(k).len())[0]
                                == bs@[pos as int]);
                            assert(spec_varint(k)[0] == 0xfd);
                            assert(0xfd <= k <= 0xffff);
                        }
                    }
                }
                Err(e)
            },
        }
    } else if b0 == 0xfe {
        match read_u32_le(bs, pos + 1) {
            Ok(v) => {
                if v.0 <= 0xffff {
                    proof {
                        varint_no_fit_fe(bs@, pos as int, v.0);
                    }
                    Err(Error::InvalidEncoding)
                } else {
                    proof {
                        assert(bs@.subrange(pos as int, pos as int + 5) =~= seq![0xfeu8]
                            + bs@.subrange(pos as int + 1, pos as int + 5));
                        assert(spec_varint(v.0 as u64) == seq![0xfeu8] + spec_u32_to_le_bytes(v.0));
                    }
                    Ok((v.0 as u64, pos + 5))
                }
            },
            Err(e) => {
                proof {
                    assert forall|k: u64| !valid_varint_at(bs@, pos as int, k) by {
                        lemma_varint_len(k);
                        if valid_varint_at(bs@, pos as int, k) {
                            assert(bs@.subrange(pos as int, pos as int + spec_varint(k).len())[0]
                                == bs@[pos as int]);
                            assert(spec_varint(k)[0] == 0xfe);
                            assert(0xffff < k <= 0xffffffff);
                        }
                    }
                }
                Err(e)
            },
        }
    } else {
        match read_u64_le(bs, pos + 1) {
            Ok(v) => {
                if v.0 <= 0xffffffff {
                    proof {
                        varint_no_fit_ff(bs@, pos as int, v.0);
                    }
                    Err(Error::InvalidEncoding)
                } else {
                    proof {
                        assert(bs@.subrange(pos as int, pos as int + 9) =~= seq![0xffu8]
                            + bs@.subrange(pos as int + 1, pos as int + 9));
                        assert(spec_varint(v.0) == seq![0xffu8] + spec_u64_to_le_bytes(v.0));
                    }
                    Ok((v.0, pos + 9))
                }
            },
            Err(e) => {
                proof {
                    assert forall|k: u64| !valid_varint_at(bs@, pos as int, k) by {
                        lemma_varint_len(k);
                        if valid_varint_at(bs@, pos as int, k) {
                            assert(bs@.subrange(pos as int, pos as int + spec_varint(k).len())[0]
                                == bs@[pos as int]);
                            assert(spec_varint(k)[0] == 0xff);
                            assert(0xffffffff < k);
                        }
                    }
                }
                Err(e)
            },
        }
    }
}

/// Reads a two-byte little-endian value; fails only when the stream is
/// too short.
fn read_u16_le_inner(bs: &[u8], pos: usize) -> (r: Result<(u16, usize), Error>)
    ensures
        r matches Ok(x) ==> pos + 2 <= bs@.len() && x.1 == pos + 2 && bs@.subrange(
            pos as int,
            pos as int + 2,
        ) == spec_u16_to_le_bytes(x.0),
        r matches Err(e) ==> pos + 2 > bs@.len() && e == Error::InvalidEncoding,
{
    if pos > bs.len() || bs.len() - pos < 2 {
        return Err(Error::InvalidEncoding);
    }
    let sub = slice_subrange(bs, pos, pos + 2);
    let v = u16_from_le_bytes(sub);
    proof {
        lemma_auto_spec_u16_to_from_le_bytes();
    }
    Ok((v, pos + 2))
}

/// No count both needs the two-byte width marker and falls below it.
proof fn varint_no_fit_fd(b: Seq<u8>, pos: int, v: u16)
    requires
        v < 0xfd,
        0 <= pos,
        pos + 3 <= b.len(),
        b[pos] == 0xfd,
        b.subrange(pos + 1, pos + 3) == spec_u16_to_le_bytes(v),
    ensures
        forall|k: u64| !valid_varint_at(b, pos, k),
{
    lemma_auto_spec_u16_to_from_le_bytes();
    assert forall|k: u64| !valid_varint_at(b, pos, k) by {
        lemma_varint_len(k);
        if valid_varint_at(b, pos, k) {
            assert(b.subrange(pos, pos + spec_varint(k).len())[0] == b[pos]);
            assert(spec_varint(k)[0] == 0xfd);
            assert(0xfd <= k <= 0xffff);
            assert(b.subrange(pos, pos + 3) =~= seq![0xfdu8] + b.subrange(pos + 1, pos + 3));
            lemma_concat_split(
                seq![0xfdu8],
                spec_u16_to_le_bytes(k as u16),
                seq![0xfdu8],
                spec_u16_to_le_bytes(v),
            );
            lemma_u16_le_inj(k as u16, v);
            assert(k == k as u16 as u64);
        }
    }
}

/// No count both needs the four-byte width marker and fits two bytes.
proof fn varint_no_fit_fe(b: Seq<u8>, pos: int, v: u32)
    requires
        v <= 0xffff,
        0 <= pos,
        pos + 5 <= b.len(),
        b[pos] == 0xfe,
        b.subrange(pos + 1, pos + 5) == spec_u32_to_le_bytes(v),
    ensures
        forall|k: u64| !valid_varint_at(b, pos, k),
{
    lemma_auto_spec_u32_to_from_le_bytes();
    assert forall|k: u64| !valid_varint_at(b, pos, k) by {
        lemma_varint_len(k);
        if valid_varint_at(b, pos, k) {
            assert(b.subrange(pos, pos + spec_varint(k).len())[0] == b[pos]);
            assert(spec_varint(k)[0] == 0xfe);
            assert(0xffff < k <= 0xffffffff);
            assert(b.subrange(pos, pos + 5) =~= seq![0xfeu8] + b.subrange(pos + 1, pos + 5));
            lemma_concat_split(
                seq![0xfeu8],
                spec_u32_to_le_bytes(k as u32),
                seq![0xfeu8],
                spec_u32_to_le_bytes(v),
            );
            lemma_u32_le_inj(k as u32, v);
            assert(k == k as u32 as u64);
        }
    }
}

/// No count both needs the eight-byte width marker and fits four bytes.
proof fn varint_no_fit_ff(b: Seq<u8>, pos: int, v: u64)
    requires
        v <= 0xffffffff,
        0 <= pos,
        pos + 9 <= b.len(),
        b[pos] == 0xff,
        b.subrange(pos + 1, pos + 9) == spec_u64_to_le_bytes(v),
    ensures
        forall|k: u64| !valid_varint_at(b, pos, k),
{
    lemma_auto_spec_u64_to_from_le_bytes();
    assert forall|k: u64| !valid_varint_at(b, pos, k) by {
        lemma_varint_len(k);
        if valid_varint_at(b, pos, k) {
            assert(b.subrange(pos, pos + spec_varint(k).len())[0] == b[pos]);
            assert(spec_varint(k)[0] == 0xff);
            assert(0xffffffff < k);
            assert(b.subrange(pos, pos + 9) =~= seq![0xffu8] + b.subrange(pos + 1, pos + 9));
            lemma_concat_split(
                seq![0xffu8],
                spec_u64_to_le_bytes(k),
                seq![0xffu8],
                spec_u64_to_le_bytes(v),
            );
            lemma_u64_le_inj(k, v);
        }
    }
}

} // verus!
