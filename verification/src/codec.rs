//! Canonical byte framing for everything the node persists: fixed-width
//! little-endian integers, big-endian block indices, and length-prefixed
//! byte strings. Every encoder has a decoder that inverts it exactly.

use vstd::prelude::*;
use vstd::bytes::*;

verus! {

/// Canonical encoding of a `u64`: eight little-endian bytes.
pub open spec fn enc_u64(v: u64) -> Seq<u8> {
    spec_u64_to_le_bytes(v)
}

/// Canonical encoding of a `u32`: four little-endian bytes.
pub open spec fn enc_u32(v: u32) -> Seq<u8> {
    spec_u32_to_le_bytes(v)
}

/// Canonical encoding of a block index: eight big-endian bytes.
pub open spec fn enc_u64_be(v: u64) -> Seq<u8> {
    spec_u64_to_le_bytes(v).reverse()
}

/// Canonical encoding of a byte string: a `u64` length followed by the bytes.
pub open spec fn enc_bytes(b: Seq<u8>) -> Seq<u8> {
    enc_u64(b.len() as u64) + b
}

/// Canonical encoding of a string: its UTF-8 bytes, length-prefixed.
pub open spec fn enc_str(s: Seq<char>) -> Seq<u8> {
    enc_bytes(vstd::utf8::encode_utf8(s))
}

/// Appends the encoding of `v` to `out`.
pub fn emit_u64(out: &mut Vec<u8>, v: u64)
    ensures
        final(out)@ == old(out)@ + enc_u64(v),
{
    let bytes = u64_to_le_bytes(v);
    let mut i: usize = 0;
    while i < bytes.len()
        invariant
            bytes@ == spec_u64_to_le_bytes(v),
            bytes@.len() == 8,
            i <= 8,
            out@ == old(out)@ + bytes@.subrange(0, i as int),
        decreases 8 - i,
    {
        out.push(bytes[i]);
        i = i + 1;
        proof {
            assert(out@ =~= old(out)@ + bytes@.subrange(0, i as int));
        }
    }
    proof {
        assert(out@ =~= old(out)@ + enc_u64(v));
    }
}

/// Appends the encoding of `v` to `out`.
pub fn emit_u32(out: &mut Vec<u8>, v: u32)
    ensures
        final(out)@ == old(out)@ + enc_u32(v),
{
    let bytes = u32_to_le_bytes(v);
    let mut i: usize = 0;
    while i < bytes.len()
        invariant
            bytes@ == spec_u32_to_le_bytes(v),
            bytes@.len() == 4,
            i <= 4,
            out@ == old(out)@ + bytes@.subrange(0, i as int),
        decreases 4 - i,
    {
        out.push(bytes[i]);
        i = i + 1;
        proof {
            assert(out@ =~= old(out)@ + bytes@.subrange(0, i as int));
        }
    }
    proof {
        assert(out@ =~= old(out)@ + enc_u32(v));
    }
}

/// Appends the big-endian encoding of `v` to `out`.
pub fn emit_u64_be(out: &mut Vec<u8>, v: u64)
    ensures
        final(out)@ == old(out)@ + enc_u64_be(v),
{
    let bytes = u64_to_le_bytes(v);
    let mut i: usize = bytes.len();
    while i > 0
        invariant
            bytes@ == spec_u64_to_le_bytes(v),
            bytes@.len() == 8,
            i <= 8,
            out@ == old(out)@ + bytes@.subrange(i as int, 8).reverse(),
        decreases i,
    {
        i = i - 1;
        out.push(bytes[i]);
        proof {
            assert(out@ =~= old(out)@ + bytes@.subrange(i as int, 8).reverse());
        }
    }
    proof {
        assert(bytes@.subrange(0, 8) =~= bytes@);
        assert(out@ =~= old(out)@ + enc_u64_be(v));
    }
}

/// Appends the length-prefixed encoding of `b` to `out`.
pub fn emit_bytes(out: &mut Vec<u8>, b: &Vec<u8>)
    ensures
        final(out)@ == old(out)@ + enc_bytes(b@),
{
    emit_u64(out, b.len() as u64);
    let ghost mid = out@;
    let mut i: usize = 0;
    while i < b.len()
        invariant
            i <= b@.len(),
            out@ == mid + b@.subrange(0, i as int),
        decreases b@.len() - i,
    {
        out.push(b[i]);
        i = i + 1;
        proof {
            assert(out@ =~= mid + b@.subrange(0, i as int));
        }
    }
    proof {
        assert(b@.subrange(0, b@.len() as int) =~= b@);
        assert(out@ =~= old(out)@ + enc_bytes(b@));
    }
}

/// Appends the bytes of `b` to `out` as they are.
pub fn emit_raw(out: &mut Vec<u8>, b: &Vec<u8>)
    ensures
        final(out)@ == old(out)@ + b@,
{
    let mut i: usize = 0;
    while i < b.len()
        invariant
            i <= b@.len(),
            out@ == old(out)@ + b@.subrange(0, i as int),
        decreases b@.len() - i,
    {
        out.push(b[i]);
        i = i + 1;
        proof {
            assert(out@ =~= old(out)@ + b@.subrange(0, i as int));
        }
    }
    proof {
        assert(b@.subrange(0, b@.len() as int) =~= b@);
        assert(out@ =~= old(out)@ + b@);
    }
}

/// Reads a `u64` at `pos`; `None` exactly when fewer than eight bytes remain.
pub fn read_u64(data: &Vec<u8>, pos: usize) -> (r: Option<(u64, usize)>)
    ensures
        match r {
            Some(p) => {
                &&& p.1 == pos + 8
                &&& p.1 <= data@.len()
                &&& data@.subrange(pos as int, p.1 as int) == enc_u64(p.0)
            },
            None => pos + 8 > data@.len(),
        },
{
    if data.len() < 8 || pos > data.len() - 8 {
        return None;
    }
    let mut tmp: Vec<u8> = Vec::new();
    let mut i: usize = 0;
    while i < 8
        invariant
            pos + 8 <= data@.len() <= usize::MAX,
            i <= 8,
            tmp@ == data@.subrange(pos as int, pos + i),
        decreases 8 - i,
    {
        tmp.push(data[pos + i]);
        i = i + 1;
        proof {
            assert(tmp@ =~= data@.subrange(pos as int, pos + i));
        }
    }
    let v = u64_from_le_bytes(tmp.as_slice());
    proof {
        lemma_auto_spec_u64_to_from_le_bytes();
        assert(enc_u64(v) == tmp@);
    }
    Some((v, pos + 8))
}

/// Reads a `u32` at `pos`; `None` exactly when fewer than four bytes remain.
pub fn read_u32(data: &Vec<u8>, pos: usize) -> (r: Option<(u32, usize)>)
    ensures
        match r {
            Some(p) => {
                &&& p.1 == pos + 4
                &&& p.1 <= data@.len()
                &&& data@.subrange(pos as int, p.1 as int) == enc_u32(p.0)
            },
            None => pos + 4 > data@.len(),
        },
{
    if data.len() < 4 || pos > data.len() - 4 {
        return None;
    }
    let mut tmp: Vec<u8> = Vec::new();
    let mut i: usize = 0;
    while i < 4
        invariant
            pos + 4 <= data@.len() <= usize::MAX,
            i <= 4,
            tmp@ == data@.subrange(pos as int, pos + i),
        decreases 4 - i,
    {
        tmp.push(data[pos + i]);
        i = i + 1;
        proof {
            assert(tmp@ =~= data@.subrange(pos as int, pos + i));
        }
    }
    let v = u32_from_le_bytes(tmp.as_slice());
    proof {
        lemma_auto_spec_u32_to_from_le_bytes();
        assert(enc_u32(v) == tmp@);
    }
    Some((v, pos + 4))
}

/// Reads a length-prefixed byte string at `pos`. On `None` either the length
/// prefix itself is cut short, or the announced length runs past the end.
pub fn read_bytes(data: &Vec<u8>, pos: usize) -> (r: Option<(Vec<u8>, usize)>)
    ensures
        match r {
            Some(p) => {
                &&& pos + 8 + p.0@.len() == p.1
                &&& p.1 <= data@.len()
                &&& data@.subrange(pos as int, p.1 as int) == enc_bytes(p.0@)
            },
            None => pos + 8 > data@.len() || {
                let l = spec_u64_from_le_bytes(data@.subrange(pos as int, pos + 8));
                pos + 8 + l > data@.len()
            },
        },
{
    let (len64, mut at) = match read_u64(data, pos) {
        Some(p) => p,
        None => {
            return None;
        },
    };
    proof {
        lemma_auto_spec_u64_to_from_le_bytes();
        assert(spec_u64_from_le_bytes(data@.subrange(pos as int, pos + 8)) == len64);
    }
    if len64 > data.len() as u64 - at as u64 {
        return None;
    }
    let len = len64 as usize;
    let mut out: Vec<u8> = Vec::new();
    let mut i: usize = 0;
    while i < len
        invariant
            at == pos + 8,
            at + len <= data@.len() <= usize::MAX,
            i <= len,
            out@ == data@.subrange(at as int, at + i),
        decreases len - i,
    {
        out.push(data[at + i]);
        i = i + 1;
        proof {
            assert(out@ =~= data@.subrange(at as int, at + i));
        }
    }
    proof {
        assert(data@.subrange(pos as int, (pos + 8 + len) as int) =~= data@.subrange(
            pos as int,
            pos + 8,
        ) + data@.subrange(pos + 8, (pos + 8 + len) as int));
        assert(data@.subrange(pos as int, (pos + 8 + len) as int) == enc_bytes(out@));
    }
    Some((out, pos + 8 + len))
}

} // verus!
