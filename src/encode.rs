//! The consensus wire format: little-endian fixed-width integers, the
//! variable-width "compact size" integer, and byte strings prefixed by their
//! length.
use vstd::prelude::*;

use crate::uint::{
    lemma_bound_is_pow256, lemma_pow256_monotone, lemma_pow256_positive, lemma_value_bounds, limb_base,
    pow256, Uint256,
};

verus! {

/// Why a byte sequence could not be read.
#[derive(Debug, Clone, Copy, PartialEq, Eq, Structural)]
pub enum DecodeError {
    /// The data ended in the middle of a field.
    UnexpectedEnd,
    /// A compact size was written in more bytes than its value needs.
    NonMinimalCompactSize,
    /// A length prefix claims more bytes than remain.
    LengthTooLong,
    /// Bytes remain after a value that should have used them all.
    TrailingBytes,
}

/// The `width` low bytes of `n`, least significant first.
pub open spec fn le_bytes(n: nat, width: nat) -> Seq<u8>
    decreases width,
{
    if width == 0 {
        Seq::empty()
    } else {
        seq![(n % 256) as u8].add(le_bytes(n / 256, (width - 1) as nat))
    }
}

/// The number that bytes stand for, least significant first.
pub open spec fn le_value(s: Seq<u8>) -> nat
    decreases s.len(),
{
    if s.len() == 0 {
        0
    } else {
        s[0] as nat + 256 * le_value(s.subrange(1, s.len() as int))
    }
}

/// How many bytes follow the first byte of a compact size.
pub open spec fn compact_size_width(tag: u8) -> nat {
    if tag < 0xfd {
        0
    } else if tag == 0xfd {
        2
    } else if tag == 0xfe {
        4
    } else {
        8
    }
}

/// The least value that a compact size of the given width may hold.
pub open spec fn compact_size_min(width: nat) -> nat {
    if width == 2 {
        0xfd
    } else if width == 4 {
        0x1_0000
    } else {
        0x1_0000_0000
    }
}

/// The compact size encoding of `n`: one byte below 0xfd, else an escape byte
/// (0xfd, 0xfe, 0xff) followed by two, four or eight little-endian bytes.
pub open spec fn compact_size_bytes(n: u64) -> Seq<u8> {
    if n < 0xfd {
        seq![n as u8]
    } else if n <= 0xffff {
        seq![0xfdu8].add(le_bytes(n as nat, 2))
    } else if n <= 0xffff_ffff {
        seq![0xfeu8].add(le_bytes(n as nat, 4))
    } else {
        seq![0xffu8].add(le_bytes(n as nat, 8))
    }
}

/// Reading a fixed-width integer at `pos`: its value and the position after it.
pub open spec fn le_parse(data: Seq<u8>, pos: nat, width: nat) -> Result<(nat, nat), DecodeError> {
    if pos + width > data.len() {
        Err(DecodeError::UnexpectedEnd)
    } else {
        Ok((le_value(data.subrange(pos as int, (pos + width) as int)), pos + width))
    }
}

/// Reading a compact size at `pos`: its value and the position after it.
pub open spec fn compact_size_parse(data: Seq<u8>, pos: nat) -> Result<(nat, nat), DecodeError> {
    if pos >= data.len() {
        Err(DecodeError::UnexpectedEnd)
    } else {
        let tag = data[pos as int];
        let w = compact_size_width(tag);
        if w == 0 {
            Ok((tag as nat, pos + 1))
        } else {
            match le_parse(data, pos + 1, w) {
                Err(e) => Err(e),
                Ok((v, next)) => if v < compact_size_min(w) {
                    Err(DecodeError::NonMinimalCompactSize)
                } else {
                    Ok((v, next))
                },
            }
        }
    }
}

/// Reading a length-prefixed byte string at `pos`: its bytes and the position
/// after them.
pub open spec fn bytes_parse(data: Seq<u8>, pos: nat) -> Result<(Seq<u8>, nat), DecodeError> {
    match compact_size_parse(data, pos) {
        Err(e) => Err(e),
        Ok((n, start)) => if start + n > data.len() {
            Err(DecodeError::LengthTooLong)
        } else {
            Ok((data.subrange(start as int, (start + n) as int), start + n))
        },
    }
}

/// The encoding of a byte string: its length as a compact size, then the bytes.
pub open spec fn bytes_encoding(b: Seq<u8>) -> Seq<u8> {
    compact_size_bytes(b.len() as u64).add(b)
}

/// Writing `n` in `width` bytes and reading them back gives `n` modulo `256^width`.
pub proof fn lemma_le_round_trip(n: nat, width: nat)
    ensures
        le_bytes(n, width).len() == width,
        le_value(le_bytes(n, width)) == n % pow256(width),
    decreases width,
{
    if width > 0 {
        lemma_le_round_trip(n / 256, (width - 1) as nat);
        let s = le_bytes(n, width);
        assert(s.subrange(1, s.len() as int) =~= le_bytes(n / 256, (width - 1) as nat));
        lemma_pow256_positive((width - 1) as nat);
        vstd::arithmetic::div_mod::lemma_mod_breakdown(n as int, 256, pow256((width - 1) as nat) as int);
    }
}

/// Bytes stand for a number below `256^len`.
pub proof fn lemma_le_value_bound(s: Seq<u8>)
    ensures
        le_value(s) < pow256(s.len()),
    decreases s.len(),
{
    if s.len() > 0 {
        let t = s.subrange(1, s.len() as int);
        lemma_le_value_bound(t);
        assert(s[0] as nat + 256 * le_value(t) < 256 * pow256(t.len())) by (nonlinear_arith)
            requires le_value(t) < pow256(t.len()), s[0] < 256;
        assert(t.len() == (s.len() - 1) as nat);
    }
}

/// Appends the `width` low bytes of `n`, least significant first.
fn write_le(n: u64, width: usize, out: &mut Vec<u8>)
    ensures
        final(out)@ == old(out)@ + le_bytes(n as nat, width as nat),
    decreases width,
{
    if width == 0 {
        assert(old(out)@ + le_bytes(n as nat, 0) =~= old(out)@);
        return;
    }
    out.push((n % 256) as u8);
    write_le(n / 256, width - 1, out);
    assert(final(out)@ =~= old(out)@ + le_bytes(n as nat, width as nat));
}

/// Reads `width` bytes at `start`, least significant first.
fn read_le(data: &[u8], start: usize, width: usize) -> (r: u64)
    requires
        start + width <= data@.len(),
        width <= 8,
    ensures
        r as nat == le_value(data@.subrange(start as int, (start + width) as int)),
    decreases width,
{
    let ghost s = data@.subrange(start as int, (start + width) as int);
    if width == 0 {
        return 0;
    }
    let len = data.len();
    let rest = read_le(data, start + 1, width - 1);
    proof {
        let t = data@.subrange((start + 1) as int, (start + width) as int);
        assert(s.subrange(1, s.len() as int) =~= t);
        lemma_le_value_bound(t);
        lemma_pow256_monotone((width - 1) as nat, 7);
        reveal_with_fuel(pow256, 8);
        assert(pow256(7) == 0x100_0000_0000_0000);
    }
    data[start] as u64 + 256 * rest
}


/// Reading a whole buffer as one length-prefixed byte string.
pub open spec fn bytes_deserialize(data: Seq<u8>) -> Result<Seq<u8>, DecodeError> {
    match bytes_parse(data, 0) {
        Err(e) => Err(e),
        Ok((b, next)) => if next == data.len() {
            Ok(b)
        } else {
            Err(DecodeError::TrailingBytes)
        },
    }
}

/// The powers of 256 that fixed-width fields use.
pub proof fn lemma_field_powers()
    ensures
        pow256(1) == 0x100,
        pow256(2) == 0x1_0000,
        pow256(4) == 0x1_0000_0000,
        pow256(8) == 0x1_0000_0000_0000_0000,
{
    reveal_with_fuel(pow256, 9);
}

/// Reads `width` bytes at `pos` as a little-endian integer.
fn decode_le(data: &[u8], pos: usize, width: usize) -> (r: Result<(u64, usize), DecodeError>)
    requires
        width <= 8,
    ensures
        match r {
            Ok((v, next)) => le_parse(data@, pos as nat, width as nat) == Ok::<(nat, nat), DecodeError>(
                (v as nat, next as nat)),
            Err(e) => le_parse(data@, pos as nat, width as nat) == Err::<(nat, nat), DecodeError>(e),
        },
{
    let len = data.len();
    if pos > len || len - pos < width {
        return Err(DecodeError::UnexpectedEnd);
    }
    let v = read_le(data, pos, width);
    Ok((v, pos + width))
}

/// Appends `n` as four little-endian bytes; returns the count written.
pub fn encode_u32(n: u32, out: &mut Vec<u8>) -> (r: usize)
    ensures
        final(out)@ == old(out)@ + le_bytes(n as nat, 4),
        r == 4,
{
    write_le(n as u64, 4, out);
    4
}

/// Appends `n` as eight little-endian bytes; returns the count written.
pub fn encode_u64(n: u64, out: &mut Vec<u8>) -> (r: usize)
    ensures
        final(out)@ == old(out)@ + le_bytes(n as nat, 8),
        r == 8,
{
    write_le(n, 8, out);
    8
}

/// Reads four little-endian bytes at `pos`; returns the value and the position
/// after it.
pub fn decode_u32(data: &[u8], pos: usize) -> (r: Result<(u32, usize), DecodeError>)
    ensures
        match r {
            Ok((v, next)) => le_parse(data@, pos as nat, 4) == Ok::<(nat, nat), DecodeError>(
                (v as nat, next as nat)),
            Err(e) => le_parse(data@, pos as nat, 4) == Err::<(nat, nat), DecodeError>(e),
        },
{
    match decode_le(data, pos, 4) {
        Ok((v, next)) => {
            proof {
                lemma_le_value_bound(data@.subrange(pos as int, pos + 4));
                lemma_field_powers();
            }
            Ok((v as u32, next))
        },
        Err(e) => Err(e),
    }
}

/// Reads eight little-endian bytes at `pos`; returns the value and the position
/// after it.
pub fn decode_u64(data: &[u8], pos: usize) -> (r: Result<(u64, usize), DecodeError>)
    ensures
        match r {
            Ok((v, next)) => le_parse(data@, pos as nat, 8) == Ok::<(nat, nat), DecodeError>(
                (v as nat, next as nat)),
            Err(e) => le_parse(data@, pos as nat, 8) == Err::<(nat, nat), DecodeError>(e),
        },
{
    decode_le(data, pos, 8)
}

/// Appends `n` as a compact size; returns the count written.
pub fn encode_compact_size(n: u64, out: &mut Vec<u8>) -> (r: usize)
    ensures
        final(out)@ == old(out)@ + compact_size_bytes(n),
        r == compact_size_bytes(n).len(),
{
    proof {
        lemma_le_round_trip(n as nat, 2);
        lemma_le_round_trip(n as nat, 4);
        lemma_le_round_trip(n as nat, 8);
    }
    if n < 0xfd {
        out.push(n as u8);
        assert(final(out)@ =~= old(out)@ + compact_size_bytes(n));
        1
    } else {
        let (tag, width): (u8, usize) = if n <= 0xffff {
            (0xfd, 2)
        } else if n <= 0xffff_ffff {
            (0xfe, 4)
        } else {
            (0xff, 8)
        };
        out.push(tag);
        write_le(n, width, out);
        assert(final(out)@ =~= old(out)@ + compact_size_bytes(n));
        1 + width
    }
}

/// Reads a compact size at `pos`; returns the value and the position after it.
/// A value written in more bytes than it needs is refused.
pub fn decode_compact_size(data: &[u8], pos: usize) -> (r: Result<(u64, usize), DecodeError>)
    ensures
        match r {
            Ok((v, next)) => compact_size_parse(data@, pos as nat) == Ok::<(nat, nat), DecodeError>(
                (v as nat, next as nat)),
            Err(e) => compact_size_parse(data@, pos as nat) == Err::<(nat, nat), DecodeError>(e),
        },
{
    if pos >= data.len() {
        return Err(DecodeError::UnexpectedEnd);
    }
    let tag = data[pos];
    if tag < 0xfd {
        return Ok((tag as u64, pos + 1));
    }
    let (width, min): (usize, u64) = if tag == 0xfd {
        (2, 0xfd)
    } else if tag == 0xfe {
        (4, 0x1_0000)
    } else {
        (8, 0x1_0000_0000)
    };
    match decode_le(data, pos + 1, width) {
        Ok((v, next)) => {
            if v < min {
                Err(DecodeError::NonMinimalCompactSize)
            } else {
                Ok((v, next))
            }
        },
        Err(e) => Err(e),
    }
}

/// Appends a byte string prefixed by its length; returns the count written.
pub fn encode_bytes(b: &[u8], out: &mut Vec<u8>) -> (r: usize)
    requires
        old(out)@.len() + bytes_encoding(b@).len() <= usize::MAX,
    ensures
        final(out)@ == old(out)@ + bytes_encoding(b@),
        r == bytes_encoding(b@).len(),
{
    let n = encode_compact_size(b.len() as u64, out);
    let ghost mid = out@;
    let mut i: usize = 0;
    while i < b.len()
        invariant
            mid == old(out)@ + compact_size_bytes(b@.len() as u64),
            out@ == mid + b@.subrange(0, i as int),
            i <= b@.len(),
        decreases b@.len() - i,
    {
        out.push(b[i]);
        i = i + 1;
        assert(out@ =~= mid + b@.subrange(0, i as int));
    }
    assert(b@.subrange(0, b@.len() as int) =~= b@);
    assert(out@ =~= old(out)@ + bytes_encoding(b@));
    n + b.len()
}

/// Reads a length-prefixed byte string at `pos`; returns its bytes and the
/// position after them.
pub fn decode_bytes(data: &[u8], pos: usize) -> (r: Result<(Vec<u8>, usize), DecodeError>)
    ensures
        match r {
            Ok((v, next)) => bytes_parse(data@, pos as nat) == Ok::<(Seq<u8>, nat), DecodeError>(
                (v@, next as nat)),
            Err(e) => bytes_parse(data@, pos as nat) == Err::<(Seq<u8>, nat), DecodeError>(e),
        },
{
    let (n, start) = match decode_compact_size(data, pos) {
        Ok(p) => p,
        Err(e) => return Err(e),
    };
    if start > data.len() || n > (data.len() - start) as u64 {
        return Err(DecodeError::LengthTooLong);
    }
    let end = start + n as usize;
    let mut v: Vec<u8> = Vec::new();
    let mut i: usize = start;
    while i < end
        invariant
            start <= i <= end,
            end <= data@.len(),
            v@ == data@.subrange(start as int, i as int),
        decreases end - i,
    {
        v.push(data[i]);
        i = i + 1;
        assert(v@ =~= data@.subrange(start as int, i as int));
    }
    Ok((v, end))
}

/// Serializes a byte string: its length as a compact size, then the bytes.
pub fn serialize_bytes(b: &[u8]) -> (r: Vec<u8>)
    requires
        bytes_encoding(b@).len() <= usize::MAX,
    ensures
        r@ == bytes_encoding(b@),
{
    let mut out: Vec<u8> = Vec::new();
    encode_bytes(b, &mut out);
    assert(out@ =~= bytes_encoding(b@));
    out
}

/// Deserializes a byte string from a buffer that must hold it and nothing more.
pub fn deserialize_bytes(data: &[u8]) -> (r: Result<Vec<u8>, DecodeError>)
    ensures
        match r {
            Ok(v) => bytes_deserialize(data@) == Ok::<Seq<u8>, DecodeError>(v@),
            Err(e) => bytes_deserialize(data@) == Err::<Seq<u8>, DecodeError>(e),
        },
{
    match decode_bytes(data, 0) {
        Ok((v, next)) => {
            if next == data.len() {
                Ok(v)
            } else {
                Err(DecodeError::TrailingBytes)
            }
        },
        Err(e) => Err(e),
    }
}


/// A fixed-width integer written anywhere in a stream reads back as itself,
/// and the reader stops right after it.
pub proof fn lemma_fixed_round_trip(n: nat, width: nat, prefix: Seq<u8>, suffix: Seq<u8>)
    requires
        n < pow256(width),
    ensures
        le_parse(prefix + le_bytes(n, width) + suffix, prefix.len(), width) == Ok::<(nat, nat), DecodeError>(
            (n, prefix.len() + width)),
{
    lemma_le_round_trip(n, width);
    vstd::arithmetic::div_mod::lemma_small_mod(n, pow256(width));
    let data = prefix + le_bytes(n, width) + suffix;
    assert(data.subrange(prefix.len() as int, (prefix.len() + width) as int) =~= le_bytes(n, width));
}

/// A compact size takes one byte below 0xfd, three up to 0xffff, five up to
/// 0xffff_ffff and nine above.
pub proof fn lemma_compact_size_len(n: u64)
    ensures
        compact_size_bytes(n).len() == if n < 0xfd {
            1nat
        } else if n <= 0xffff {
            3nat
        } else if n <= 0xffff_ffff {
            5nat
        } else {
            9nat
        },
{
    lemma_le_round_trip(n as nat, 2);
    lemma_le_round_trip(n as nat, 4);
    lemma_le_round_trip(n as nat, 8);
}

/// A compact size written anywhere in a stream reads back as itself, and the
/// reader stops right after it.
pub proof fn lemma_compact_size_round_trip(n: u64, prefix: Seq<u8>, suffix: Seq<u8>)
    ensures
        compact_size_parse(prefix + compact_size_bytes(n) + suffix, prefix.len()) == Ok::<
            (nat, nat),
            DecodeError,
        >((n as nat, prefix.len() + compact_size_bytes(n).len())),
{
    lemma_compact_size_len(n);
    lemma_field_powers();
    let data = prefix + compact_size_bytes(n) + suffix;
    let p = prefix.len();
    if n >= 0xfd {
        let (tag, w): (u8, nat) = if n <= 0xffff {
            (0xfdu8, 2nat)
        } else if n <= 0xffff_ffff {
            (0xfeu8, 4nat)
        } else {
            (0xffu8, 8nat)
        };
        assert(compact_size_bytes(n) == seq![tag].add(le_bytes(n as nat, w)));
        assert(data[p as int] == tag);
        assert(data =~= (prefix + seq![tag]) + le_bytes(n as nat, w) + suffix);
        lemma_fixed_round_trip(n as nat, w, prefix + seq![tag], suffix);
    } else {
        assert(data[p as int] == n as u8);
    }
}

/// A byte string written anywhere in a stream reads back as itself, and the
/// reader stops right after it.
pub proof fn lemma_bytes_round_trip(b: Seq<u8>, prefix: Seq<u8>, suffix: Seq<u8>)
    requires
        b.len() <= u64::MAX,
    ensures
        bytes_parse(prefix + bytes_encoding(b) + suffix, prefix.len()) == Ok::<(Seq<u8>, nat), DecodeError>(
            (b, prefix.len() + bytes_encoding(b).len())),
{
    let n = b.len() as u64;
    let data = prefix + bytes_encoding(b) + suffix;
    assert(data =~= prefix + compact_size_bytes(n) + (b + suffix));
    lemma_compact_size_round_trip(n, prefix, b + suffix);
    let start = prefix.len() + compact_size_bytes(n).len();
    assert(data.subrange(start as int, (start + b.len()) as int) =~= b);
}

/// Deserializing what `serialize_bytes` produced gives the same bytes back.
pub proof fn lemma_deserialize_serialize(b: Seq<u8>)
    requires
        b.len() <= u64::MAX,
    ensures
        bytes_deserialize(bytes_encoding(b)) == Ok::<Seq<u8>, DecodeError>(b),
{
    lemma_bytes_round_trip(b, Seq::empty(), Seq::empty());
    assert(Seq::<u8>::empty() + bytes_encoding(b) + Seq::<u8>::empty() =~= bytes_encoding(b));
}


/// The number that two joined byte strings stand for.
pub proof fn lemma_le_value_concat(s1: Seq<u8>, s2: Seq<u8>)
    ensures
        le_value(s1 + s2) == le_value(s1) + pow256(s1.len()) * le_value(s2),
    decreases s1.len(),
{
    if s1.len() == 0 {
        assert(s1 + s2 =~= s2);
        assert(pow256(0) == 1);
        assert(le_value(s1) == 0);
    } else {
        let t1 = s1.subrange(1, s1.len() as int);
        let j = s1 + s2;
        assert(j.subrange(1, j.len() as int) =~= t1 + s2);
        lemma_le_value_concat(t1, s2);
        assert(t1.len() == (s1.len() - 1) as nat);
        let p = pow256(t1.len());
        assert(256 * (le_value(t1) + p * le_value(s2)) == 256 * le_value(t1) + (256 * p) * le_value(s2))
            by (nonlinear_arith);
        assert(j[0] == s1[0]);
        assert(le_value(j) == j[0] as nat + 256 * le_value(t1 + s2));
        assert(le_value(s1) == s1[0] as nat + 256 * le_value(t1));
        assert(pow256(s1.len()) == 256 * p);
    }
}

/// Bytes are the little-endian writing of the number they stand for.
pub proof fn lemma_le_bytes_of_value(s: Seq<u8>)
    ensures
        le_bytes(le_value(s), s.len()) == s,
    decreases s.len(),
{
    if s.len() > 0 {
        let t = s.subrange(1, s.len() as int);
        lemma_le_bytes_of_value(t);
        let n = le_value(s);
        vstd::arithmetic::div_mod::lemma_fundamental_div_mod_converse(n as int, 256, le_value(t) as int,
            s[0] as int);
        assert(t.len() == (s.len() - 1) as nat);
        assert(le_bytes(n, s.len()) =~= s);
    }
}

/// Appends a 256-bit value as 32 little-endian bytes; returns the count written.
pub fn encode_uint256(x: &Uint256, out: &mut Vec<u8>) -> (r: usize)
    ensures
        final(out)@ == old(out)@ + le_bytes(x.value(), 32),
        r == 32,
{
    write_le(x.0[3], 8, out);
    write_le(x.0[2], 8, out);
    write_le(x.0[1], 8, out);
    write_le(x.0[0], 8, out);
    proof {
        let s3 = le_bytes(x.0[3] as nat, 8);
        let s2 = le_bytes(x.0[2] as nat, 8);
        let s1 = le_bytes(x.0[1] as nat, 8);
        let s0 = le_bytes(x.0[0] as nat, 8);
        let e = s3 + (s2 + (s1 + s0));
        assert(final(out)@ =~= old(out)@ + e);
        lemma_field_powers();
        lemma_le_round_trip(x.0[3] as nat, 8);
        lemma_le_round_trip(x.0[2] as nat, 8);
        lemma_le_round_trip(x.0[1] as nat, 8);
        lemma_le_round_trip(x.0[0] as nat, 8);
        vstd::arithmetic::div_mod::lemma_small_mod(x.0[3] as nat, pow256(8));
        vstd::arithmetic::div_mod::lemma_small_mod(x.0[2] as nat, pow256(8));
        vstd::arithmetic::div_mod::lemma_small_mod(x.0[1] as nat, pow256(8));
        vstd::arithmetic::div_mod::lemma_small_mod(x.0[0] as nat, pow256(8));
        lemma_le_value_concat(s1, s0);
        lemma_le_value_concat(s2, s1 + s0);
        lemma_le_value_concat(s3, s2 + (s1 + s0));
        lemma_horner(*x, le_value(e));
        lemma_le_bytes_of_value(e);
    }
    32
}

/// The number of four limbs, least significant first, joined in base 2^64.
proof fn lemma_horner(x: Uint256, n: nat)
    requires
        n == (x.0[3] as nat) + limb_base() * ((x.0[2] as nat) + limb_base() * ((x.0[1] as nat)
            + limb_base() * (x.0[0] as nat))),
    ensures
        n == x.value(),
{
    let b = limb_base();
    assert((x.0[3] as nat) + b * ((x.0[2] as nat) + b * ((x.0[1] as nat) + b * (x.0[0] as nat)))
        == ((((x.0[0] as nat) * b + (x.0[1] as nat)) * b + (x.0[2] as nat)) * b + (x.0[3] as nat)))
        by (nonlinear_arith);
}

/// Reads 32 little-endian bytes at `pos` as a 256-bit value; returns it and the
/// position after it.
pub fn decode_uint256(data: &[u8], pos: usize) -> (r: Result<(Uint256, usize), DecodeError>)
    ensures
        match r {
            Ok((v, next)) => le_parse(data@, pos as nat, 32) == Ok::<(nat, nat), DecodeError>(
                (v.value(), next as nat)),
            Err(e) => le_parse(data@, pos as nat, 32) == Err::<(nat, nat), DecodeError>(e),
        },
{
    let len = data.len();
    if pos > len || len - pos < 32 {
        return Err(DecodeError::UnexpectedEnd);
    }
    let l3 = read_le(data, pos, 8);
    let l2 = read_le(data, pos + 8, 8);
    let l1 = read_le(data, pos + 16, 8);
    let l0 = read_le(data, pos + 24, 8);
    let x = Uint256::from_limbs([l0, l1, l2, l3]);
    proof {
        let p = pos as int;
        let s3 = data@.subrange(p, p + 8);
        let s2 = data@.subrange(p + 8, p + 16);
        let s1 = data@.subrange(p + 16, p + 24);
        let s0 = data@.subrange(p + 24, p + 32);
        assert(data@.subrange(p, p + 32) =~= s3 + (s2 + (s1 + s0)));
        lemma_field_powers();
        lemma_le_value_concat(s1, s0);
        lemma_le_value_concat(s2, s1 + s0);
        lemma_le_value_concat(s3, s2 + (s1 + s0));
        lemma_horner(x, le_value(s3 + (s2 + (s1 + s0))));
    }
    Ok((x, pos + 32))
}

/// A 256-bit value written anywhere in a stream reads back as itself.
pub proof fn lemma_uint256_round_trip(x: Uint256, prefix: Seq<u8>, suffix: Seq<u8>)
    ensures
        le_parse(prefix + le_bytes(x.value(), 32) + suffix, prefix.len(), 32) == Ok::<(nat, nat), DecodeError>(
            (x.value(), prefix.len() + 32)),
{
    lemma_value_bounds(x);
    lemma_bound_is_pow256();
    lemma_fixed_round_trip(x.value(), 32, prefix, suffix);
}


/// A value with a consensus encoding.
pub trait Encodable {
    /// The bytes that encode this value.
    spec fn encoding(&self) -> Seq<u8>;

    /// Appends the encoding of this value; returns the count of bytes written.
    fn consensus_encode(&self, out: &mut Vec<u8>) -> (r: usize)
        requires
            old(out)@.len() + self.encoding().len() <= usize::MAX,
        ensures
            final(out)@ == old(out)@ + self.encoding(),
            r == self.encoding().len(),
    ;
}

/// A value that can be read back from its consensus encoding.
pub trait Decodable: Sized {
    /// Whether reading at `pos` in `data` gives `r`.
    spec fn decodes(data: Seq<u8>, pos: nat, r: Result<(Self, usize), DecodeError>) -> bool;

    /// Reads a value at `pos`; returns it and the position after it.
    fn consensus_decode(data: &[u8], pos: usize) -> (r: Result<(Self, usize), DecodeError>)
        ensures
            Self::decodes(data@, pos as nat, r),
    ;
}

impl Encodable for u32 {
    open spec fn encoding(&self) -> Seq<u8> {
        le_bytes(*self as nat, 4)
    }

    fn consensus_encode(&self, out: &mut Vec<u8>) -> (r: usize) {
        proof {
            lemma_le_round_trip(*self as nat, 4);
        }
        encode_u32(*self, out)
    }
}

impl Decodable for u32 {
    open spec fn decodes(data: Seq<u8>, pos: nat, r: Result<(u32, usize), DecodeError>) -> bool {
        match r {
            Ok((v, next)) => le_parse(data, pos, 4) == Ok::<(nat, nat), DecodeError>((v as nat, next as nat)),
            Err(e) => le_parse(data, pos, 4) == Err::<(nat, nat), DecodeError>(e),
        }
    }

    fn consensus_decode(data: &[u8], pos: usize) -> (r: Result<(u32, usize), DecodeError>) {
        decode_u32(data, pos)
    }
}

impl Encodable for u64 {
    open spec fn encoding(&self) -> Seq<u8> {
        le_bytes(*self as nat, 8)
    }

    fn consensus_encode(&self, out: &mut Vec<u8>) -> (r: usize) {
        proof {
            lemma_le_round_trip(*self as nat, 8);
        }
        encode_u64(*self, out)
    }
}

impl Decodable for u64 {
    open spec fn decodes(data: Seq<u8>, pos: nat, r: Result<(u64, usize), DecodeError>) -> bool {
        match r {
            Ok((v, next)) => le_parse(data, pos, 8) == Ok::<(nat, nat), DecodeError>((v as nat, next as nat)),
            Err(e) => le_parse(data, pos, 8) == Err::<(nat, nat), DecodeError>(e),
        }
    }

    fn consensus_decode(data: &[u8], pos: usize) -> (r: Result<(u64, usize), DecodeError>) {
        decode_u64(data, pos)
    }
}

impl Encodable for Uint256 {
    open spec fn encoding(&self) -> Seq<u8> {
        le_bytes(self.value(), 32)
    }

    fn consensus_encode(&self, out: &mut Vec<u8>) -> (r: usize) {
        proof {
            lemma_le_round_trip(self.value(), 32);
        }
        encode_uint256(self, out)
    }
}

impl Decodable for Uint256 {
    open spec fn decodes(data: Seq<u8>, pos: nat, r: Result<(Uint256, usize), DecodeError>) -> bool {
        match r {
            Ok((v, next)) => le_parse(data, pos, 32) == Ok::<(nat, nat), DecodeError>((v.value(), next as nat)),
            Err(e) => le_parse(data, pos, 32) == Err::<(nat, nat), DecodeError>(e),
        }
    }

    fn consensus_decode(data: &[u8], pos: usize) -> (r: Result<(Uint256, usize), DecodeError>) {
        decode_uint256(data, pos)
    }
}

impl Encodable for Vec<u8> {
    open spec fn encoding(&self) -> Seq<u8> {
        bytes_encoding(self@)
    }

    fn consensus_encode(&self, out: &mut Vec<u8>) -> (r: usize) {
        encode_bytes(self.as_slice(), out)
    }
}

impl Decodable for Vec<u8> {
    open spec fn decodes(data: Seq<u8>, pos: nat, r: Result<(Vec<u8>, usize), DecodeError>) -> bool {
        match r {
            Ok((v, next)) => bytes_parse(data, pos) == Ok::<(Seq<u8>, nat), DecodeError>((v@, next as nat)),
            Err(e) => bytes_parse(data, pos) == Err::<(Seq<u8>, nat), DecodeError>(e),
        }
    }

    fn consensus_decode(data: &[u8], pos: usize) -> (r: Result<(Vec<u8>, usize), DecodeError>) {
        decode_bytes(data, pos)
    }
}

/// Encodes a value into a fresh byte vector.
pub fn serialize<T: Encodable>(v: &T) -> (r: Vec<u8>)
    requires
        v.encoding().len() <= usize::MAX,
    ensures
        r@ == v.encoding(),
{
    let mut out: Vec<u8> = Vec::new();
    v.consensus_encode(&mut out);
    assert(out@ =~= v.encoding());
    out
}

/// Decodes a value from the start of a buffer; returns it and the count of
/// bytes it used.
pub fn deserialize_partial<T: Decodable>(data: &[u8]) -> (r: Result<(T, usize), DecodeError>)
    ensures
        T::decodes(data@, 0, r),
{
    T::consensus_decode(data, 0)
}

/// Decodes a value from a buffer that must hold it and nothing more.
pub fn deserialize<T: Decodable>(data: &[u8]) -> (r: Result<T, DecodeError>)
    ensures
        match r {
            Ok(v) => T::decodes(data@, 0, Ok((v, data@.len() as usize))),
            Err(DecodeError::TrailingBytes) => T::decodes(data@, 0, Err(DecodeError::TrailingBytes)) || exists|
                v: T,
                n: usize,
            | n != data@.len() && #[trigger] T::decodes(data@, 0, Ok((v, n))),
            Err(e) => T::decodes(data@, 0, Err(e)),
        },
{
    let r0 = T::consensus_decode(data, 0);
    match r0 {
        Ok((v, next)) => {
            if next == data.len() {
                assert(r0 == Ok::<(T, usize), DecodeError>((v, data@.len() as usize)));
                Ok(v)
            } else {
                assert(T::decodes(data@, 0, Ok((v, next))));
                Err(DecodeError::TrailingBytes)
            }
        },
        Err(e) => Err(e),
    }
}


/// A compact size whose escape byte promises more bytes than remain is
/// refused, and so is a byte string whose length prefix runs past the end.
pub proof fn lemma_short_input_rejected(data: Seq<u8>, pos: nat)
    ensures
        pos < data.len() && pos + 1 + compact_size_width(data[pos as int]) > data.len()
            ==> compact_size_parse(data, pos) == Err::<(nat, nat), DecodeError>(
            DecodeError::UnexpectedEnd),
        compact_size_parse(data, pos) is Ok && compact_size_parse(data, pos)->Ok_0.1
            + compact_size_parse(data, pos)->Ok_0.0 > data.len() ==> bytes_parse(data, pos) == Err::<
            (Seq<u8>, nat),
            DecodeError,
        >(DecodeError::LengthTooLong),
{
}

} // verus!
