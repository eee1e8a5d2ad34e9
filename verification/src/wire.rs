//! The byte layout of a frame: big-endian integers, the magic number and the
//! padded tags that name a message's kind.

use vstd::prelude::*;

verus! {

/// The two-byte number that opens every frame.
pub const MAGIC: u16 = 555;

/// Bytes of the magic number.
pub const MAGIC_LEN: usize = 2;

/// Bytes of a tag field.
pub const TAG_LEN: usize = 10;

/// Bytes of a frame's header: the magic number and the tag.
pub const HEADER_LEN: usize = 12;

/// Bytes of the length field in front of every string.
pub const LENGTH_LEN: usize = 8;

/// The longest first string, in bytes, that a decoder accepts.
pub const MAX_PROTOCOL_LEN: u64 = 100;

/// The `width` low base-256 digits of `x`, most significant first.
pub open spec fn be_bytes(x: nat, width: nat) -> Seq<u8>
    decreases width,
{
    if width == 0 {
        Seq::empty()
    } else {
        be_bytes(x / 256, (width - 1) as nat).push((x % 256) as u8)
    }
}

/// The number that `bytes` spell as base-256 digits, most significant first.
pub open spec fn be_value(bytes: Seq<u8>) -> nat
    decreases bytes.len(),
{
    if bytes.len() == 0 {
        0
    } else {
        be_value(bytes.drop_last()) * 256 + bytes.last() as nat
    }
}

/// Whether `x` can be written with `width` base-256 digits.
pub open spec fn fits(x: nat, width: nat) -> bool
    decreases width,
{
    if width == 0 {
        x == 0
    } else {
        fits(x / 256, (width - 1) as nat)
    }
}

/// `be_bytes` yields exactly `width` bytes.
pub proof fn lemma_be_bytes_len(x: nat, width: nat)
    ensures
        be_bytes(x, width).len() == width,
    decreases width,
{
    if width > 0 {
        lemma_be_bytes_len(x / 256, (width - 1) as nat);
    }
}

/// Reading back what `be_bytes` wrote gives the number, when it fits the width.
pub proof fn lemma_be_round_trip(x: nat, width: nat)
    requires
        fits(x, width),
    ensures
        be_value(be_bytes(x, width)) == x,
    decreases width,
{
    if width > 0 {
        let front = be_bytes(x / 256, (width - 1) as nat);
        let all = front.push((x % 256) as u8);
        lemma_be_round_trip(x / 256, (width - 1) as nat);
        assert(all.drop_last() =~= front);
        assert(all.last() == (x % 256) as u8);
    }
}

/// Every `u16` fits two bytes and every `u64` fits eight.
pub proof fn lemma_fits_machine_words(x: nat)
    ensures
        x <= u16::MAX ==> fits(x, 2),
        x <= u64::MAX ==> fits(x, 8),
{
    reveal_with_fuel(fits, 9);
}

/// A number read from `bytes` can be written back with as many digits.
pub proof fn lemma_be_value_fits(bytes: Seq<u8>)
    ensures
        fits(be_value(bytes), bytes.len()),
    decreases bytes.len(),
{
    if bytes.len() > 0 {
        lemma_be_value_fits(bytes.drop_last());
        assert((be_value(bytes.drop_last()) * 256 + bytes.last() as nat) / 256 == be_value(
            bytes.drop_last(),
        ));
    }
}

/// As many bytes as a machine word has spell no more than the word can hold.
pub proof fn lemma_be_value_bound(bytes: Seq<u8>)
    ensures
        bytes.len() <= 2 ==> be_value(bytes) <= u16::MAX,
        bytes.len() <= 8 ==> be_value(bytes) <= u64::MAX,
{
    lemma_be_value_fits(bytes);
    reveal_with_fuel(fits, 9);
}

/// The two bytes of `x`, most significant first.
pub fn be_encode_u16(x: u16) -> (out: Vec<u8>)
    ensures
        out@ == be_bytes(x as nat, 2),
{
    let mut out: Vec<u8> = Vec::new();
    out.push((x / 256) as u8);
    out.push((x % 256) as u8);
    proof {
        reveal_with_fuel(be_bytes, 3);
        assert(out@ =~= be_bytes(x as nat, 2));
    }
    out
}

/// The eight bytes of `x`, most significant first.
pub fn be_encode_u64(x: u64) -> (out: Vec<u8>)
    ensures
        out@ == be_bytes(x as nat, 8),
{
    let x1: u64 = x / 256;
    let x2: u64 = x1 / 256;
    let x3: u64 = x2 / 256;
    let x4: u64 = x3 / 256;
    let x5: u64 = x4 / 256;
    let x6: u64 = x5 / 256;
    let x7: u64 = x6 / 256;
    let mut out: Vec<u8> = Vec::new();
    out.push((x7 % 256) as u8);
    out.push((x6 % 256) as u8);
    out.push((x5 % 256) as u8);
    out.push((x4 % 256) as u8);
    out.push((x3 % 256) as u8);
    out.push((x2 % 256) as u8);
    out.push((x1 % 256) as u8);
    out.push((x % 256) as u8);
    proof {
        reveal_with_fuel(be_bytes, 9);
        assert(out@ =~= be_bytes(x as nat, 8));
    }
    out
}

/// The number that at most eight bytes spell, most significant first.
pub fn be_decode(bytes: &[u8]) -> (value: u64)
    requires
        bytes@.len() <= 8,
    ensures
        value == be_value(bytes@),
{
    let mut value: u64 = 0;
    let mut i: usize = 0;
    while i < bytes.len()
        invariant
            i <= bytes@.len() <= 8,
            value == be_value(bytes@.subrange(0, i as int)),
            fits(value as nat, i as nat),
        decreases bytes@.len() - i,
    {
        proof {
            let next = bytes@.subrange(0, i + 1);
            assert(next.drop_last() =~= bytes@.subrange(0, i as int));
            assert(next.last() == bytes@[i as int]);
            lemma_be_value_fits(next);
            lemma_be_value_bound(next);
        }
        value = value * 256 + bytes[i] as u64;
        i += 1;
    }
    proof {
        assert(bytes@.subrange(0, i as int) =~= bytes@);
    }
    value
}

} // verus!
