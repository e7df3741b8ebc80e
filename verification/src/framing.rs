//! The byte layout of one slot: an 8-byte big-endian payload length, the
//! payload, and zero bytes up to the stride.

use vstd::prelude::*;

verus! {

/// The number that eight bytes spell in big-endian order.
pub open spec fn be_value(b: Seq<u8>) -> nat
    recommends
        b.len() == 8,
{
    (((((((b[0] as nat * 256 + b[1] as nat) * 256 + b[2] as nat) * 256 + b[3] as nat) * 256
        + b[4] as nat) * 256 + b[5] as nat) * 256 + b[6] as nat) * 256 + b[7] as nat) as nat
}

/// The eight bytes that spell `x` in big-endian order.
pub open spec fn be_bytes(x: u64) -> Seq<u8> {
    seq![
        (x / 0x100_0000_0000_0000) as u8,
        (x / 0x1_0000_0000_0000 % 256) as u8,
        (x / 0x100_0000_0000 % 256) as u8,
        (x / 0x1_0000_0000 % 256) as u8,
        (x / 0x100_0000 % 256) as u8,
        (x / 0x1_0000 % 256) as u8,
        (x / 0x100 % 256) as u8,
        (x % 256) as u8,
    ]
}

/// `n` zero bytes.
pub open spec fn zeros(n: nat) -> Seq<u8> {
    Seq::new(n, |i: int| 0u8)
}

/// A payload can be stored in a slot of width `stride`: it is not empty and
/// leaves room for the length prefix.
pub open spec fn fits(payload: Seq<u8>, stride: nat) -> bool {
    0 < payload.len() && payload.len() + 8 <= stride
}

/// The `stride` bytes of a slot that holds `payload`.
pub open spec fn slot_image(payload: Seq<u8>, stride: nat) -> Seq<u8>
    recommends
        fits(payload, stride),
{
    be_bytes(payload.len() as u64) + payload + zeros((stride - 8 - payload.len()) as nat)
}

/// Decoding undoes encoding, and an encoding is eight bytes long.
pub proof fn lemma_be_round_trip(x: u64)
    ensures
        be_bytes(x).len() == 8,
        be_value(be_bytes(x)) == x,
{
    let b = be_bytes(x);
    let x7 = x as nat / 256;
    let x6 = x7 / 256;
    let x5 = x6 / 256;
    let x4 = x5 / 256;
    let x3 = x4 / 256;
    let x2 = x3 / 256;
    let x1 = x2 / 256;
    assert(x as nat == x7 * 256 + b[7] as nat);
    assert(x7 == x6 * 256 + b[6] as nat);
    assert(x6 == x5 * 256 + b[5] as nat);
    assert(x5 == x4 * 256 + b[4] as nat);
    assert(x4 == x3 * 256 + b[3] as nat);
    assert(x3 == x2 * 256 + b[2] as nat);
    assert(x2 == x1 * 256 + b[1] as nat);
    assert(x1 == b[0] as nat);
}

/// Eight bytes spell zero exactly when each of them is zero.
pub proof fn lemma_be_zero(b: Seq<u8>)
    requires
        b.len() == 8,
    ensures
        be_value(b) == 0 <==> b == zeros(8),
        be_value(b) <= u64::MAX,
{
    if be_value(b) == 0 {
        assert(b =~= zeros(8));
    }
}

/// The image of a payload that fits is `stride` bytes long, opens with the
/// payload's length and carries the payload right behind it.
pub proof fn lemma_slot_image(payload: Seq<u8>, stride: nat)
    requires
        fits(payload, stride),
        stride <= u64::MAX,
    ensures
        slot_image(payload, stride).len() == stride,
        slot_image(payload, stride).subrange(0, 8) == be_bytes(payload.len() as u64),
        be_value(slot_image(payload, stride).subrange(0, 8)) == payload.len(),
        slot_image(payload, stride).subrange(8, 8 + payload.len() as int) == payload,
        slot_image(payload, stride).subrange(8 + payload.len() as int, stride as int) == zeros(
            (stride - 8 - payload.len()) as nat,
        ),
{
    let img = slot_image(payload, stride);
    lemma_be_round_trip(payload.len() as u64);
    assert(img.subrange(0, 8) =~= be_bytes(payload.len() as u64));
    assert(img.subrange(8, 8 + payload.len() as int) =~= payload);
    assert(img.subrange(8 + payload.len() as int, stride as int) =~= zeros(
        (stride - 8 - payload.len()) as nat,
    ));
}

/// Writes `len` as eight big-endian bytes at the end of `out`.
pub fn push_length(out: &mut Vec<u8>, len: u64)
    ensures
        final(out)@ == old(out)@ + be_bytes(len),
{
    out.push((len / 0x100_0000_0000_0000) as u8);
    out.push((len / 0x1_0000_0000_0000 % 256) as u8);
    out.push((len / 0x100_0000_0000 % 256) as u8);
    out.push((len / 0x1_0000_0000 % 256) as u8);
    out.push((len / 0x100_0000 % 256) as u8);
    out.push((len / 0x1_0000 % 256) as u8);
    out.push((len / 0x100 % 256) as u8);
    out.push((len % 256) as u8);
    assert(out@ =~= old(out)@ + be_bytes(len));
}

/// Reads the eight big-endian bytes that start at `at`.
pub fn read_length(data: &[u8], at: usize) -> (len: u64)
    requires
        at + 8 <= data@.len(),
    ensures
        len == be_value(data@.subrange(at as int, at + 8)),
{
    let ghost b = data@.subrange(at as int, at + 8);
    assert(b.len() == 8);
    let b0: u64 = data[at] as u64;
    let b1: u64 = data[at + 1] as u64;
    let b2: u64 = data[at + 2] as u64;
    let b3: u64 = data[at + 3] as u64;
    let b4: u64 = data[at + 4] as u64;
    let b5: u64 = data[at + 5] as u64;
    let b6: u64 = data[at + 6] as u64;
    let b7: u64 = data[at + 7] as u64;
    assert(b0 == b[0] && b1 == b[1] && b2 == b[2] && b3 == b[3]);
    assert(b4 == b[4] && b5 == b[5] && b6 == b[6] && b7 == b[7]);
    (((((((b0 * 256 + b1) * 256 + b2) * 256 + b3) * 256 + b4) * 256 + b5) * 256 + b6) * 256 + b7)
}

} // verus!
