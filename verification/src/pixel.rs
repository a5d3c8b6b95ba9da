use vstd::prelude::*;

verus! {

/// The 32-bit word stored as `bytes` (lowest address first) on a little-endian machine.
pub open spec fn le_word(bytes: Seq<u8>) -> int {
    bytes[0] + bytes[1] * 0x100 + bytes[2] * 0x1_0000 + bytes[3] * 0x100_0000
}

/// The 32-bit word stored as `bytes` (lowest address first) on a big-endian machine.
pub open spec fn be_word(bytes: Seq<u8>) -> int {
    bytes[3] + bytes[2] * 0x100 + bytes[1] * 0x1_0000 + bytes[0] * 0x100_0000
}

/// `c` is the canvas pixel whose bytes in memory are `bytes` (R, G, B, A): the
/// bytes read in the machine's byte order.
pub open spec fn is_pixel_of(c: u32, bytes: Seq<u8>) -> bool {
    c == le_word(bytes) || c == be_word(bytes)
}

/// `c` is the pixel with bytes 0, 0, 0, 255 (opaque black).
pub open spec fn is_opaque_black(c: u32) -> bool {
    is_pixel_of(c, seq![0u8, 0u8, 0u8, 255u8])
}

/// `u32::from_ne_bytes`: the four bytes read as a `u32` in the machine's byte
/// order. Which of the two orders applies depends on the machine, so the contract
/// states only that it is one of them.
#[verifier::external_body]
fn word_from_ne_bytes(bytes: [u8; 4]) -> (r: u32)
    ensures
        is_pixel_of(r, bytes@),
{
    u32::from_ne_bytes(bytes)
}

/// The canvas pixel whose bytes in memory are `r`, `g`, `b`, `a`.
pub fn pixel_rgba(r: u8, g: u8, b: u8, a: u8) -> (p: u32)
    ensures
        is_pixel_of(p, seq![r, g, b, a]),
{
    let bytes = [r, g, b, a];
    assert(bytes@ =~= seq![r, g, b, a]);
    word_from_ne_bytes(bytes)
}

} // verus!
