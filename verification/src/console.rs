//! The text of the numbers that bring-up writes to the console.
use vstd::prelude::*;

verus! {

/// The upper-case hexadecimal digit for a value below 16, as an ASCII byte.
pub open spec fn hex_digit(val: u8) -> u8 {
    if val < 10 {
        (48 + val) as u8
    } else {
        (55 + val) as u8
    }
}

/// Byte `k` of `v`, counted from the most significant of `bytes` bytes.
pub open spec fn byte_from_top(v: u64, bytes: int, k: int) -> u8 {
    ((v >> ((8 * (bytes - 1 - k)) as u64)) & 0xFF) as u8
}

/// The text of `v` as `bytes` bytes: "0x", then two hexadecimal digits per
/// byte from the most significant on, the bytes separated by '_'.
pub open spec fn hex_text(v: u64, bytes: int) -> Seq<u8> {
    Seq::new(
        (3 * bytes + 1) as nat,
        |i: int|
            if i == 0 {
                48u8
            } else if i == 1 {
                120u8
            } else if i % 3 == 2 {
                hex_digit(byte_from_top(v, bytes, (i - 2) / 3) >> 4)
            } else if i % 3 == 0 {
                hex_digit(byte_from_top(v, bytes, (i - 2) / 3) & 0xF)
            } else {
                95u8
            },
    )
}

/// Both nibbles of a byte are below 16.
proof fn lemma_nibbles(b: u8)
    by (bit_vector)
    ensures
        b >> 4 < 16,
        b & 0xF < 16,
        (b & 0xF0) >> 4 == b >> 4,
{
}

/// The hexadecimal digit of a nibble.
pub fn nibble_char(val: u8) -> (c: u8)
    requires
        val < 16,
    ensures
        c == hex_digit(val),
{
    if val < 10 {
        48 + val
    } else {
        55 + val
    }
}

/// Appends the text of the low `bytes` bytes of `v` to "0x".
fn format_bytes(v: u64, bytes: usize) -> (text: Vec<u8>)
    requires
        1 <= bytes <= 8,
    ensures
        text@ == hex_text(v, bytes as int),
{
    let mut text: Vec<u8> = Vec::new();
    text.push(48);
    text.push(120);
    let mut k: usize = 0;
    while k < bytes
        invariant
            k <= bytes <= 8,
            1 <= bytes,
            text@.len() == if k == 0 {
                2int
            } else {
                3 * k + 1
            },
            forall|i: int| 0 <= i < text@.len() ==> text@[i] == hex_text(v, bytes as int)[i],
        decreases bytes - k,
    {
        let shift: u64 = 8 * (bytes - 1 - k) as u64;
        let value: u8 = ((v >> shift) & 0xFF) as u8;
        proof {
            lemma_nibbles(value);
        }
        if k > 0 {
            text.push(95);
        }
        text.push(nibble_char(value >> 4));
        text.push(nibble_char(value & 0xF));
        k += 1;
    }
    assert(text@ =~= hex_text(v, bytes as int));
    text
}

/// The text of a 32-bit number: "0x12_34_56_78".
pub fn format_u32(v: u32) -> (text: Vec<u8>)
    ensures
        text@ == hex_text(v as u64, 4),
{
    format_bytes(v as u64, 4)
}

/// The text of a 64-bit number: "0x01_23_45_67_89_AB_CD_EF".
pub fn format_u64(v: u64) -> (text: Vec<u8>)
    ensures
        text@ == hex_text(v, 8),
{
    format_bytes(v, 8)
}

} // verus!
