//! The tablebase's byte format helpers: little-endian reads with bounds
//! checks, the base-9 board compression and the hash mixer.

use vstd::prelude::*;
use crate::board::Board;

verus! {

pub const BIT_OFFSETS: [u32; 10] = [12, 28, 32, 36, 40, 44, 48, 52, 56, 60];

pub const POWERS_OF_9: [u32; 10] = [1, 9, 81, 729, 6561, 59049, 531441, 4782969, 43046721, 387420489];

/// The value of four bytes read little-endian.
pub open spec fn le_u32(b: Seq<u8>) -> int {
    b[0] + 256 * b[1] + 65536 * b[2] + 16777216 * b[3]
}

/// The value of two bytes read little-endian.
pub open spec fn le_u16(b: Seq<u8>) -> int {
    b[0] + 256 * b[1]
}

/// The base-9 number whose first `n` digits are the cells at `BIT_OFFSETS`.
pub open spec fn compressed_value(board: u64, n: int) -> int
    decreases n,
{
    if n <= 0 {
        0
    } else {
        compressed_value(board, n - 1) + ((board >> BIT_OFFSETS@[n - 1]) & 0xf) as int * POWERS_OF_9@[n - 1] as int
    }
}

/// Reads the ten cells of a board that the tablebase indexes as base-9
/// digits, modulo 2^32.
pub fn compress_board(board: Board) -> (c: u32)
    ensures
        c == compressed_value(board, 10) % 0x1_0000_0000,
{
    proof {
        assert(BIT_OFFSETS@ =~= seq![12u32, 28, 32, 36, 40, 44, 48, 52, 56, 60]);
    }
    let mut compressed = 0u32;
    let mut idx = 0usize;
    while idx < 10
        invariant
            idx <= 10,
            BIT_OFFSETS@ =~= seq![12u32, 28, 32, 36, 40, 44, 48, 52, 56, 60],
            compressed == compressed_value(board, idx as int) % 0x1_0000_0000,
        decreases 10 - idx,
    {
        let offset = BIT_OFFSETS[idx];
        proof {
            crate::endgame::cache::lemma_and_le(board >> offset, 0xf);
        }
        let digit = ((board >> offset) & 0xf) as u32;
        proof {
            let a = compressed_value(board, idx as int);
            let t = digit as int * POWERS_OF_9@[idx as int] as int;
            vstd::arithmetic::div_mod::lemma_add_mod_noop(a, t, 0x1_0000_0000);
            vstd::arithmetic::div_mod::lemma_mod_twice(t, 0x1_0000_0000);
            vstd::arithmetic::div_mod::lemma_mod_twice(a, 0x1_0000_0000);
            assert(digit as int * POWERS_OF_9@[idx as int] as int >= 0) by (nonlinear_arith)
                requires
                    digit >= 0,
                    POWERS_OF_9@[idx as int] >= 0,
            ;
        }
        let term = digit.wrapping_mul(POWERS_OF_9[idx]);
        proof {
            let x = compressed as int + term as int;
            if x >= 0x1_0000_0000 {
                vstd::arithmetic::div_mod::lemma_mod_add_multiples_vanish(x - 0x1_0000_0000, 0x1_0000_0000);
                vstd::arithmetic::div_mod::lemma_small_mod((x - 0x1_0000_0000) as nat, 0x1_0000_0000);
            } else {
                vstd::arithmetic::div_mod::lemma_small_mod(x as nat, 0x1_0000_0000);
            }
        }
        compressed = compressed.wrapping_add(term);
        idx += 1;
    }
    compressed
}

/// The hash mixer used to index the tablebase.
pub open spec fn mix32_spec(x0: u32) -> u32 {
    let x1 = x0 ^ (x0 >> 16u32);
    let x2 = vstd::wrapping::u32_specs::wrapping_mul(x1, 0x85eb_ca77);
    let x3 = x2 ^ (x2 >> 13u32);
    let x4 = vstd::wrapping::u32_specs::wrapping_mul(x3, 0xc2b2_ae3d);
    x4 ^ (x4 >> 16u32)
}

/// Mixes the bits of a 32-bit value (see `mix32_spec`).
pub fn mix32(x: u32) -> (r: u32)
    ensures
        r == mix32_spec(x),
{
    let mut x = x;
    x ^= x >> 16;
    x = x.wrapping_mul(0x85eb_ca77);
    x ^= x >> 13;
    x = x.wrapping_mul(0xc2b2_ae3d);
    x ^ (x >> 16)
}

/// Reads four bytes at `*pos`, moving `*pos` past them. Errors, with `*pos`
/// unchanged, when the end offset overflows or lies beyond the bytes.
pub fn read_array(bytes: &[u8], pos: &mut usize) -> (r: Result<[u8; 4], &'static str>)
    ensures
        *old(pos) + 4 > usize::MAX ==> r == Err::<[u8; 4], &'static str>("tablebase offset overflow") && *final(pos) == *old(pos),
        *old(pos) + 4 <= usize::MAX && *old(pos) + 4 > bytes@.len() ==> r == Err::<[u8; 4], &'static str>("truncated tablebase") && *final(pos) == *old(pos),
        *old(pos) + 4 <= bytes@.len() ==> r is Ok && r->Ok_0@ == bytes@.subrange(*old(pos) as int, *old(pos) + 4) && *final(pos) == *old(pos) + 4,
{
    let n = bytes.len();
    let end = match pos.checked_add(4) {
        Some(end) => end,
        None => return Err("tablebase offset overflow"),
    };
    if end > n {
        return Err("truncated tablebase");
    }
    let out = [bytes[*pos], bytes[*pos + 1], bytes[*pos + 2], bytes[*pos + 3]];
    proof {
        assert(out@ =~= bytes@.subrange(*pos as int, *pos + 4));
    }
    *pos = end;
    Ok(out)
}

/// The 32-bit value of four little-endian bytes.
fn u32_from_le(b: [u8; 4]) -> (r: u32)
    ensures
        r == le_u32(b@),
{
    b[0] as u32 + (b[1] as u32) * 256 + (b[2] as u32) * 65536 + (b[3] as u32) * 16777216
}

/// Reads a little-endian `u32` at `*pos` (see `read_array`).
pub fn read_u32(bytes: &[u8], pos: &mut usize) -> (r: Result<u32, &'static str>)
    ensures
        *old(pos) + 4 > usize::MAX ==> r == Err::<u32, &'static str>("tablebase offset overflow") && *final(pos) == *old(pos),
        *old(pos) + 4 <= usize::MAX && *old(pos) + 4 > bytes@.len() ==> r == Err::<u32, &'static str>("truncated tablebase") && *final(pos) == *old(pos),
        *old(pos) + 4 <= bytes@.len() ==> r == Ok::<u32, &'static str>(le_u32(bytes@.subrange(*old(pos) as int, *old(pos) + 4)) as u32) && *final(pos) == *old(pos) + 4,
{
    match read_array(bytes, pos) {
        Ok(b) => Ok(u32_from_le(b)),
        Err(e) => Err(e),
    }
}

/// Reads a little-endian `i32` at `*pos` (see `read_array`).
pub fn read_i32(bytes: &[u8], pos: &mut usize) -> (r: Result<i32, &'static str>)
    ensures
        *old(pos) + 4 > usize::MAX ==> r == Err::<i32, &'static str>("tablebase offset overflow") && *final(pos) == *old(pos),
        *old(pos) + 4 <= usize::MAX && *old(pos) + 4 > bytes@.len() ==> r == Err::<i32, &'static str>("truncated tablebase") && *final(pos) == *old(pos),
        *old(pos) + 4 <= bytes@.len() ==> r == Ok::<i32, &'static str>(le_u32(bytes@.subrange(*old(pos) as int, *old(pos) + 4)) as u32 as i32) && *final(pos) == *old(pos) + 4,
{
    match read_array(bytes, pos) {
        Ok(b) => Ok(u32_from_le(b) as i32),
        Err(e) => Err(e),
    }
}

/// Reads a little-endian `u16` at `pos`, if the two bytes are there.
pub fn read_u16_at(bytes: &[u8], pos: usize) -> (r: Option<u16>)
    requires
        pos + 2 <= usize::MAX,
    ensures
        pos + 2 <= bytes@.len() ==> r == Some(le_u16(bytes@.subrange(pos as int, pos + 2)) as u16),
        pos + 2 > bytes@.len() ==> r is None,
{
    if pos + 2 > bytes.len() {
        return None;
    }
    Some(bytes[pos] as u16 + (bytes[pos + 1] as u16) * 256)
}

/// Checks that `len` bytes from `offset` lie within the bytes.
pub fn checked_range(bytes: &[u8], offset: u32, len: usize) -> (r: Result<(), &'static str>)
    ensures
        offset + len > usize::MAX ==> r == Err::<(), &'static str>("tablebase range overflow"),
        offset + len <= usize::MAX && offset + len > bytes@.len() ==> r == Err::<(), &'static str>("tablebase range out of bounds"),
        offset + len <= bytes@.len() ==> r is Ok,
{
    let n = bytes.len();
    let start = offset as usize;
    let end = match start.checked_add(len) {
        Some(end) => end,
        None => return Err("tablebase range overflow"),
    };
    if end <= n {
        Ok(())
    } else {
        Err("tablebase range out of bounds")
    }
}

} // verus!
