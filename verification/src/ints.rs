//! The serialization capability for the fixed-width integer types.
//!
//! An `n`-byte integer is encoded as its `n` little-endian bytes; a signed
//! value contributes its two's-complement bit pattern, folded to the
//! unsigned range by `to_unsigned`.

use vstd::prelude::*;

use crate::bytes::le_bytes;
use crate::bytes::lemma_le_bytes_injective;
use crate::bytes::lemma_le_bytes_len;
use crate::bytes::lemma_le_val_le_bytes;
use crate::bytes::lemma_p256_vals;
use crate::bytes::p256;
use crate::bytes::read_le;
use crate::bytes::write_le;
use crate::compress::Compress;

verus! {

/// The two's-complement bit pattern of `v` modulo `m`, as a number:
/// `v` itself when nonnegative, `v + m` when negative.
pub open spec fn to_unsigned(v: int, m: nat) -> nat {
    if v >= 0 {
        v as nat
    } else {
        (v + m) as nat
    }
}

/// Two values of one signed range with the same bit pattern are equal.
proof fn lemma_to_unsigned_injective(a: int, b: int, m: nat)
    requires
        -(m as int) <= 2 * a < m,
        -(m as int) <= 2 * b < m,
        to_unsigned(a, m) == to_unsigned(b, m),
    ensures
        a == b,
{
}

impl Compress for u8 {
    open spec fn enc(&self) -> Seq<u8> {
        le_bytes(*self as nat, 1)
    }

    proof fn lemma_enc_unique(s: Seq<u8>, pos: int, a: Self, b: Self) {
        lemma_le_bytes_len(a as nat, 1);
        lemma_le_bytes_len(b as nat, 1);
        lemma_p256_vals();
        lemma_le_bytes_injective(a as nat, b as nat, 1);
    }

    fn size(&self) -> (r: usize) {
        proof {
            lemma_le_bytes_len(*self as nat, 1);
        }
        1
    }

    fn compress(&self, dest: &mut Vec<u8>, pos: usize) {
        proof {
            lemma_p256_vals();
            lemma_le_bytes_len(*self as nat, 1);
        }
        write_le(dest, pos, *self as u128, 1);
    }

    fn uncompress(src: &Vec<u8>, pos: usize) -> (r: Self) {
        let ghost w = choose|v: u8|
            pos + v.enc().len() <= src@.len() && src@.subrange(
                pos as int,
                pos + v.enc().len() as int,
            ) == v.enc();
        proof {
            lemma_le_bytes_len(w as nat, 1);
            lemma_p256_vals();
            lemma_le_val_le_bytes(w as nat, 1);
        }
        let x = read_le(src, pos, 1);
        x as u8
    }

    fn read_size(src: &Vec<u8>, pos: usize) -> (r: usize) {
        proof {
            assert forall|v: u8| true implies v.enc().len() == 1 by {
                lemma_le_bytes_len(v as nat, 1);
            }
        }
        1
    }
}

impl Compress for u16 {
    open spec fn enc(&self) -> Seq<u8> {
        le_bytes(*self as nat, 2)
    }

    proof fn lemma_enc_unique(s: Seq<u8>, pos: int, a: Self, b: Self) {
        lemma_le_bytes_len(a as nat, 2);
        lemma_le_bytes_len(b as nat, 2);
        lemma_p256_vals();
        lemma_le_bytes_injective(a as nat, b as nat, 2);
    }

    fn size(&self) -> (r: usize) {
        proof {
            lemma_le_bytes_len(*self as nat, 2);
        }
        2
    }

    fn compress(&self, dest: &mut Vec<u8>, pos: usize) {
        proof {
            lemma_p256_vals();
            lemma_le_bytes_len(*self as nat, 2);
        }
        write_le(dest, pos, *self as u128, 2);
    }

    fn uncompress(src: &Vec<u8>, pos: usize) -> (r: Self) {
        let ghost w = choose|v: u16|
            pos + v.enc().len() <= src@.len() && src@.subrange(
                pos as int,
                pos + v.enc().len() as int,
            ) == v.enc();
        proof {
            lemma_le_bytes_len(w as nat, 2);
            lemma_p256_vals();
            lemma_le_val_le_bytes(w as nat, 2);
        }
        let x = read_le(src, pos, 2);
        x as u16
    }

    fn read_size(src: &Vec<u8>, pos: usize) -> (r: usize) {
        proof {
            assert forall|v: u16| true implies v.enc().len() == 2 by {
                lemma_le_bytes_len(v as nat, 2);
            }
        }
        2
    }
}

impl Compress for u32 {
    open spec fn enc(&self) -> Seq<u8> {
        le_bytes(*self as nat, 4)
    }

    proof fn lemma_enc_unique(s: Seq<u8>, pos: int, a: Self, b: Self) {
        lemma_le_bytes_len(a as nat, 4);
        lemma_le_bytes_len(b as nat, 4);
        lemma_p256_vals();
        lemma_le_bytes_injective(a as nat, b as nat, 4);
    }

    fn size(&self) -> (r: usize) {
        proof {
            lemma_le_bytes_len(*self as nat, 4);
        }
        4
    }

    fn compress(&self, dest: &mut Vec<u8>, pos: usize) {
        proof {
            lemma_p256_vals();
            lemma_le_bytes_len(*self as nat, 4);
        }
        write_le(dest, pos, *self as u128, 4);
    }

    fn uncompress(src: &Vec<u8>, pos: usize) -> (r: Self) {
        let ghost w = choose|v: u32|
            pos + v.enc().len() <= src@.len() && src@.subrange(
                pos as int,
                pos + v.enc().len() as int,
            ) == v.enc();
        proof {
            lemma_le_bytes_len(w as nat, 4);
            lemma_p256_vals();
            lemma_le_val_le_bytes(w as nat, 4);
        }
        let x = read_le(src, pos, 4);
        x as u32
    }

    fn read_size(src: &Vec<u8>, pos: usize) -> (r: usize) {
        proof {
            assert forall|v: u32| true implies v.enc().len() == 4 by {
                lemma_le_bytes_len(v as nat, 4);
            }
        }
        4
    }
}

impl Compress for u64 {
    open spec fn enc(&self) -> Seq<u8> {
        le_bytes(*self as nat, 8)
    }

    proof fn lemma_enc_unique(s: Seq<u8>, pos: int, a: Self, b: Self) {
        lemma_le_bytes_len(a as nat, 8);
        lemma_le_bytes_len(b as nat, 8);
        lemma_p256_vals();
        lemma_le_bytes_injective(a as nat, b as nat, 8);
    }

    fn size(&self) -> (r: usize) {
        proof {
            lemma_le_bytes_len(*self as nat, 8);
        }
        8
    }

    fn compress(&self, dest: &mut Vec<u8>, pos: usize) {
        proof {
            lemma_p256_vals();
            lemma_le_bytes_len(*self as nat, 8);
        }
        write_le(dest, pos, *self as u128, 8);
    }

    fn uncompress(src: &Vec<u8>, pos: usize) -> (r: Self) {
        let ghost w = choose|v: u64|
            pos + v.enc().len() <= src@.len() && src@.subrange(
                pos as int,
                pos + v.enc().len() as int,
            ) == v.enc();
        proof {
            lemma_le_bytes_len(w as nat, 8);
            lemma_p256_vals();
            lemma_le_val_le_bytes(w as nat, 8);
        }
        let x = read_le(src, pos, 8);
        x as u64
    }

    fn read_size(src: &Vec<u8>, pos: usize) -> (r: usize) {
        proof {
            assert forall|v: u64| true implies v.enc().len() == 8 by {
                lemma_le_bytes_len(v as nat, 8);
            }
        }
        8
    }
}

impl Compress for u128 {
    open spec fn enc(&self) -> Seq<u8> {
        le_bytes(*self as nat, 16)
    }

    proof fn lemma_enc_unique(s: Seq<u8>, pos: int, a: Self, b: Self) {
        lemma_le_bytes_len(a as nat, 16);
        lemma_le_bytes_len(b as nat, 16);
        lemma_p256_vals();
        lemma_le_bytes_injective(a as nat, b as nat, 16);
    }

    fn size(&self) -> (r: usize) {
        proof {
            lemma_le_bytes_len(*self as nat, 16);
        }
        16
    }

    fn compress(&self, dest: &mut Vec<u8>, pos: usize) {
        proof {
            lemma_p256_vals();
            lemma_le_bytes_len(*self as nat, 16);
        }
        write_le(dest, pos, *self, 16);
    }

    fn uncompress(src: &Vec<u8>, pos: usize) -> (r: Self) {
        let ghost w = choose|v: u128|
            pos + v.enc().len() <= src@.len() && src@.subrange(
                pos as int,
                pos + v.enc().len() as int,
            ) == v.enc();
        proof {
            lemma_le_bytes_len(w as nat, 16);
            lemma_p256_vals();
            lemma_le_val_le_bytes(w as nat, 16);
        }
        let x = read_le(src, pos, 16);
        x
    }

    fn read_size(src: &Vec<u8>, pos: usize) -> (r: usize) {
        proof {
            assert forall|v: u128| true implies v.enc().len() == 16 by {
                lemma_le_bytes_len(v as nat, 16);
            }
        }
        16
    }
}

/// The bit pattern of an `i8`, as the number `to_unsigned` names.
fn bits_of_i8(v: i8) -> (r: u8)
    ensures
        r == to_unsigned(v as int, p256(1)),
{
    proof {
        lemma_p256_vals();
    }
    if v >= 0 {
        v as u8
    } else {
        ((v - i8::MIN) as u8) + 0x80
    }
}

/// The `i8` whose bit pattern is `r`; inverse of `bits_of_i8`.
fn i8_of_bits(r: u8) -> (v: i8)
    ensures
        to_unsigned(v as int, p256(1)) == r,
{
    proof {
        lemma_p256_vals();
    }
    if r < 0x80 {
        r as i8
    } else {
        ((r - 0x80) as i8) + i8::MIN
    }
}

/// The bit pattern of an `i16`, as the number `to_unsigned` names.
fn bits_of_i16(v: i16) -> (r: u16)
    ensures
        r == to_unsigned(v as int, p256(2)),
{
    proof {
        lemma_p256_vals();
    }
    if v >= 0 {
        v as u16
    } else {
        ((v - i16::MIN) as u16) + 0x8000
    }
}

/// The `i16` whose bit pattern is `r`; inverse of `bits_of_i16`.
fn i16_of_bits(r: u16) -> (v: i16)
    ensures
        to_unsigned(v as int, p256(2)) == r,
{
    proof {
        lemma_p256_vals();
    }
    if r < 0x8000 {
        r as i16
    } else {
        ((r - 0x8000) as i16) + i16::MIN
    }
}

/// The bit pattern of an `i32`, as the number `to_unsigned` names.
fn bits_of_i32(v: i32) -> (r: u32)
    ensures
        r == to_unsigned(v as int, p256(4)),
{
    proof {
        lemma_p256_vals();
    }
    if v >= 0 {
        v as u32
    } else {
        ((v - i32::MIN) as u32) + 0x8000_0000
    }
}

/// The `i32` whose bit pattern is `r`; inverse of `bits_of_i32`.
fn i32_of_bits(r: u32) -> (v: i32)
    ensures
        to_unsigned(v as int, p256(4)) == r,
{
    proof {
        lemma_p256_vals();
    }
    if r < 0x8000_0000 {
        r as i32
    } else {
        ((r - 0x8000_0000) as i32) + i32::MIN
    }
}

/// The bit pattern of an `i64`, as the number `to_unsigned` names.
fn bits_of_i64(v: i64) -> (r: u64)
    ensures
        r == to_unsigned(v as int, p256(8)),
{
    proof {
        lemma_p256_vals();
    }
    if v >= 0 {
        v as u64
    } else {
        ((v - i64::MIN) as u64) + 0x8000_0000_0000_0000
    }
}

/// The `i64` whose bit pattern is `r`; inverse of `bits_of_i64`.
fn i64_of_bits(r: u64) -> (v: i64)
    ensures
        to_unsigned(v as int, p256(8)) == r,
{
    proof {
        lemma_p256_vals();
    }
    if r < 0x8000_0000_0000_0000 {
        r as i64
    } else {
        ((r - 0x8000_0000_0000_0000) as i64) + i64::MIN
    }
}

/// The bit pattern of an `i128`, as the number `to_unsigned` names.
fn bits_of_i128(v: i128) -> (r: u128)
    ensures
        r == to_unsigned(v as int, p256(16)),
{
    proof {
        lemma_p256_vals();
    }
    if v >= 0 {
        v as u128
    } else {
        ((v - i128::MIN) as u128) + 0x8000_0000_0000_0000_0000_0000_0000_0000
    }
}

/// The `i128` whose bit pattern is `r`; inverse of `bits_of_i128`.
fn i128_of_bits(r: u128) -> (v: i128)
    ensures
        to_unsigned(v as int, p256(16)) == r,
{
    proof {
        lemma_p256_vals();
    }
    if r < 0x8000_0000_0000_0000_0000_0000_0000_0000 {
        r as i128
    } else {
        ((r - 0x8000_0000_0000_0000_0000_0000_0000_0000) as i128) + i128::MIN
    }
}

impl Compress for i8 {
    open spec fn enc(&self) -> Seq<u8> {
        le_bytes(to_unsigned(*self as int, p256(1)), 1)
    }

    proof fn lemma_enc_unique(s: Seq<u8>, pos: int, a: Self, b: Self) {
        lemma_p256_vals();
        lemma_le_bytes_len(to_unsigned(a as int, p256(1)), 1);
        lemma_le_bytes_len(to_unsigned(b as int, p256(1)), 1);
        lemma_le_bytes_injective(to_unsigned(a as int, p256(1)), to_unsigned(b as int, p256(1)), 1);
        lemma_to_unsigned_injective(a as int, b as int, p256(1));
    }

    fn size(&self) -> (r: usize) {
        proof {
            lemma_le_bytes_len(to_unsigned(*self as int, p256(1)), 1);
        }
        1
    }

    fn compress(&self, dest: &mut Vec<u8>, pos: usize) {
        proof {
            lemma_p256_vals();
            lemma_le_bytes_len(to_unsigned(*self as int, p256(1)), 1);
        }
        let bits = bits_of_i8(*self);
        write_le(dest, pos, bits as u128, 1);
    }

    fn uncompress(src: &Vec<u8>, pos: usize) -> (r: Self) {
        let ghost w = choose|v: i8|
            pos + v.enc().len() <= src@.len() && src@.subrange(
                pos as int,
                pos + v.enc().len() as int,
            ) == v.enc();
        proof {
            lemma_le_bytes_len(to_unsigned(w as int, p256(1)), 1);
            lemma_p256_vals();
            lemma_le_val_le_bytes(to_unsigned(w as int, p256(1)), 1);
        }
        let x = read_le(src, pos, 1);
        let r = i8_of_bits(x as u8);
        proof {
            lemma_to_unsigned_injective(r as int, w as int, p256(1));
        }
        r
    }

    fn read_size(src: &Vec<u8>, pos: usize) -> (r: usize) {
        proof {
            assert forall|v: i8| true implies v.enc().len() == 1 by {
                lemma_le_bytes_len(to_unsigned(v as int, p256(1)), 1);
            }
        }
        1
    }
}

impl Compress for i16 {
    open spec fn enc(&self) -> Seq<u8> {
        le_bytes(to_unsigned(*self as int, p256(2)), 2)
    }

    proof fn lemma_enc_unique(s: Seq<u8>, pos: int, a: Self, b: Self) {
        lemma_p256_vals();
        lemma_le_bytes_len(to_unsigned(a as int, p256(2)), 2);
        lemma_le_bytes_len(to_unsigned(b as int, p256(2)), 2);
        lemma_le_bytes_injective(to_unsigned(a as int, p256(2)), to_unsigned(b as int, p256(2)), 2);
        lemma_to_unsigned_injective(a as int, b as int, p256(2));
    }

    fn size(&self) -> (r: usize) {
        proof {
            lemma_le_bytes_len(to_unsigned(*self as int, p256(2)), 2);
        }
        2
    }

    fn compress(&self, dest: &mut Vec<u8>, pos: usize) {
        proof {
            lemma_p256_vals();
            lemma_le_bytes_len(to_unsigned(*self as int, p256(2)), 2);
        }
        let bits = bits_of_i16(*self);
        write_le(dest, pos, bits as u128, 2);
    }

    fn uncompress(src: &Vec<u8>, pos: usize) -> (r: Self) {
        let ghost w = choose|v: i16|
            pos + v.enc().len() <= src@.len() && src@.subrange(
                pos as int,
                pos + v.enc().len() as int,
            ) == v.enc();
        proof {
            lemma_le_bytes_len(to_unsigned(w as int, p256(2)), 2);
            lemma_p256_vals();
            lemma_le_val_le_bytes(to_unsigned(w as int, p256(2)), 2);
        }
        let x = read_le(src, pos, 2);
        let r = i16_of_bits(x as u16);
        proof {
            lemma_to_unsigned_injective(r as int, w as int, p256(2));
        }
        r
    }

    fn read_size(src: &Vec<u8>, pos: usize) -> (r: usize) {
        proof {
            assert forall|v: i16| true implies v.enc().len() == 2 by {
                lemma_le_bytes_len(to_unsigned(v as int, p256(2)), 2);
            }
        }
        2
    }
}

impl Compress for i32 {
    open spec fn enc(&self) -> Seq<u8> {
        le_bytes(to_unsigned(*self as int, p256(4)), 4)
    }

    proof fn lemma_enc_unique(s: Seq<u8>, pos: int, a: Self, b: Self) {
        lemma_p256_vals();
        lemma_le_bytes_len(to_unsigned(a as int, p256(4)), 4);
        lemma_le_bytes_len(to_unsigned(b as int, p256(4)), 4);
        lemma_le_bytes_injective(to_unsigned(a as int, p256(4)), to_unsigned(b as int, p256(4)), 4);
        lemma_to_unsigned_injective(a as int, b as int, p256(4));
    }

    fn size(&self) -> (r: usize) {
        proof {
            lemma_le_bytes_len(to_unsigned(*self as int, p256(4)), 4);
        }
        4
    }

    fn compress(&self, dest: &mut Vec<u8>, pos: usize) {
        proof {
            lemma_p256_vals();
            lemma_le_bytes_len(to_unsigned(*self as int, p256(4)), 4);
        }
        let bits = bits_of_i32(*self);
        write_le(dest, pos, bits as u128, 4);
    }

    fn uncompress(src: &Vec<u8>, pos: usize) -> (r: Self) {
        let ghost w = choose|v: i32|
            pos + v.enc().len() <= src@.len() && src@.subrange(
                pos as int,
                pos + v.enc().len() as int,
            ) == v.enc();
        proof {
            lemma_le_bytes_len(to_unsigned(w as int, p256(4)), 4);
            lemma_p256_vals();
            lemma_le_val_le_bytes(to_unsigned(w as int, p256(4)), 4);
        }
        let x = read_le(src, pos, 4);
        let r = i32_of_bits(x as u32);
        proof {
            lemma_to_unsigned_injective(r as int, w as int, p256(4));
        }
        r
    }

    fn read_size(src: &Vec<u8>, pos: usize) -> (r: usize) {
        proof {
            assert forall|v: i32| true implies v.enc().len() == 4 by {
                lemma_le_bytes_len(to_unsigned(v as int, p256(4)), 4);
            }
        }
        4
    }
}

impl Compress for i64 {
    open spec fn enc(&self) -> Seq<u8> {
        le_bytes(to_unsigned(*self as int, p256(8)), 8)
    }

    proof fn lemma_enc_unique(s: Seq<u8>, pos: int, a: Self, b: Self) {
        lemma_p256_vals();
        lemma_le_bytes_len(to_unsigned(a as int, p256(8)), 8);
        lemma_le_bytes_len(to_unsigned(b as int, p256(8)), 8);
        lemma_le_bytes_injective(to_unsigned(a as int, p256(8)), to_unsigned(b as int, p256(8)), 8);
        lemma_to_unsigned_injective(a as int, b as int, p256(8));
    }

    fn size(&self) -> (r: usize) {
        proof {
            lemma_le_bytes_len(to_unsigned(*self as int, p256(8)), 8);
        }
        8
    }

    fn compress(&self, dest: &mut Vec<u8>, pos: usize) {
        proof {
            lemma_p256_vals();
            lemma_le_bytes_len(to_unsigned(*self as int, p256(8)), 8);
        }
        let bits = bits_of_i64(*self);
        write_le(dest, pos, bits as u128, 8);
    }

    fn uncompress(src: &Vec<u8>, pos: usize) -> (r: Self) {
        let ghost w = choose|v: i64|
            pos + v.enc().len() <= src@.len() && src@.subrange(
                pos as int,
                pos + v.enc().len() as int,
            ) == v.enc();
        proof {
            lemma_le_bytes_len(to_unsigned(w as int, p256(8)), 8);
            lemma_p256_vals();
            lemma_le_val_le_bytes(to_unsigned(w as int, p256(8)), 8);
        }
        let x = read_le(src, pos, 8);
        let r = i64_of_bits(x as u64);
        proof {
            lemma_to_unsigned_injective(r as int, w as int, p256(8));
        }
        r
    }

    fn read_size(src: &Vec<u8>, pos: usize) -> (r: usize) {
        proof {
            assert forall|v: i64| true implies v.enc().len() == 8 by {
                lemma_le_bytes_len(to_unsigned(v as int, p256(8)), 8);
            }
        }
        8
    }
}

impl Compress for i128 {
    open spec fn enc(&self) -> Seq<u8> {
        le_bytes(to_unsigned(*self as int, p256(16)), 16)
    }

    proof fn lemma_enc_unique(s: Seq<u8>, pos: int, a: Self, b: Self) {
        lemma_p256_vals();
        lemma_le_bytes_len(to_unsigned(a as int, p256(16)), 16);
        lemma_le_bytes_len(to_unsigned(b as int, p256(16)), 16);
        lemma_le_bytes_injective(
            to_unsigned(a as int, p256(16)),
            to_unsigned(b as int, p256(16)),
            16,
        );
        lemma_to_unsigned_injective(a as int, b as int, p256(16));
    }

    fn size(&self) -> (r: usize) {
        proof {
            lemma_le_bytes_len(to_unsigned(*self as int, p256(16)), 16);
        }
        16
    }

    fn compress(&self, dest: &mut Vec<u8>, pos: usize) {
        proof {
            lemma_p256_vals();
            lemma_le_bytes_len(to_unsigned(*self as int, p256(16)), 16);
        }
        let bits = bits_of_i128(*self);
        write_le(dest, pos, bits, 16);
    }

    fn uncompress(src: &Vec<u8>, pos: usize) -> (r: Self) {
        let ghost w = choose|v: i128|
            pos + v.enc().len() <= src@.len() && src@.subrange(
                pos as int,
                pos + v.enc().len() as int,
            ) == v.enc();
        proof {
            lemma_le_bytes_len(to_unsigned(w as int, p256(16)), 16);
            lemma_p256_vals();
            lemma_le_val_le_bytes(to_unsigned(w as int, p256(16)), 16);
        }
        let x = read_le(src, pos, 16);
        let r = i128_of_bits(x);
        proof {
            lemma_to_unsigned_injective(r as int, w as int, p256(16));
        }
        r
    }

    fn read_size(src: &Vec<u8>, pos: usize) -> (r: usize) {
        proof {
            assert forall|v: i128| true implies v.enc().len() == 16 by {
                lemma_le_bytes_len(to_unsigned(v as int, p256(16)), 16);
            }
        }
        16
    }
}

} // verus!
