//! The DES block cipher, and the answer that VNC authentication makes of it.

use vstd::prelude::*;

verus! {

/// The initial permutation.
pub const IP: [u8; 64] = [
    58, 50, 42, 34, 26, 18, 10, 2, 60, 52, 44, 36, 28, 20, 12, 4, 62, 54, 46, 38, 30, 22, 14, 6,
    64, 56, 48, 40, 32, 24, 16, 8, 57, 49, 41, 33, 25, 17, 9, 1, 59, 51, 43, 35, 27, 19, 11, 3, 61,
    53, 45, 37, 29, 21, 13, 5, 63, 55, 47, 39, 31, 23, 15, 7,
];

/// The final permutation, which undoes the initial one.
pub const FP: [u8; 64] = [
    40, 8, 48, 16, 56, 24, 64, 32, 39, 7, 47, 15, 55, 23, 63, 31, 38, 6, 46, 14, 54, 22, 62, 30,
    37, 5, 45, 13, 53, 21, 61, 29, 36, 4, 44, 12, 52, 20, 60, 28, 35, 3, 43, 11, 51, 19, 59, 27,
    34, 2, 42, 10, 50, 18, 58, 26, 33, 1, 41, 9, 49, 17, 57, 25,
];

/// The expansion of a half block to the width of a round key.
pub const EXPANSION: [u8; 48] = [
    32, 1, 2, 3, 4, 5, 4, 5, 6, 7, 8, 9, 8, 9, 10, 11, 12, 13, 12, 13, 14, 15, 16, 17, 16, 17, 18,
    19, 20, 21, 20, 21, 22, 23, 24, 25, 24, 25, 26, 27, 28, 29, 28, 29, 30, 31, 32, 1,
];

/// The permutation at the end of the round function.
pub const ROUND_PERMUTATION: [u8; 32] = [
    16, 7, 20, 21, 29, 12, 28, 17, 1, 15, 23, 26, 5, 18, 31, 10, 2, 8, 24, 14, 32, 27, 3, 9, 19, 13,
    30, 6, 22, 11, 4, 25,
];

/// The first permuted choice of the key schedule: it drops the parity bits.
pub const PC1: [u8; 56] = [
    57, 49, 41, 33, 25, 17, 9, 1, 58, 50, 42, 34, 26, 18, 10, 2, 59, 51, 43, 35, 27, 19, 11, 3, 60,
    52, 44, 36, 63, 55, 47, 39, 31, 23, 15, 7, 62, 54, 46, 38, 30, 22, 14, 6, 61, 53, 45, 37, 29,
    21, 13, 5, 28, 20, 12, 4,
];

/// The second permuted choice of the key schedule: it picks a round key.
pub const PC2: [u8; 48] = [
    14, 17, 11, 24, 1, 5, 3, 28, 15, 6, 21, 10, 23, 19, 12, 4, 26, 8, 16, 7, 27, 20, 13, 2, 41, 52,
    31, 37, 47, 55, 30, 40, 51, 45, 33, 48, 44, 49, 39, 56, 34, 53, 46, 42, 50, 36, 29, 32,
];

/// How far the halves of the key turn before each round.
pub const SHIFTS: [u8; 16] = [1, 1, 2, 2, 2, 2, 2, 2, 1, 2, 2, 2, 2, 2, 2, 1];

/// The eight substitution boxes, one after the other, each in four rows of
/// sixteen.
pub const SBOXES: [u8; 512] = [
    14, 4, 13, 1, 2, 15, 11, 8, 3, 10, 6, 12, 5, 9, 0, 7, 0, 15, 7, 4, 14, 2, 13, 1, 10, 6, 12, 11,
    9, 5, 3, 8, 4, 1, 14, 8, 13, 6, 2, 11, 15, 12, 9, 7, 3, 10, 5, 0, 15, 12, 8, 2, 4, 9, 1, 7, 5,
    11, 3, 14, 10, 0, 6, 13, 15, 1, 8, 14, 6, 11, 3, 4, 9, 7, 2, 13, 12, 0, 5, 10, 3, 13, 4, 7, 15,
    2, 8, 14, 12, 0, 1, 10, 6, 9, 11, 5, 0, 14, 7, 11, 10, 4, 13, 1, 5, 8, 12, 6, 9, 3, 2, 15, 13,
    8, 10, 1, 3, 15, 4, 2, 11, 6, 7, 12, 0, 5, 14, 9, 10, 0, 9, 14, 6, 3, 15, 5, 1, 13, 12, 7, 11,
    4, 2, 8, 13, 7, 0, 9, 3, 4, 6, 10, 2, 8, 5, 14, 12, 11, 15, 1, 13, 6, 4, 9, 8, 15, 3, 0, 11, 1,
    2, 12, 5, 10, 14, 7, 1, 10, 13, 0, 6, 9, 8, 7, 4, 15, 14, 3, 11, 5, 2, 12, 7, 13, 14, 3, 0, 6,
    9, 10, 1, 2, 8, 5, 11, 12, 4, 15, 13, 8, 11, 5, 6, 15, 0, 3, 4, 7, 2, 12, 1, 10, 14, 9, 10, 6,
    9, 0, 12, 11, 7, 13, 15, 1, 3, 14, 5, 2, 8, 4, 3, 15, 0, 6, 10, 1, 13, 8, 9, 4, 5, 11, 12, 7, 2,
    14, 2, 12, 4, 1, 7, 10, 11, 6, 8, 5, 3, 15, 13, 0, 14, 9, 14, 11, 2, 12, 4, 7, 13, 1, 5, 0, 15,
    10, 3, 9, 8, 6, 4, 2, 1, 11, 10, 13, 7, 8, 15, 9, 12, 5, 6, 3, 0, 14, 11, 8, 12, 7, 1, 14, 2,
    13, 6, 15, 0, 9, 10, 4, 5, 3, 12, 1, 10, 15, 9, 2, 6, 8, 0, 13, 3, 4, 14, 7, 5, 11, 10, 15, 4,
    2, 7, 12, 9, 5, 6, 1, 13, 14, 0, 11, 3, 8, 9, 14, 15, 5, 2, 8, 12, 3, 7, 0, 4, 10, 1, 13, 11, 6,
    4, 3, 2, 12, 9, 5, 15, 10, 11, 14, 1, 7, 6, 0, 8, 13, 4, 11, 2, 14, 15, 0, 8, 13, 3, 12, 9, 7,
    5, 10, 6, 1, 13, 0, 11, 7, 4, 9, 1, 10, 14, 3, 5, 12, 2, 15, 8, 6, 1, 4, 11, 13, 12, 3, 7, 14,
    10, 15, 6, 8, 0, 5, 9, 2, 6, 11, 13, 8, 1, 4, 10, 7, 9, 5, 0, 15, 14, 2, 3, 12, 13, 2, 8, 4, 6,
    15, 11, 1, 10, 9, 3, 14, 5, 0, 12, 7, 1, 15, 13, 8, 10, 3, 7, 4, 12, 5, 6, 11, 0, 14, 9, 2, 7,
    11, 4, 1, 9, 12, 14, 2, 0, 6, 10, 13, 15, 3, 5, 8, 2, 1, 14, 7, 4, 10, 8, 13, 15, 12, 9, 0, 3,
    5, 6, 11,
];

/// Bit `position` of a word of `width` bits, counted from 1 at the most
/// significant end.
pub open spec fn bit_of(word: u64, width: u64, position: u64) -> u64 {
    if 1 <= position && position <= width && width <= 64 {
        (word >> ((width - position) as u64)) & 1
    } else {
        0
    }
}

/// The word whose bits are the bits of `word` that the first `count`
/// entries of `table` name, in that order.
pub open spec fn permuted(word: u64, width: u64, table: Seq<u8>, count: int) -> u64
    decreases count,
{
    if count <= 0 {
        0
    } else {
        (permuted(word, width, table, count - 1) << 1) | bit_of(
            word,
            width,
            table[count - 1] as u64,
        )
    }
}

/// A half of the key, 28 bits wide, turned left by `by` bits.
pub open spec fn turned(half: u64, by: u64) -> u64 {
    ((half << by) | (half >> ((28 - by) as u64))) & 0x0fff_ffff
}

/// The six bits that go into substitution box `index` of a round.
pub open spec fn box_input(word: u64, index: u64) -> u64 {
    (word >> ((42 - 6 * index) as u64)) & 0x3f
}

/// Where the output for six bits stands in a substitution box: the outer
/// bits pick the row, the inner four the column.
pub open spec fn box_offset(six: u64) -> u64 {
    ((((six >> 4) & 2) | (six & 1)) * 16 + ((six >> 1) & 15)) as u64
}

/// The first `count` substitution boxes applied to a word of 48 bits.
pub open spec fn substituted(word: u64, count: int) -> u64
    decreases count,
{
    if count <= 0 {
        0
    } else {
        (substituted(word, count - 1) << 4) | SBOXES[(count - 1) * 64 + box_offset(
            box_input(word, (count - 1) as u64),
        )] as u64
    }
}

/// The round function: the half block is expanded, mixed with the round
/// key, substituted and permuted.
pub open spec fn round_function(half: u64, round_key: u64) -> u64 {
    permuted(
        substituted(permuted(half, 32, EXPANSION@, 48) ^ round_key, 8),
        32,
        ROUND_PERMUTATION@,
        32,
    )
}

/// The state of an encryption between two rounds: the halves of the key
/// and the halves of the block.
pub struct RoundState {
    pub c: u64,
    pub d: u64,
    pub left: u64,
    pub right: u64,
}

/// The state after `rounds` rounds.
pub open spec fn after_rounds(key: u64, block: u64, rounds: int) -> RoundState
    decreases rounds,
{
    if rounds <= 0 {
        let chosen = permuted(key, 64, PC1@, 56);
        let start = permuted(block, 64, IP@, 64);
        RoundState {
            c: chosen >> 28,
            d: chosen & 0x0fff_ffff,
            left: start >> 32,
            right: start & 0xffff_ffff,
        }
    } else {
        let before = after_rounds(key, block, rounds - 1);
        let c = turned(before.c, SHIFTS[rounds - 1] as u64);
        let d = turned(before.d, SHIFTS[rounds - 1] as u64);
        let round_key = permuted((c << 28) | d, 56, PC2@, 48);
        RoundState {
            c,
            d,
            left: before.right,
            right: before.left ^ round_function(before.right, round_key),
        }
    }
}

/// The DES encryption of one block of 64 bits under a key of 64 bits, of
/// which every eighth is a parity bit that is not looked at.
pub open spec fn encrypted(key: u64, block: u64) -> u64 {
    let last = after_rounds(key, block, 16);
    permuted((last.right << 32) | last.left, 64, FP@, 64)
}

/// The bits of `word` that `table` names, in that order.
fn permute(word: u64, width: u64, table: &[u8]) -> (out: u64)
    requires
        table@.len() <= 64,
    ensures
        out == permuted(word, width, table@, table@.len() as int),
{
    let mut out: u64 = 0;
    let mut i: usize = 0;
    while i < table.len()
        invariant
            i <= table.len(),
            out == permuted(word, width, table@, i as int),
        decreases table.len() - i,
    {
        let position = table[i] as u64;
        let bit: u64 = if 1 <= position && position <= width && width <= 64 {
            (word >> (width - position)) & 1
        } else {
            0
        };
        out = (out << 1) | bit;
        i = i + 1;
    }
    out
}

/// The eight substitution boxes applied to a word of 48 bits.
fn substitute(word: u64) -> (out: u64)
    ensures
        out == substituted(word, 8),
{
    let mut out: u64 = 0;
    let mut i: usize = 0;
    while i < 8
        invariant
            i <= 8,
            out == substituted(word, i as int),
        decreases 8 - i,
    {
        let six: u64 = (word >> (42 - 6 * i as u64)) & 0x3f;
        let row: u64 = ((six >> 4) & 2) | (six & 1);
        let column: u64 = (six >> 1) & 15;
        assert(row <= 3 && column <= 15) by (bit_vector)
            requires
                row == ((six >> 4) & 2) | (six & 1),
                column == (six >> 1) & 15,
        ;
        let offset: usize = (row * 16 + column) as usize;
        out = (out << 4) | SBOXES[i * 64 + offset] as u64;
        i = i + 1;
    }
    out
}

/// The round function.
fn feistel(half: u64, round_key: u64) -> (out: u64)
    ensures
        out == round_function(half, round_key),
{
    let expanded = permute(half, 32, &EXPANSION);
    let mixed = substitute(expanded ^ round_key);
    permute(mixed, 32, &ROUND_PERMUTATION)
}

/// Encrypts one block.
pub fn encrypt_block(key: u64, block: u64) -> (out: u64)
    ensures
        out == encrypted(key, block),
{
    let chosen = permute(key, 64, &PC1);
    let start = permute(block, 64, &IP);
    let mut c: u64 = chosen >> 28;
    let mut d: u64 = chosen & 0x0fff_ffff;
    let mut left: u64 = start >> 32;
    let mut right: u64 = start & 0xffff_ffff;
    let mut round: usize = 0;
    while round < 16
        invariant
            round <= 16,
            (RoundState { c, d, left, right }) == after_rounds(key, block, round as int),
        decreases 16 - round,
    {
        let by = SHIFTS[round] as u64;
        assert(by == 1 || by == 2);
        c = ((c << by) | (c >> (28 - by))) & 0x0fff_ffff;
        d = ((d << by) | (d >> (28 - by))) & 0x0fff_ffff;
        let round_key = permute((c << 28) | d, 56, &PC2);
        let next = left ^ feistel(right, round_key);
        left = right;
        right = next;
        round = round + 1;
    }
    permute((right << 32) | left, 64, &FP)
}

/// A byte with its bits in the opposite order.
pub open spec fn mirrored(byte: u8) -> u8 {
    (((byte & 0x01) << 7) | ((byte & 0x02) << 5) | ((byte & 0x04) << 3) | ((byte & 0x08) << 1) | ((
    byte & 0x10) >> 1) | ((byte & 0x20) >> 3) | ((byte & 0x40) >> 5) | ((byte & 0x80) >> 7)) as u8
}

/// A byte with its bits in the opposite order.
pub fn mirror(byte: u8) -> (out: u8)
    ensures
        out == mirrored(byte),
{
    ((byte & 0x01) << 7) | ((byte & 0x02) << 5) | ((byte & 0x04) << 3) | ((byte & 0x08) << 1) | ((
    byte & 0x10) >> 1) | ((byte & 0x20) >> 3) | ((byte & 0x40) >> 5) | ((byte & 0x80) >> 7)
}

/// Turning a byte round twice gives the byte back.
pub proof fn lemma_mirror_twice(byte: u8)
    ensures
        mirrored(mirrored(byte)) == byte,
{
    assert(mirrored(mirrored(byte)) == byte) by (bit_vector);
}

/// The word that the `count` bytes at `at` stand for, the first byte
/// highest, each byte turned round first if `mirror_each`.
pub open spec fn packed(bytes: Seq<u8>, at: int, count: int, mirror_each: bool) -> u64
    decreases count,
{
    if count <= 0 {
        0
    } else {
        (packed(bytes, at, count - 1, mirror_each) << 8) | (if mirror_each {
            mirrored(bytes[at + count - 1])
        } else {
            bytes[at + count - 1]
        }) as u64
    }
}

/// Byte `index` of a word, the highest byte being byte 0.
pub open spec fn byte_of(word: u64, index: u64) -> u8 {
    ((word >> ((56 - 8 * index) as u64)) & 0xff) as u8
}

/// The eight bytes of a word, the highest first.
pub open spec fn unpacked(word: u64) -> Seq<u8> {
    seq![
        byte_of(word, 0),
        byte_of(word, 1),
        byte_of(word, 2),
        byte_of(word, 3),
        byte_of(word, 4),
        byte_of(word, 5),
        byte_of(word, 6),
        byte_of(word, 7),
    ]
}

/// The key that VNC authentication makes of a password of eight bytes:
/// every byte with its bits in the opposite order.
pub open spec fn auth_key(password: Seq<u8>) -> u64 {
    packed(password, 0, 8, true)
}

/// The answer to a challenge of sixteen bytes: its two halves, each
/// encrypted under the key that the password gives.
pub open spec fn auth_response(password: Seq<u8>, challenge: Seq<u8>) -> Seq<u8> {
    unpacked(encrypted(auth_key(password), packed(challenge, 0, 8, false))) + unpacked(
        encrypted(auth_key(password), packed(challenge, 8, 8, false)),
    )
}

/// The word that the eight bytes at `at` stand for, the first byte highest.
fn pack(bytes: &[u8], at: usize, mirror_each: bool) -> (word: u64)
    requires
        at + 8 <= bytes@.len(),
    ensures
        word == packed(bytes@, at as int, 8, mirror_each),
{
    let mut word: u64 = 0;
    let mut i: usize = 0;
    let length = bytes.len();
    while i < 8
        invariant
            i <= 8,
            at + 8 <= bytes@.len(),
            length == bytes@.len(),
            word == packed(bytes@, at as int, i as int, mirror_each),
        decreases 8 - i,
    {
        let byte = if mirror_each {
            mirror(bytes[at + i])
        } else {
            bytes[at + i]
        };
        word = (word << 8) | byte as u64;
        i = i + 1;
    }
    word
}

/// Byte `index` of a word, the highest byte being byte 0.
fn byte_at(word: u64, index: u64) -> (byte: u8)
    requires
        index < 8,
    ensures
        byte == byte_of(word, index),
{
    let shift: u64 = 56 - 8 * index;
    let byte: u64 = (word >> shift) & 0xff;
    assert(byte <= 0xff) by (bit_vector)
        requires
            byte == (word >> shift) & 0xff,
    ;
    byte as u8
}

/// Appends the eight bytes of a word, the highest first.
fn unpack(out: &mut Vec<u8>, word: u64)
    ensures
        final(out)@ == old(out)@ + unpacked(word),
{
    out.push(byte_at(word, 0));
    out.push(byte_at(word, 1));
    out.push(byte_at(word, 2));
    out.push(byte_at(word, 3));
    out.push(byte_at(word, 4));
    out.push(byte_at(word, 5));
    out.push(byte_at(word, 6));
    out.push(byte_at(word, 7));
    assert(out@ =~= old(out)@ + unpacked(word));
}

/// Answers the server's challenge with a password of eight bytes: both
/// halves of the challenge are encrypted with DES, under the password with
/// the bits of every byte in the opposite order.
pub fn respond(password: &[u8; 8], challenge: &[u8; 16]) -> (response: Vec<u8>)
    ensures
        response@ == auth_response(password@, challenge@),
        response@.len() == 16,
{
    let key = pack(password.as_slice(), 0, true);
    let first = pack(challenge.as_slice(), 0, false);
    let second = pack(challenge.as_slice(), 8, false);
    let mut response: Vec<u8> = Vec::new();
    unpack(&mut response, encrypt_block(key, first));
    unpack(&mut response, encrypt_block(key, second));
    response
}

} // verus!
