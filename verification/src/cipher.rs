//! The SM4 block-cipher primitive: a fixed-key, deterministic, invertible
//! transform of one 128-bit block.
//!
//! A cipher value holds the 32 round keys expanded from a 16-byte key.
//! `enc_block` and `dec_block` give the mathematical meaning of one block
//! transform; `lemma_block_round_trip` proves that decryption inverts
//! encryption for every cipher and every 16-byte block.

use vstd::prelude::*;

verus! {

/// First key-schedule constant.
pub const FK0: u32 = 0xa3b1_bac6;

/// Second key-schedule constant.
pub const FK1: u32 = 0x56aa_3350;

/// Third key-schedule constant.
pub const FK2: u32 = 0x677d_9197;

/// Fourth key-schedule constant.
pub const FK3: u32 = 0xb270_22dc;

// ---------------------------------------------------------------------------
// Words and bytes
// ---------------------------------------------------------------------------

/// The most significant byte of a 32-bit word.
pub open spec fn byte0(x: u32) -> u8 {
    ((x >> 24) & 0xff) as u8
}

/// The second byte of a 32-bit word.
pub open spec fn byte1(x: u32) -> u8 {
    ((x >> 16) & 0xff) as u8
}

/// The third byte of a 32-bit word.
pub open spec fn byte2(x: u32) -> u8 {
    ((x >> 8) & 0xff) as u8
}

/// The least significant byte of a 32-bit word.
pub open spec fn byte3(x: u32) -> u8 {
    (x & 0xff) as u8
}

/// Byte `j` of a 32-bit word, counting from the most significant byte.
pub open spec fn byte_of(x: u32, j: int) -> u8 {
    if j == 0 {
        byte0(x)
    } else if j == 1 {
        byte1(x)
    } else if j == 2 {
        byte2(x)
    } else {
        byte3(x)
    }
}

/// The big-endian 32-bit word made of four bytes.
pub open spec fn word_from_bytes(b0: u8, b1: u8, b2: u8, b3: u8) -> u32 {
    (((b0 as u32) << 24) | ((b1 as u32) << 16) | ((b2 as u32) << 8) | (b3 as u32)) as u32
}

/// Word `k` of a 16-byte block read big-endian.
pub open spec fn word_of_block(b: Seq<u8>, k: int) -> u32 {
    word_from_bytes(b[4 * k], b[4 * k + 1], b[4 * k + 2], b[4 * k + 3])
}

/// The four big-endian words of a 16-byte block.
pub open spec fn words_of_block(b: Seq<u8>) -> (u32, u32, u32, u32) {
    (word_of_block(b, 0), word_of_block(b, 1), word_of_block(b, 2), word_of_block(b, 3))
}

/// Component `k` of a four-word state.
pub open spec fn word_at(s: (u32, u32, u32, u32), k: int) -> u32 {
    if k == 0 {
        s.0
    } else if k == 1 {
        s.1
    } else if k == 2 {
        s.2
    } else {
        s.3
    }
}

/// The 16-byte block whose big-endian words are the four-word state.
pub open spec fn block_of_words(s: (u32, u32, u32, u32)) -> Seq<u8> {
    Seq::new(16, |i: int| byte_of(word_at(s, i / 4), i % 4))
}

/// Reading the bytes of a word back yields the word.
pub proof fn lemma_word_bytes_id(x: u32)
    ensures
        word_from_bytes(byte0(x), byte1(x), byte2(x), byte3(x)) == x,
{
    assert(word_from_bytes(byte0(x), byte1(x), byte2(x), byte3(x)) == x) by (bit_vector);
}

/// The bytes of a word assembled from four bytes are those bytes.
pub proof fn lemma_bytes_word_id(b0: u8, b1: u8, b2: u8, b3: u8)
    ensures
        byte0(word_from_bytes(b0, b1, b2, b3)) == b0,
        byte1(word_from_bytes(b0, b1, b2, b3)) == b1,
        byte2(word_from_bytes(b0, b1, b2, b3)) == b2,
        byte3(word_from_bytes(b0, b1, b2, b3)) == b3,
{
    assert(byte0(word_from_bytes(b0, b1, b2, b3)) == b0 && byte1(word_from_bytes(b0, b1, b2, b3))
        == b1 && byte2(word_from_bytes(b0, b1, b2, b3)) == b2 && byte3(
        word_from_bytes(b0, b1, b2, b3),
    ) == b3) by (bit_vector);
}

/// Splitting a 16-byte block into words and reassembling it is the identity.
pub proof fn lemma_block_words_id(b: Seq<u8>)
    requires
        b.len() == 16,
    ensures
        block_of_words(words_of_block(b)) == b,
{
    let s = words_of_block(b);
    let r = block_of_words(s);
    lemma_bytes_word_id(b[0], b[1], b[2], b[3]);
    lemma_bytes_word_id(b[4], b[5], b[6], b[7]);
    lemma_bytes_word_id(b[8], b[9], b[10], b[11]);
    lemma_bytes_word_id(b[12], b[13], b[14], b[15]);
    assert forall|i: int| 0 <= i < 16 implies r[i] == b[i] by {
        if i == 0 {
            assert(r[0] == byte0(s.0));
        } else if i == 1 {
            assert(r[1] == byte1(s.0));
        } else if i == 2 {
            assert(r[2] == byte2(s.0));
        } else if i == 3 {
            assert(r[3] == byte3(s.0));
        } else if i == 4 {
            assert(r[4] == byte0(s.1));
        } else if i == 5 {
            assert(r[5] == byte1(s.1));
        } else if i == 6 {
            assert(r[6] == byte2(s.1));
        } else if i == 7 {
            assert(r[7] == byte3(s.1));
        } else if i == 8 {
            assert(r[8] == byte0(s.2));
        } else if i == 9 {
            assert(r[9] == byte1(s.2));
        } else if i == 10 {
            assert(r[10] == byte2(s.2));
        } else if i == 11 {
            assert(r[11] == byte3(s.2));
        } else if i == 12 {
            assert(r[12] == byte0(s.3));
        } else if i == 13 {
            assert(r[13] == byte1(s.3));
        } else if i == 14 {
            assert(r[14] == byte2(s.3));
        } else {
            assert(r[15] == byte3(s.3));
        }
    }
    assert(r =~= b);
}

/// A block built from four words reads back as those words.
pub proof fn lemma_words_block_id(s: (u32, u32, u32, u32))
    ensures
        words_of_block(block_of_words(s)) == s,
{
    let b = block_of_words(s);
    lemma_word_bytes_id(s.0);
    lemma_word_bytes_id(s.1);
    lemma_word_bytes_id(s.2);
    lemma_word_bytes_id(s.3);
    assert(b[0] == byte0(s.0) && b[1] == byte1(s.0) && b[2] == byte2(s.0) && b[3] == byte3(s.0));
    assert(b[4] == byte0(s.1) && b[5] == byte1(s.1) && b[6] == byte2(s.1) && b[7] == byte3(s.1));
    assert(b[8] == byte0(s.2) && b[9] == byte1(s.2) && b[10] == byte2(s.2) && b[11] == byte3(s.2));
    assert(b[12] == byte0(s.3) && b[13] == byte1(s.3) && b[14] == byte2(s.3) && b[15] == byte3(
        s.3,
    ));
    assert(word_of_block(b, 0) == s.0);
    assert(word_of_block(b, 1) == s.1);
    assert(word_of_block(b, 2) == s.2);
    assert(word_of_block(b, 3) == s.3);
}

/// A byte sequence equal to the bytes of a four-word state, pointwise, is
/// the block of that state.
proof fn lemma_block_of_words_bytes(s: (u32, u32, u32, u32), b: Seq<u8>)
    requires
        b.len() == 16,
        b[0] == byte0(s.0),
        b[1] == byte1(s.0),
        b[2] == byte2(s.0),
        b[3] == byte3(s.0),
        b[4] == byte0(s.1),
        b[5] == byte1(s.1),
        b[6] == byte2(s.1),
        b[7] == byte3(s.1),
        b[8] == byte0(s.2),
        b[9] == byte1(s.2),
        b[10] == byte2(s.2),
        b[11] == byte3(s.2),
        b[12] == byte0(s.3),
        b[13] == byte1(s.3),
        b[14] == byte2(s.3),
        b[15] == byte3(s.3),
    ensures
        b == block_of_words(s),
{
    let r = block_of_words(s);
    assert forall|i: int| 0 <= i < 16 implies r[i] == b[i] by {
        if i == 0 {
            assert(r[0] == byte0(s.0));
        } else if i == 1 {
            assert(r[1] == byte1(s.0));
        } else if i == 2 {
            assert(r[2] == byte2(s.0));
        } else if i == 3 {
            assert(r[3] == byte3(s.0));
        } else if i == 4 {
            assert(r[4] == byte0(s.1));
        } else if i == 5 {
            assert(r[5] == byte1(s.1));
        } else if i == 6 {
            assert(r[6] == byte2(s.1));
        } else if i == 7 {
            assert(r[7] == byte3(s.1));
        } else if i == 8 {
            assert(r[8] == byte0(s.2));
        } else if i == 9 {
            assert(r[9] == byte1(s.2));
        } else if i == 10 {
            assert(r[10] == byte2(s.2));
        } else if i == 11 {
            assert(r[11] == byte3(s.2));
        } else if i == 12 {
            assert(r[12] == byte0(s.3));
        } else if i == 13 {
            assert(r[13] == byte1(s.3));
        } else if i == 14 {
            assert(r[14] == byte2(s.3));
        } else {
            assert(r[15] == byte3(s.3));
        }
    }
    assert(b =~= r);
}

// ---------------------------------------------------------------------------
// Substitution box and key-schedule constants
// ---------------------------------------------------------------------------

spec fn s_box_row_0(b: u8) -> u8 {
    if b == 0x00 {
        0xd6
    } else if b == 0x01 {
        0x90
    } else if b == 0x02 {
        0xe9
    } else if b == 0x03 {
        0xfe
    } else if b == 0x04 {
        0xcc
    } else if b == 0x05 {
        0xe1
    } else if b == 0x06 {
        0x3d
    } else if b == 0x07 {
        0xb7
    } else if b == 0x08 {
        0x16
    } else if b == 0x09 {
        0xb6
    } else if b == 0x0a {
        0x14
    } else if b == 0x0b {
        0xc2
    } else if b == 0x0c {
        0x28
    } else if b == 0x0d {
        0xfb
    } else if b == 0x0e {
        0x2c
    } else {
        0x05
    }
}

spec fn s_box_row_1(b: u8) -> u8 {
    if b == 0x10 {
        0x2b
    } else if b == 0x11 {
        0x67
    } else if b == 0x12 {
        0x9a
    } else if b == 0x13 {
        0x76
    } else if b == 0x14 {
        0x2a
    } else if b == 0x15 {
        0xbe
    } else if b == 0x16 {
        0x04
    } else if b == 0x17 {
        0xc3
    } else if b == 0x18 {
        0xaa
    } else if b == 0x19 {
        0x44
    } else if b == 0x1a {
        0x13
    } else if b == 0x1b {
        0x26
    } else if b == 0x1c {
        0x49
    } else if b == 0x1d {
        0x86
    } else if b == 0x1e {
        0x06
    } else {
        0x99
    }
}

spec fn s_box_row_2(b: u8) -> u8 {
    if b == 0x20 {
        0x9c
    } else if b == 0x21 {
        0x42
    } else if b == 0x22 {
        0x50
    } else if b == 0x23 {
        0xf4
    } else if b == 0x24 {
        0x91
    } else if b == 0x25 {
        0xef
    } else if b == 0x26 {
        0x98
    } else if b == 0x27 {
        0x7a
    } else if b == 0x28 {
        0x33
    } else if b == 0x29 {
        0x54
    } else if b == 0x2a {
        0x0b
    } else if b == 0x2b {
        0x43
    } else if b == 0x2c {
        0xed
    } else if b == 0x2d {
        0xcf
    } else if b == 0x2e {
        0xac
    } else {
        0x62
    }
}

spec fn s_box_row_3(b: u8) -> u8 {
    if b == 0x30 {
        0xe4
    } else if b == 0x31 {
        0xb3
    } else if b == 0x32 {
        0x1c
    } else if b == 0x33 {
        0xa9
    } else if b == 0x34 {
        0xc9
    } else if b == 0x35 {
        0x08
    } else if b == 0x36 {
        0xe8
    } else if b == 0x37 {
        0x95
    } else if b == 0x38 {
        0x80
    } else if b == 0x39 {
        0xdf
    } else if b == 0x3a {
        0x94
    } else if b == 0x3b {
        0xfa
    } else if b == 0x3c {
        0x75
    } else if b == 0x3d {
        0x8f
    } else if b == 0x3e {
        0x3f
    } else {
        0xa6
    }
}

spec fn s_box_row_4(b: u8) -> u8 {
    if b == 0x40 {
        0x47
    } else if b == 0x41 {
        0x07
    } else if b == 0x42 {
        0xa7
    } else if b == 0x43 {
        0xfc
    } else if b == 0x44 {
        0xf3
    } else if b == 0x45 {
        0x73
    } else if b == 0x46 {
        0x17
    } else if b == 0x47 {
        0xba
    } else if b == 0x48 {
        0x83
    } else if b == 0x49 {
        0x59
    } else if b == 0x4a {
        0x3c
    } else if b == 0x4b {
        0x19
    } else if b == 0x4c {
        0xe6
    } else if b == 0x4d {
        0x85
    } else if b == 0x4e {
        0x4f
    } else {
        0xa8
    }
}

spec fn s_box_row_5(b: u8) -> u8 {
    if b == 0x50 {
        0x68
    } else if b == 0x51 {
        0x6b
    } else if b == 0x52 {
        0x81
    } else if b == 0x53 {
        0xb2
    } else if b == 0x54 {
        0x71
    } else if b == 0x55 {
        0x64
    } else if b == 0x56 {
        0xda
    } else if b == 0x57 {
        0x8b
    } else if b == 0x58 {
        0xf8
    } else if b == 0x59 {
        0xeb
    } else if b == 0x5a {
        0x0f
    } else if b == 0x5b {
        0x4b
    } else if b == 0x5c {
        0x70
    } else if b == 0x5d {
        0x56
    } else if b == 0x5e {
        0x9d
    } else {
        0x35
    }
}

spec fn s_box_row_6(b: u8) -> u8 {
    if b == 0x60 {
        0x1e
    } else if b == 0x61 {
        0x24
    } else if b == 0x62 {
        0x0e
    } else if b == 0x63 {
        0x5e
    } else if b == 0x64 {
        0x63
    } else if b == 0x65 {
        0x58
    } else if b == 0x66 {
        0xd1
    } else if b == 0x67 {
        0xa2
    } else if b == 0x68 {
        0x25
    } else if b == 0x69 {
        0x22
    } else if b == 0x6a {
        0x7c
    } else if b == 0x6b {
        0x3b
    } else if b == 0x6c {
        0x01
    } else if b == 0x6d {
        0x21
    } else if b == 0x6e {
        0x78
    } else {
        0x87
    }
}

spec fn s_box_row_7(b: u8) -> u8 {
    if b == 0x70 {
        0xd4
    } else if b == 0x71 {
        0x00
    } else if b == 0x72 {
        0x46
    } else if b == 0x73 {
        0x57
    } else if b == 0x74 {
        0x9f
    } else if b == 0x75 {
        0xd3
    } else if b == 0x76 {
        0x27
    } else if b == 0x77 {
        0x52
    } else if b == 0x78 {
        0x4c
    } else if b == 0x79 {
        0x36
    } else if b == 0x7a {
        0x02
    } else if b == 0x7b {
        0xe7
    } else if b == 0x7c {
        0xa0
    } else if b == 0x7d {
        0xc4
    } else if b == 0x7e {
        0xc8
    } else {
        0x9e
    }
}

spec fn s_box_row_8(b: u8) -> u8 {
    if b == 0x80 {
        0xea
    } else if b == 0x81 {
        0xbf
    } else if b == 0x82 {
        0x8a
    } else if b == 0x83 {
        0xd2
    } else if b == 0x84 {
        0x40
    } else if b == 0x85 {
        0xc7
    } else if b == 0x86 {
        0x38
    } else if b == 0x87 {
        0xb5
    } else if b == 0x88 {
        0xa3
    } else if b == 0x89 {
        0xf7
    } else if b == 0x8a {
        0xf2
    } else if b == 0x8b {
        0xce
    } else if b == 0x8c {
        0xf9
    } else if b == 0x8d {
        0x61
    } else if b == 0x8e {
        0x15
    } else {
        0xa1
    }
}

spec fn s_box_row_9(b: u8) -> u8 {
    if b == 0x90 {
        0xe0
    } else if b == 0x91 {
        0xae
    } else if b == 0x92 {
        0x5d
    } else if b == 0x93 {
        0xa4
    } else if b == 0x94 {
        0x9b
    } else if b == 0x95 {
        0x34
    } else if b == 0x96 {
        0x1a
    } else if b == 0x97 {
        0x55
    } else if b == 0x98 {
        0xad
    } else if b == 0x99 {
        0x93
    } else if b == 0x9a {
        0x32
    } else if b == 0x9b {
        0x30
    } else if b == 0x9c {
        0xf5
    } else if b == 0x9d {
        0x8c
    } else if b == 0x9e {
        0xb1
    } else {
        0xe3
    }
}

spec fn s_box_row_10(b: u8) -> u8 {
    if b == 0xa0 {
        0x1d
    } else if b == 0xa1 {
        0xf6
    } else if b == 0xa2 {
        0xe2
    } else if b == 0xa3 {
        0x2e
    } else if b == 0xa4 {
        0x82
    } else if b == 0xa5 {
        0x66
    } else if b == 0xa6 {
        0xca
    } else if b == 0xa7 {
        0x60
    } else if b == 0xa8 {
        0xc0
    } else if b == 0xa9 {
        0x29
    } else if b == 0xaa {
        0x23
    } else if b == 0xab {
        0xab
    } else if b == 0xac {
        0x0d
    } else if b == 0xad {
        0x53
    } else if b == 0xae {
        0x4e
    } else {
        0x6f
    }
}

spec fn s_box_row_11(b: u8) -> u8 {
    if b == 0xb0 {
        0xd5
    } else if b == 0xb1 {
        0xdb
    } else if b == 0xb2 {
        0x37
    } else if b == 0xb3 {
        0x45
    } else if b == 0xb4 {
        0xde
    } else if b == 0xb5 {
        0xfd
    } else if b == 0xb6 {
        0x8e
    } else if b == 0xb7 {
        0x2f
    } else if b == 0xb8 {
        0x03
    } else if b == 0xb9 {
        0xff
    } else if b == 0xba {
        0x6a
    } else if b == 0xbb {
        0x72
    } else if b == 0xbc {
        0x6d
    } else if b == 0xbd {
        0x6c
    } else if b == 0xbe {
        0x5b
    } else {
        0x51
    }
}

spec fn s_box_row_12(b: u8) -> u8 {
    if b == 0xc0 {
        0x8d
    } else if b == 0xc1 {
        0x1b
    } else if b == 0xc2 {
        0xaf
    } else if b == 0xc3 {
        0x92
    } else if b == 0xc4 {
        0xbb
    } else if b == 0xc5 {
        0xdd
    } else if b == 0xc6 {
        0xbc
    } else if b == 0xc7 {
        0x7f
    } else if b == 0xc8 {
        0x11
    } else if b == 0xc9 {
        0xd9
    } else if b == 0xca {
        0x5c
    } else if b == 0xcb {
        0x41
    } else if b == 0xcc {
        0x1f
    } else if b == 0xcd {
        0x10
    } else if b == 0xce {
        0x5a
    } else {
        0xd8
    }
}

spec fn s_box_row_13(b: u8) -> u8 {
    if b == 0xd0 {
        0x0a
    } else if b == 0xd1 {
        0xc1
    } else if b == 0xd2 {
        0x31
    } else if b == 0xd3 {
        0x88
    } else if b == 0xd4 {
        0xa5
    } else if b == 0xd5 {
        0xcd
    } else if b == 0xd6 {
        0x7b
    } else if b == 0xd7 {
        0xbd
    } else if b == 0xd8 {
        0x2d
    } else if b == 0xd9 {
        0x74
    } else if b == 0xda {
        0xd0
    } else if b == 0xdb {
        0x12
    } else if b == 0xdc {
        0xb8
    } else if b == 0xdd {
        0xe5
    } else if b == 0xde {
        0xb4
    } else {
        0xb0
    }
}

spec fn s_box_row_14(b: u8) -> u8 {
    if b == 0xe0 {
        0x89
    } else if b == 0xe1 {
        0x69
    } else if b == 0xe2 {
        0x97
    } else if b == 0xe3 {
        0x4a
    } else if b == 0xe4 {
        0x0c
    } else if b == 0xe5 {
        0x96
    } else if b == 0xe6 {
        0x77
    } else if b == 0xe7 {
        0x7e
    } else if b == 0xe8 {
        0x65
    } else if b == 0xe9 {
        0xb9
    } else if b == 0xea {
        0xf1
    } else if b == 0xeb {
        0x09
    } else if b == 0xec {
        0xc5
    } else if b == 0xed {
        0x6e
    } else if b == 0xee {
        0xc6
    } else {
        0x84
    }
}

spec fn s_box_row_15(b: u8) -> u8 {
    if b == 0xf0 {
        0x18
    } else if b == 0xf1 {
        0xf0
    } else if b == 0xf2 {
        0x7d
    } else if b == 0xf3 {
        0xec
    } else if b == 0xf4 {
        0x3a
    } else if b == 0xf5 {
        0xdc
    } else if b == 0xf6 {
        0x4d
    } else if b == 0xf7 {
        0x20
    } else if b == 0xf8 {
        0x79
    } else if b == 0xf9 {
        0xee
    } else if b == 0xfa {
        0x5f
    } else if b == 0xfb {
        0x3e
    } else if b == 0xfc {
        0xd7
    } else if b == 0xfd {
        0xcb
    } else if b == 0xfe {
        0x39
    } else {
        0x48
    }
}

/// The SM4 substitution box as a mathematical function of one byte.
pub closed spec fn s_box(b: u8) -> u8 {
    if b < 0x10 {
        s_box_row_0(b)
    }     else if b < 0x20 {
        s_box_row_1(b)
    }     else if b < 0x30 {
        s_box_row_2(b)
    }     else if b < 0x40 {
        s_box_row_3(b)
    }     else if b < 0x50 {
        s_box_row_4(b)
    }     else if b < 0x60 {
        s_box_row_5(b)
    }     else if b < 0x70 {
        s_box_row_6(b)
    }     else if b < 0x80 {
        s_box_row_7(b)
    }     else if b < 0x90 {
        s_box_row_8(b)
    }     else if b < 0xa0 {
        s_box_row_9(b)
    }     else if b < 0xb0 {
        s_box_row_10(b)
    }     else if b < 0xc0 {
        s_box_row_11(b)
    }     else if b < 0xd0 {
        s_box_row_12(b)
    }     else if b < 0xe0 {
        s_box_row_13(b)
    }     else if b < 0xf0 {
        s_box_row_14(b)
    } else {
        s_box_row_15(b)
    }
}

fn sbox_lookup(b: u8) -> (r: u8)
    ensures
        r == s_box(b),
{
    if b == 0x00 { return 0xd6; }
    if b == 0x01 { return 0x90; }
    if b == 0x02 { return 0xe9; }
    if b == 0x03 { return 0xfe; }
    if b == 0x04 { return 0xcc; }
    if b == 0x05 { return 0xe1; }
    if b == 0x06 { return 0x3d; }
    if b == 0x07 { return 0xb7; }
    if b == 0x08 { return 0x16; }
    if b == 0x09 { return 0xb6; }
    if b == 0x0a { return 0x14; }
    if b == 0x0b { return 0xc2; }
    if b == 0x0c { return 0x28; }
    if b == 0x0d { return 0xfb; }
    if b == 0x0e { return 0x2c; }
    if b == 0x0f { return 0x05; }
    if b == 0x10 { return 0x2b; }
    if b == 0x11 { return 0x67; }
    if b == 0x12 { return 0x9a; }
    if b == 0x13 { return 0x76; }
    if b == 0x14 { return 0x2a; }
    if b == 0x15 { return 0xbe; }
    if b == 0x16 { return 0x04; }
    if b == 0x17 { return 0xc3; }
    if b == 0x18 { return 0xaa; }
    if b == 0x19 { return 0x44; }
    if b == 0x1a { return 0x13; }
    if b == 0x1b { return 0x26; }
    if b == 0x1c { return 0x49; }
    if b == 0x1d { return 0x86; }
    if b == 0x1e { return 0x06; }
    if b == 0x1f { return 0x99; }
    if b == 0x20 { return 0x9c; }
    if b == 0x21 { return 0x42; }
    if b == 0x22 { return 0x50; }
    if b == 0x23 { return 0xf4; }
    if b == 0x24 { return 0x91; }
    if b == 0x25 { return 0xef; }
    if b == 0x26 { return 0x98; }
    if b == 0x27 { return 0x7a; }
    if b == 0x28 { return 0x33; }
    if b == 0x29 { return 0x54; }
    if b == 0x2a { return 0x0b; }
    if b == 0x2b { return 0x43; }
    if b == 0x2c { return 0xed; }
    if b == 0x2d { return 0xcf; }
    if b == 0x2e { return 0xac; }
    if b == 0x2f { return 0x62; }
    if b == 0x30 { return 0xe4; }
    if b == 0x31 { return 0xb3; }
    if b == 0x32 { return 0x1c; }
    if b == 0x33 { return 0xa9; }
    if b == 0x34 { return 0xc9; }
    if b == 0x35 { return 0x08; }
    if b == 0x36 { return 0xe8; }
    if b == 0x37 { return 0x95; }
    if b == 0x38 { return 0x80; }
    if b == 0x39 { return 0xdf; }
    if b == 0x3a { return 0x94; }
    if b == 0x3b { return 0xfa; }
    if b == 0x3c { return 0x75; }
    if b == 0x3d { return 0x8f; }
    if b == 0x3e { return 0x3f; }
    if b == 0x3f { return 0xa6; }
    if b == 0x40 { return 0x47; }
    if b == 0x41 { return 0x07; }
    if b == 0x42 { return 0xa7; }
    if b == 0x43 { return 0xfc; }
    if b == 0x44 { return 0xf3; }
    if b == 0x45 { return 0x73; }
    if b == 0x46 { return 0x17; }
    if b == 0x47 { return 0xba; }
    if b == 0x48 { return 0x83; }
    if b == 0x49 { return 0x59; }
    if b == 0x4a { return 0x3c; }
    if b == 0x4b { return 0x19; }
    if b == 0x4c { return 0xe6; }
    if b == 0x4d { return 0x85; }
    if b == 0x4e { return 0x4f; }
    if b == 0x4f { return 0xa8; }
    if b == 0x50 { return 0x68; }
    if b == 0x51 { return 0x6b; }
    if b == 0x52 { return 0x81; }
    if b == 0x53 { return 0xb2; }
    if b == 0x54 { return 0x71; }
    if b == 0x55 { return 0x64; }
    if b == 0x56 { return 0xda; }
    if b == 0x57 { return 0x8b; }
    if b == 0x58 { return 0xf8; }
    if b == 0x59 { return 0xeb; }
    if b == 0x5a { return 0x0f; }
    if b == 0x5b { return 0x4b; }
    if b == 0x5c { return 0x70; }
    if b == 0x5d { return 0x56; }
    if b == 0x5e { return 0x9d; }
    if b == 0x5f { return 0x35; }
    if b == 0x60 { return 0x1e; }
    if b == 0x61 { return 0x24; }
    if b == 0x62 { return 0x0e; }
    if b == 0x63 { return 0x5e; }
    if b == 0x64 { return 0x63; }
    if b == 0x65 { return 0x58; }
    if b == 0x66 { return 0xd1; }
    if b == 0x67 { return 0xa2; }
    if b == 0x68 { return 0x25; }
    if b == 0x69 { return 0x22; }
    if b == 0x6a { return 0x7c; }
    if b == 0x6b { return 0x3b; }
    if b == 0x6c { return 0x01; }
    if b == 0x6d { return 0x21; }
    if b == 0x6e { return 0x78; }
    if b == 0x6f { return 0x87; }
    if b == 0x70 { return 0xd4; }
    if b == 0x71 { return 0x00; }
    if b == 0x72 { return 0x46; }
    if b == 0x73 { return 0x57; }
    if b == 0x74 { return 0x9f; }
    if b == 0x75 { return 0xd3; }
    if b == 0x76 { return 0x27; }
    if b == 0x77 { return 0x52; }
    if b == 0x78 { return 0x4c; }
    if b == 0x79 { return 0x36; }
    if b == 0x7a { return 0x02; }
    if b == 0x7b { return 0xe7; }
    if b == 0x7c { return 0xa0; }
    if b == 0x7d { return 0xc4; }
    if b == 0x7e { return 0xc8; }
    if b == 0x7f { return 0x9e; }
    if b == 0x80 { return 0xea; }
    if b == 0x81 { return 0xbf; }
    if b == 0x82 { return 0x8a; }
    if b == 0x83 { return 0xd2; }
    if b == 0x84 { return 0x40; }
    if b == 0x85 { return 0xc7; }
    if b == 0x86 { return 0x38; }
    if b == 0x87 { return 0xb5; }
    if b == 0x88 { return 0xa3; }
    if b == 0x89 { return 0xf7; }
    if b == 0x8a { return 0xf2; }
    if b == 0x8b { return 0xce; }
    if b == 0x8c { return 0xf9; }
    if b == 0x8d { return 0x61; }
    if b == 0x8e { return 0x15; }
    if b == 0x8f { return 0xa1; }
    if b == 0x90 { return 0xe0; }
    if b == 0x91 { return 0xae; }
    if b == 0x92 { return 0x5d; }
    if b == 0x93 { return 0xa4; }
    if b == 0x94 { return 0x9b; }
    if b == 0x95 { return 0x34; }
    if b == 0x96 { return 0x1a; }
    if b == 0x97 { return 0x55; }
    if b == 0x98 { return 0xad; }
    if b == 0x99 { return 0x93; }
    if b == 0x9a { return 0x32; }
    if b == 0x9b { return 0x30; }
    if b == 0x9c { return 0xf5; }
    if b == 0x9d { return 0x8c; }
    if b == 0x9e { return 0xb1; }
    if b == 0x9f { return 0xe3; }
    if b == 0xa0 { return 0x1d; }
    if b == 0xa1 { return 0xf6; }
    if b == 0xa2 { return 0xe2; }
    if b == 0xa3 { return 0x2e; }
    if b == 0xa4 { return 0x82; }
    if b == 0xa5 { return 0x66; }
    if b == 0xa6 { return 0xca; }
    if b == 0xa7 { return 0x60; }
    if b == 0xa8 { return 0xc0; }
    if b == 0xa9 { return 0x29; }
    if b == 0xaa { return 0x23; }
    if b == 0xab { return 0xab; }
    if b == 0xac { return 0x0d; }
    if b == 0xad { return 0x53; }
    if b == 0xae { return 0x4e; }
    if b == 0xaf { return 0x6f; }
    if b == 0xb0 { return 0xd5; }
    if b == 0xb1 { return 0xdb; }
    if b == 0xb2 { return 0x37; }
    if b == 0xb3 { return 0x45; }
    if b == 0xb4 { return 0xde; }
    if b == 0xb5 { return 0xfd; }
    if b == 0xb6 { return 0x8e; }
    if b == 0xb7 { return 0x2f; }
    if b == 0xb8 { return 0x03; }
    if b == 0xb9 { return 0xff; }
    if b == 0xba { return 0x6a; }
    if b == 0xbb { return 0x72; }
    if b == 0xbc { return 0x6d; }
    if b == 0xbd { return 0x6c; }
    if b == 0xbe { return 0x5b; }
    if b == 0xbf { return 0x51; }
    if b == 0xc0 { return 0x8d; }
    if b == 0xc1 { return 0x1b; }
    if b == 0xc2 { return 0xaf; }
    if b == 0xc3 { return 0x92; }
    if b == 0xc4 { return 0xbb; }
    if b == 0xc5 { return 0xdd; }
    if b == 0xc6 { return 0xbc; }
    if b == 0xc7 { return 0x7f; }
    if b == 0xc8 { return 0x11; }
    if b == 0xc9 { return 0xd9; }
    if b == 0xca { return 0x5c; }
    if b == 0xcb { return 0x41; }
    if b == 0xcc { return 0x1f; }
    if b == 0xcd { return 0x10; }
    if b == 0xce { return 0x5a; }
    if b == 0xcf { return 0xd8; }
    if b == 0xd0 { return 0x0a; }
    if b == 0xd1 { return 0xc1; }
    if b == 0xd2 { return 0x31; }
    if b == 0xd3 { return 0x88; }
    if b == 0xd4 { return 0xa5; }
    if b == 0xd5 { return 0xcd; }
    if b == 0xd6 { return 0x7b; }
    if b == 0xd7 { return 0xbd; }
    if b == 0xd8 { return 0x2d; }
    if b == 0xd9 { return 0x74; }
    if b == 0xda { return 0xd0; }
    if b == 0xdb { return 0x12; }
    if b == 0xdc { return 0xb8; }
    if b == 0xdd { return 0xe5; }
    if b == 0xde { return 0xb4; }
    if b == 0xdf { return 0xb0; }
    if b == 0xe0 { return 0x89; }
    if b == 0xe1 { return 0x69; }
    if b == 0xe2 { return 0x97; }
    if b == 0xe3 { return 0x4a; }
    if b == 0xe4 { return 0x0c; }
    if b == 0xe5 { return 0x96; }
    if b == 0xe6 { return 0x77; }
    if b == 0xe7 { return 0x7e; }
    if b == 0xe8 { return 0x65; }
    if b == 0xe9 { return 0xb9; }
    if b == 0xea { return 0xf1; }
    if b == 0xeb { return 0x09; }
    if b == 0xec { return 0xc5; }
    if b == 0xed { return 0x6e; }
    if b == 0xee { return 0xc6; }
    if b == 0xef { return 0x84; }
    if b == 0xf0 { return 0x18; }
    if b == 0xf1 { return 0xf0; }
    if b == 0xf2 { return 0x7d; }
    if b == 0xf3 { return 0xec; }
    if b == 0xf4 { return 0x3a; }
    if b == 0xf5 { return 0xdc; }
    if b == 0xf6 { return 0x4d; }
    if b == 0xf7 { return 0x20; }
    if b == 0xf8 { return 0x79; }
    if b == 0xf9 { return 0xee; }
    if b == 0xfa { return 0x5f; }
    if b == 0xfb { return 0x3e; }
    if b == 0xfc { return 0xd7; }
    if b == 0xfd { return 0xcb; }
    if b == 0xfe { return 0x39; }
    0x48
}

/// The SM4 key-schedule constant for round `i`.
pub closed spec fn spec_ck(i: int) -> u32 {
    if i == 0 {
        0x00070e15
    } else if i == 1 {
        0x1c232a31
    } else if i == 2 {
        0x383f464d
    } else if i == 3 {
        0x545b6269
    } else if i == 4 {
        0x70777e85
    } else if i == 5 {
        0x8c939aa1
    } else if i == 6 {
        0xa8afb6bd
    } else if i == 7 {
        0xc4cbd2d9
    } else if i == 8 {
        0xe0e7eef5
    } else if i == 9 {
        0xfc030a11
    } else if i == 10 {
        0x181f262d
    } else if i == 11 {
        0x343b4249
    } else if i == 12 {
        0x50575e65
    } else if i == 13 {
        0x6c737a81
    } else if i == 14 {
        0x888f969d
    } else if i == 15 {
        0xa4abb2b9
    } else if i == 16 {
        0xc0c7ced5
    } else if i == 17 {
        0xdce3eaf1
    } else if i == 18 {
        0xf8ff060d
    } else if i == 19 {
        0x141b2229
    } else if i == 20 {
        0x30373e45
    } else if i == 21 {
        0x4c535a61
    } else if i == 22 {
        0x686f767d
    } else if i == 23 {
        0x848b9299
    } else if i == 24 {
        0xa0a7aeb5
    } else if i == 25 {
        0xbcc3cad1
    } else if i == 26 {
        0xd8dfe6ed
    } else if i == 27 {
        0xf4fb0209
    } else if i == 28 {
        0x10171e25
    } else if i == 29 {
        0x2c333a41
    } else if i == 30 {
        0x484f565d
    } else {
        0x646b7279
    }
}

fn ck_val(i: usize) -> (r: u32)
    requires
        i < 32,
    ensures
        r == spec_ck(i as int),
{
    if i == 0 { return 0x00070e15; }
    if i == 1 { return 0x1c232a31; }
    if i == 2 { return 0x383f464d; }
    if i == 3 { return 0x545b6269; }
    if i == 4 { return 0x70777e85; }
    if i == 5 { return 0x8c939aa1; }
    if i == 6 { return 0xa8afb6bd; }
    if i == 7 { return 0xc4cbd2d9; }
    if i == 8 { return 0xe0e7eef5; }
    if i == 9 { return 0xfc030a11; }
    if i == 10 { return 0x181f262d; }
    if i == 11 { return 0x343b4249; }
    if i == 12 { return 0x50575e65; }
    if i == 13 { return 0x6c737a81; }
    if i == 14 { return 0x888f969d; }
    if i == 15 { return 0xa4abb2b9; }
    if i == 16 { return 0xc0c7ced5; }
    if i == 17 { return 0xdce3eaf1; }
    if i == 18 { return 0xf8ff060d; }
    if i == 19 { return 0x141b2229; }
    if i == 20 { return 0x30373e45; }
    if i == 21 { return 0x4c535a61; }
    if i == 22 { return 0x686f767d; }
    if i == 23 { return 0x848b9299; }
    if i == 24 { return 0xa0a7aeb5; }
    if i == 25 { return 0xbcc3cad1; }
    if i == 26 { return 0xd8dfe6ed; }
    if i == 27 { return 0xf4fb0209; }
    if i == 28 { return 0x10171e25; }
    if i == 29 { return 0x2c333a41; }
    if i == 30 { return 0x484f565d; }
    0x646b7279
}

// ---------------------------------------------------------------------------
// Round transforms
// ---------------------------------------------------------------------------

/// Rotation of a 32-bit word left by `n` bits, for `0 < n < 32`.
pub open spec fn spec_rotl(x: u32, n: u32) -> u32 {
    ((x << n) | (x >> ((32 - n) as u32))) as u32
}

/// The substitution layer: the substitution box applied to each byte.
pub open spec fn spec_tau(x: u32) -> u32 {
    word_from_bytes(s_box(byte0(x)), s_box(byte1(x)), s_box(byte2(x)), s_box(byte3(x)))
}

/// The linear layer of the round transform.
pub open spec fn l_round(x: u32) -> u32 {
    x ^ spec_rotl(x, 2) ^ spec_rotl(x, 10) ^ spec_rotl(x, 18) ^ spec_rotl(x, 24)
}

/// The linear layer of the key schedule.
pub open spec fn l_key(x: u32) -> u32 {
    x ^ spec_rotl(x, 13) ^ spec_rotl(x, 23)
}

/// The mixing transform used by one encryption round.
pub open spec fn t_round(x: u32) -> u32 {
    l_round(spec_tau(x))
}

/// The mixing transform used by the key schedule.
pub open spec fn t_key(x: u32) -> u32 {
    l_key(spec_tau(x))
}

/// One round of the block transform under round key `k`.
pub open spec fn round(s: (u32, u32, u32, u32), k: u32) -> (u32, u32, u32, u32) {
    (s.1, s.2, s.3, (s.0 ^ t_round(s.1 ^ s.2 ^ s.3 ^ k)) as u32)
}

/// The rounds applied under the keys of `ks`, first key first.
pub open spec fn crank(s: (u32, u32, u32, u32), ks: Seq<u32>) -> (u32, u32, u32, u32)
    decreases ks.len(),
{
    if ks.len() == 0 {
        s
    } else {
        crank(round(s, ks[0]), ks.skip(1))
    }
}

/// The rounds applied under the keys of `ks`, last key first.
pub open spec fn crank_back(s: (u32, u32, u32, u32), ks: Seq<u32>) -> (u32, u32, u32, u32)
    decreases ks.len(),
{
    if ks.len() == 0 {
        s
    } else {
        crank_back(round(s, ks.last()), ks.drop_last())
    }
}

/// The reversal of a four-word state.
pub open spec fn swap4(s: (u32, u32, u32, u32)) -> (u32, u32, u32, u32) {
    (s.3, s.2, s.1, s.0)
}

proof fn lemma_crank_snoc(s: (u32, u32, u32, u32), ks: Seq<u32>, k: u32)
    ensures
        crank(s, ks.push(k)) == round(crank(s, ks), k),
    decreases ks.len(),
{
    if ks.len() == 0 {
        assert(ks.push(k)[0] == k);
        assert(ks.push(k).skip(1) =~= Seq::<u32>::empty());
        assert(crank(s, ks.push(k)) == crank(round(s, k), ks.push(k).skip(1)));
    } else {
        assert(ks.push(k)[0] == ks[0]);
        assert(ks.push(k).skip(1) =~= ks.skip(1).push(k));
        lemma_crank_snoc(round(s, ks[0]), ks.skip(1), k);
        assert(crank(s, ks.push(k)) == crank(round(s, ks[0]), ks.skip(1).push(k)));
        assert(crank(s, ks) == crank(round(s, ks[0]), ks.skip(1)));
    }
}

proof fn lemma_round_swap_inverse(s: (u32, u32, u32, u32), k: u32)
    ensures
        round(swap4(round(s, k)), k) == swap4(s),
{
    let a = s.0;
    let b = s.1;
    let c = s.2;
    let d = s.3;
    assert(d ^ c ^ b ^ k == b ^ c ^ d ^ k) by (bit_vector);
    let u = t_round(b ^ c ^ d ^ k);
    assert(((a ^ u) ^ u) == a) by (bit_vector);
}

/// Running the rounds backwards over the reversed state undoes them.
proof fn lemma_crank_back_inverse(s: (u32, u32, u32, u32), ks: Seq<u32>)
    ensures
        crank_back(swap4(crank(s, ks)), ks) == swap4(s),
    decreases ks.len(),
{
    if ks.len() == 0 {
    } else {
        let u = crank(s, ks.drop_last());
        lemma_crank_snoc(s, ks.drop_last(), ks.last());
        assert(ks.drop_last().push(ks.last()) =~= ks);
        assert(crank(s, ks) == round(u, ks.last()));
        lemma_round_swap_inverse(u, ks.last());
        lemma_crank_back_inverse(s, ks.drop_last());
    }
}

// ---------------------------------------------------------------------------
// Key schedule
// ---------------------------------------------------------------------------

/// Word `i` of the extended key-schedule sequence: the first four words are
/// the key words whitened with the schedule constants, each later word is
/// derived from the four before it.
pub open spec fn kw(mk: (u32, u32, u32, u32), i: int) -> u32
    decreases i,
{
    if i <= 0 {
        (mk.0 ^ FK0) as u32
    } else if i == 1 {
        (mk.1 ^ FK1) as u32
    } else if i == 2 {
        (mk.2 ^ FK2) as u32
    } else if i == 3 {
        (mk.3 ^ FK3) as u32
    } else {
        (kw(mk, i - 4) ^ t_key(kw(mk, i - 3) ^ kw(mk, i - 2) ^ kw(mk, i - 1) ^ spec_ck(i - 4))) as u32
    }
}

/// The 32 round keys expanded from a 16-byte key.
pub open spec fn spec_round_keys(key: Seq<u8>) -> Seq<u32> {
    Seq::new(32, |i: int| kw(words_of_block(key), i + 4))
}

// ---------------------------------------------------------------------------
// Executable primitives
// ---------------------------------------------------------------------------

fn rotl(x: u32, n: u32) -> (r: u32)
    requires
        0 < n < 32,
    ensures
        r == spec_rotl(x, n),
{
    (x << n) | (x >> (32 - n))
}

fn tau(x: u32) -> (r: u32)
    ensures
        r == spec_tau(x),
{
    proof {
        assert(((x >> 24) & 0xff) < 256 && ((x >> 16) & 0xff) < 256 && ((x >> 8) & 0xff) < 256 && (
        x & 0xff) < 256) by (bit_vector);
    }
    let b0 = sbox_lookup(((x >> 24) & 0xff) as u8);
    let b1 = sbox_lookup(((x >> 16) & 0xff) as u8);
    let b2 = sbox_lookup(((x >> 8) & 0xff) as u8);
    let b3 = sbox_lookup((x & 0xff) as u8);
    ((b0 as u32) << 24) | ((b1 as u32) << 16) | ((b2 as u32) << 8) | (b3 as u32)
}

fn round_trans(x: u32) -> (r: u32)
    ensures
        r == t_round(x),
{
    let y = tau(x);
    y ^ rotl(y, 2) ^ rotl(y, 10) ^ rotl(y, 18) ^ rotl(y, 24)
}

fn key_trans(x: u32) -> (r: u32)
    ensures
        r == t_key(x),
{
    let y = tau(x);
    y ^ rotl(y, 13) ^ rotl(y, 23)
}

fn load_word(b: &[u8], k: usize) -> (r: u32)
    requires
        b@.len() == 16,
        k < 4,
    ensures
        r == word_of_block(b@, k as int),
{
    let i = 4 * k;
    ((b[i] as u32) << 24) | ((b[i + 1] as u32) << 16) | ((b[i + 2] as u32) << 8) | (b[i + 3] as u32)
}

fn push_word(out: &mut Vec<u8>, x: u32)
    ensures
        final(out)@ == old(out)@ + seq![byte0(x), byte1(x), byte2(x), byte3(x)],
{
    proof {
        assert(((x >> 24) & 0xff) < 256 && ((x >> 16) & 0xff) < 256 && ((x >> 8) & 0xff) < 256 && (
        x & 0xff) < 256) by (bit_vector);
    }
    out.push(((x >> 24) & 0xff) as u8);
    out.push(((x >> 16) & 0xff) as u8);
    out.push(((x >> 8) & 0xff) as u8);
    out.push((x & 0xff) as u8);
    assert(out@ =~= old(out)@ + seq![byte0(x), byte1(x), byte2(x), byte3(x)]);
}

// ---------------------------------------------------------------------------
// The cipher
// ---------------------------------------------------------------------------

/// An SM4 cipher instance: the 32 round keys expanded from one 16-byte key.
pub struct Sm4Cipher {
    rk: Vec<u32>,
}

impl Sm4Cipher {
    /// A cipher value is well formed when it carries exactly 32 round keys.
    pub closed spec fn wf(self) -> bool {
        self.rk@.len() == 32
    }

    /// The round keys of this cipher instance.
    pub closed spec fn round_keys(self) -> Seq<u32> {
        self.rk@
    }

    /// The mathematical block encryption: the meaning of `encrypt`.
    pub closed spec fn enc_block(self, b: Seq<u8>) -> Seq<u8> {
        block_of_words(swap4(crank(words_of_block(b), self.rk@)))
    }

    /// The mathematical block decryption: the meaning of `decrypt`.
    pub closed spec fn dec_block(self, b: Seq<u8>) -> Seq<u8> {
        block_of_words(swap4(crank_back(words_of_block(b), self.rk@)))
    }

    /// Expands a 16-byte key into a cipher instance.
    pub fn new(key: &[u8]) -> (r: Sm4Cipher)
        requires
            key@.len() == 16,
        ensures
            r.wf(),
            r.round_keys() == spec_round_keys(key@),
    {
        let ghost mk = words_of_block(key@);
        let w0 = load_word(key, 0);
        let w1 = load_word(key, 1);
        let w2 = load_word(key, 2);
        let w3 = load_word(key, 3);
        let mut k0: u32 = w0 ^ FK0;
        let mut k1: u32 = w1 ^ FK1;
        let mut k2: u32 = w2 ^ FK2;
        let mut k3: u32 = w3 ^ FK3;
        let mut rk: Vec<u32> = Vec::new();
        let mut i: usize = 0;
        while i < 32
            invariant
                i <= 32,
                rk@.len() == i as int,
                k0 == kw(mk, i as int),
                k1 == kw(mk, i as int + 1),
                k2 == kw(mk, i as int + 2),
                k3 == kw(mk, i as int + 3),
                forall|j: int| 0 <= j < i ==> rk@[j] == kw(mk, j + 4),
            decreases 32 - i,
        {
            let t = key_trans(k1 ^ k2 ^ k3 ^ ck_val(i));
            let nk: u32 = k0 ^ t;
            proof {
                assert(kw(mk, i as int + 4) == (kw(mk, i as int) ^ t_key(
                    kw(mk, i as int + 1) ^ kw(mk, i as int + 2) ^ kw(mk, i as int + 3) ^ spec_ck(
                        i as int,
                    ),
                )) as u32);
            }
            rk.push(nk);
            k0 = k1;
            k1 = k2;
            k2 = k3;
            k3 = nk;
            i = i + 1;
        }
        let c = Sm4Cipher { rk };
        proof {
            assert(c.rk@ =~= spec_round_keys(key@));
        }
        c
    }

    /// Encrypts one 16-byte block.
    pub fn encrypt(&self, block: &[u8]) -> (r: Vec<u8>)
        requires
            self.wf(),
            block@.len() == 16,
        ensures
            r@ == self.enc_block(block@),
            r@.len() == 16,
    {
        let ghost s0 = words_of_block(block@);
        let mut x0 = load_word(block, 0);
        let mut x1 = load_word(block, 1);
        let mut x2 = load_word(block, 2);
        let mut x3 = load_word(block, 3);
        proof {
            assert(self.rk@.skip(0) =~= self.rk@);
            assert((x0, x1, x2, x3) == s0);
        }
        let mut i: usize = 0;
        while i < 32
            invariant
                self.wf(),
                i <= 32,
                crank(s0, self.rk@) == crank((x0, x1, x2, x3), self.rk@.skip(i as int)),
            decreases 32 - i,
        {
            let k: u32 = self.rk[i];
            let t = round_trans(x1 ^ x2 ^ x3 ^ k);
            let nx: u32 = x0 ^ t;
            proof {
                let rest = self.rk@.skip(i as int);
                assert(rest[0] == self.rk@[i as int]);
                assert(rest.skip(1) =~= self.rk@.skip(i as int + 1));
            }
            x0 = x1;
            x1 = x2;
            x2 = x3;
            x3 = nx;
            i = i + 1;
        }
        proof {
            assert(self.rk@.skip(32) =~= Seq::<u32>::empty());
        }
        let mut out: Vec<u8> = Vec::new();
        push_word(&mut out, x3);
        push_word(&mut out, x2);
        push_word(&mut out, x1);
        push_word(&mut out, x0);
        proof {
            lemma_block_of_words_bytes(swap4(crank(s0, self.rk@)), out@);
        }
        out
    }

    /// Decrypts one 16-byte block.
    pub fn decrypt(&self, block: &[u8]) -> (r: Vec<u8>)
        requires
            self.wf(),
            block@.len() == 16,
        ensures
            r@ == self.dec_block(block@),
            r@.len() == 16,
    {
        let ghost s0 = words_of_block(block@);
        let mut x0 = load_word(block, 0);
        let mut x1 = load_word(block, 1);
        let mut x2 = load_word(block, 2);
        let mut x3 = load_word(block, 3);
        proof {
            assert(self.rk@.take(32) =~= self.rk@);
            assert((x0, x1, x2, x3) == s0);
        }
        let mut i: usize = 0;
        while i < 32
            invariant
                self.wf(),
                i <= 32,
                crank_back(s0, self.rk@) == crank_back(
                    (x0, x1, x2, x3),
                    self.rk@.take(32 - i as int),
                ),
            decreases 32 - i,
        {
            let k: u32 = self.rk[31 - i];
            let t = round_trans(x1 ^ x2 ^ x3 ^ k);
            let nx: u32 = x0 ^ t;
            proof {
                let rem = self.rk@.take(32 - i as int);
                assert(rem.last() == self.rk@[31 - i as int]);
                assert(rem.drop_last() =~= self.rk@.take(31 - i as int));
            }
            x0 = x1;
            x1 = x2;
            x2 = x3;
            x3 = nx;
            i = i + 1;
        }
        proof {
            assert(self.rk@.take(0) =~= Seq::<u32>::empty());
        }
        let mut out: Vec<u8> = Vec::new();
        push_word(&mut out, x3);
        push_word(&mut out, x2);
        push_word(&mut out, x1);
        push_word(&mut out, x0);
        proof {
            lemma_block_of_words_bytes(swap4(crank_back(s0, self.rk@)), out@);
        }
        out
    }
}

/// Decrypting an encrypted block recovers the block, for every well-formed
/// cipher and every 16-byte block.
pub proof fn lemma_block_round_trip(c: Sm4Cipher, b: Seq<u8>)
    requires
        c.wf(),
        b.len() == 16,
    ensures
        c.dec_block(c.enc_block(b)) == b,
{
    let s = words_of_block(b);
    let e = crank(s, c.round_keys());
    lemma_words_block_id(swap4(e));
    lemma_crank_back_inverse(s, c.round_keys());
    assert(swap4(swap4(s)) == s);
    lemma_block_words_id(b);
}

/// A block encryption always yields 16 bytes.
pub proof fn lemma_enc_block_len(c: Sm4Cipher, b: Seq<u8>)
    ensures
        c.enc_block(b).len() == 16,
{
}

/// A block decryption always yields 16 bytes.
pub proof fn lemma_dec_block_len(c: Sm4Cipher, b: Seq<u8>)
    ensures
        c.dec_block(b).len() == 16,
{
}

} // verus!
