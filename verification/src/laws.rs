//! Proved properties of the mode layer: round trips, length invariants
//! and the self-inverse character of the keystream modes.

use vstd::prelude::*;

use crate::cipher::Sm4Cipher;
use crate::cipher::lemma_block_round_trip;
use crate::cipher::lemma_enc_block_len;
use crate::cipher_mode::CipherMode;
use crate::cipher_mode::Sm4Error;
use crate::cipher_mode::cbc_decrypt_blocks;
use crate::cipher_mode::cbc_decrypt_spec;
use crate::cipher_mode::cbc_encrypt_spec;
use crate::cipher_mode::cfb_decrypt_spec;
use crate::cipher_mode::cfb_encrypt_spec;
use crate::cipher_mode::ctr_spec;
use crate::cipher_mode::mode_decrypt_spec;
use crate::cipher_mode::mode_encrypt_spec;
use crate::cipher_mode::ofb_spec;
use crate::cipher_mode::pad_block;
use crate::cipher_mode::xor_bytes;

verus! {

/// XORing against the same keystream twice gives the bytes back.
pub proof fn lemma_xor_bytes_cancel(d: Seq<u8>, ks: Seq<u8>)
    ensures
        xor_bytes(xor_bytes(d, ks), ks) == d,
{
    let once = xor_bytes(d, ks);
    let twice = xor_bytes(once, ks);
    assert forall|i: int| 0 <= i < d.len() implies twice[i] == d[i] by {
        let x = d[i];
        let y = ks[i];
        assert((x ^ y) ^ y == x) by (bit_vector);
    }
    assert(twice =~= d);
}

// ---------------------------------------------------------------------------
// Length invariants: the keystream modes preserve the length exactly, and
// CBC always adds one padded block.
// ---------------------------------------------------------------------------

/// CFB encryption preserves the length of its input.
pub proof fn lemma_cfb_encrypt_len(c: Sm4Cipher, reg: Seq<u8>, data: Seq<u8>)
    ensures
        cfb_encrypt_spec(c, reg, data).len() == data.len(),
    decreases data.len(),
{
    if data.len() >= 16 {
        let ks = c.enc_block(reg);
        let ct = xor_bytes(data.take(16), ks);
        lemma_cfb_encrypt_len(c, ct, data.skip(16));
    }
}

/// CFB decryption preserves the length of its input.
pub proof fn lemma_cfb_decrypt_len(c: Sm4Cipher, reg: Seq<u8>, data: Seq<u8>)
    ensures
        cfb_decrypt_spec(c, reg, data).len() == data.len(),
    decreases data.len(),
{
    if data.len() >= 16 {
        lemma_cfb_decrypt_len(c, data.take(16), data.skip(16));
    }
}

/// The OFB transform preserves the length of its input.
pub proof fn lemma_ofb_len(c: Sm4Cipher, reg: Seq<u8>, data: Seq<u8>)
    ensures
        ofb_spec(c, reg, data).len() == data.len(),
    decreases data.len(),
{
    if data.len() >= 16 {
        lemma_ofb_len(c, c.enc_block(reg), data.skip(16));
    }
}

/// The CTR transform preserves the length of its input.
pub proof fn lemma_ctr_len(c: Sm4Cipher, reg: Seq<u8>, data: Seq<u8>)
    ensures
        ctr_spec(c, reg, data).len() == data.len(),
    decreases data.len(),
{
    if data.len() >= 16 {
        lemma_ctr_len(c, crate::cipher_mode::inc_counter(reg), data.skip(16));
    }
}

/// CBC encryption always yields one block more than the whole blocks of
/// its input, padding unconditionally.
pub proof fn lemma_cbc_encrypt_len(c: Sm4Cipher, reg: Seq<u8>, data: Seq<u8>)
    ensures
        cbc_encrypt_spec(c, reg, data).len() == 16 * (data.len() / 16 + 1),
    decreases data.len(),
{
    let n = data.len() as int;
    if data.len() < 16 {
        lemma_enc_block_len(c, xor_bytes(pad_block(data), reg));
        vstd::arithmetic::div_mod::lemma_fundamental_div_mod_converse(n, 16, 0, n);
    } else {
        let ct = c.enc_block(xor_bytes(data.take(16), reg));
        lemma_enc_block_len(c, xor_bytes(data.take(16), reg));
        lemma_cbc_encrypt_len(c, ct, data.skip(16));
        vstd::arithmetic::div_mod::lemma_fundamental_div_mod(n, 16);
        vstd::arithmetic::div_mod::lemma_mod_bound(n, 16);
        vstd::arithmetic::div_mod::lemma_fundamental_div_mod_converse(
            n - 16,
            16,
            n / 16 - 1,
            n % 16,
        );
    }
}

/// What encryption returns for each mode is as long as the length
/// invariants say: unchanged for the keystream modes, one padded block
/// more for CBC.
pub proof fn lemma_mode_encrypt_len(c: Sm4Cipher, m: CipherMode, iv: Seq<u8>, data: Seq<u8>)
    ensures
        m is Cbc ==> mode_encrypt_spec(c, m, iv, data).len() == 16 * (data.len() / 16 + 1),
        !(m is Cbc) ==> mode_encrypt_spec(c, m, iv, data).len() == data.len(),
{
    match m {
        CipherMode::Cfb => lemma_cfb_encrypt_len(c, iv, data),
        CipherMode::Ofb => lemma_ofb_len(c, iv, data),
        CipherMode::Ctr => lemma_ctr_len(c, iv, data),
        CipherMode::Cbc => lemma_cbc_encrypt_len(c, iv, data),
    }
}

// ---------------------------------------------------------------------------
// Self-inverse modes: OFB and CTR encrypt and decrypt with the very same
// transform.
// ---------------------------------------------------------------------------

/// Applying the OFB transform twice under the same register recovers the
/// input.
pub proof fn lemma_ofb_self_inverse(c: Sm4Cipher, reg: Seq<u8>, data: Seq<u8>)
    ensures
        ofb_spec(c, reg, ofb_spec(c, reg, data)) == data,
    decreases data.len(),
{
    let ks = c.enc_block(reg);
    let enc = ofb_spec(c, reg, data);
    if data.len() < 16 {
        lemma_xor_bytes_cancel(data, ks);
    } else {
        let ct = xor_bytes(data.take(16), ks);
        assert(enc.take(16) =~= ct);
        assert(enc.skip(16) =~= ofb_spec(c, ks, data.skip(16)));
        lemma_xor_bytes_cancel(data.take(16), ks);
        lemma_ofb_self_inverse(c, ks, data.skip(16));
        assert(xor_bytes(enc.take(16), ks) + ofb_spec(c, ks, enc.skip(16)) =~= data);
    }
}

/// Applying the CTR transform twice under the same counter recovers the
/// input.
pub proof fn lemma_ctr_self_inverse(c: Sm4Cipher, reg: Seq<u8>, data: Seq<u8>)
    ensures
        ctr_spec(c, reg, ctr_spec(c, reg, data)) == data,
    decreases data.len(),
{
    let ks = c.enc_block(reg);
    let enc = ctr_spec(c, reg, data);
    if data.len() < 16 {
        lemma_xor_bytes_cancel(data, ks);
    } else {
        let ct = xor_bytes(data.take(16), ks);
        let next = crate::cipher_mode::inc_counter(reg);
        assert(enc.take(16) =~= ct);
        assert(enc.skip(16) =~= ctr_spec(c, next, data.skip(16)));
        lemma_xor_bytes_cancel(data.take(16), ks);
        lemma_ctr_self_inverse(c, next, data.skip(16));
        assert(xor_bytes(enc.take(16), ks) + ctr_spec(c, next, enc.skip(16)) =~= data);
    }
}

// ---------------------------------------------------------------------------
// Round trips: decrypting what was encrypted recovers the plaintext, in
// every mode.
// ---------------------------------------------------------------------------

/// CFB decryption inverts CFB encryption under the same register.
pub proof fn lemma_cfb_round_trip(c: Sm4Cipher, reg: Seq<u8>, data: Seq<u8>)
    ensures
        cfb_decrypt_spec(c, reg, cfb_encrypt_spec(c, reg, data)) == data,
    decreases data.len(),
{
    let ks = c.enc_block(reg);
    let enc = cfb_encrypt_spec(c, reg, data);
    if data.len() < 16 {
        lemma_xor_bytes_cancel(data, ks);
    } else {
        let ct = xor_bytes(data.take(16), ks);
        assert(enc.take(16) =~= ct);
        assert(enc.skip(16) =~= cfb_encrypt_spec(c, ct, data.skip(16)));
        lemma_xor_bytes_cancel(data.take(16), ks);
        lemma_cfb_round_trip(c, ct, data.skip(16));
        assert(xor_bytes(enc.take(16), ks) + cfb_decrypt_spec(c, ct, enc.skip(16)) =~= data);
    }
}

/// The pad length CBC appends to a message of `n` bytes: up to the next
/// block boundary, a whole block when `n` is already a multiple of 16.
pub open spec fn cbc_pad_len(n: int) -> int {
    16 - n % 16
}

/// A message extended by the padding CBC encryption folds in.
pub open spec fn cbc_padded(data: Seq<u8>) -> Seq<u8> {
    data + Seq::new(cbc_pad_len(data.len() as int) as nat, |i: int| cbc_pad_len(
        data.len() as int,
    ) as u8)
}

/// Decrypting the blocks of a CBC encryption recovers the padded message.
pub proof fn lemma_cbc_blocks_round_trip(c: Sm4Cipher, reg: Seq<u8>, data: Seq<u8>)
    requires
        c.wf(),
    ensures
        cbc_decrypt_blocks(c, reg, cbc_encrypt_spec(c, reg, data)) == cbc_padded(data),
    decreases data.len(),
{
    let n = data.len() as int;
    let enc = cbc_encrypt_spec(c, reg, data);
    if data.len() < 16 {
        let x = xor_bytes(pad_block(data), reg);
        lemma_enc_block_len(c, x);
        assert(enc.take(16) =~= enc);
        assert(enc.skip(16) =~= Seq::<u8>::empty());
        lemma_block_round_trip(c, x);
        lemma_xor_bytes_cancel(pad_block(data), reg);
        vstd::arithmetic::div_mod::lemma_fundamental_div_mod_converse(n, 16, 0, n);
        assert(xor_bytes(c.dec_block(enc.take(16)), reg) + cbc_decrypt_blocks(
            c,
            enc.take(16),
            enc.skip(16),
        ) =~= cbc_padded(data));
    } else {
        let y = xor_bytes(data.take(16), reg);
        let ct = c.enc_block(y);
        lemma_enc_block_len(c, y);
        assert(enc.take(16) =~= ct);
        assert(enc.skip(16) =~= cbc_encrypt_spec(c, ct, data.skip(16)));
        lemma_block_round_trip(c, y);
        lemma_xor_bytes_cancel(data.take(16), reg);
        lemma_cbc_blocks_round_trip(c, ct, data.skip(16));
        vstd::arithmetic::div_mod::lemma_fundamental_div_mod(n, 16);
        vstd::arithmetic::div_mod::lemma_mod_bound(n, 16);
        vstd::arithmetic::div_mod::lemma_fundamental_div_mod_converse(
            n - 16,
            16,
            n / 16 - 1,
            n % 16,
        );
        assert(cbc_pad_len(n - 16) == cbc_pad_len(n));
        assert(xor_bytes(c.dec_block(enc.take(16)), reg) + cbc_decrypt_blocks(
            c,
            enc.take(16),
            enc.skip(16),
        ) =~= cbc_padded(data));
    }
}

/// The full CBC decryption inverts CBC encryption: the length check
/// passes, the recovered pad byte is valid, and stripping it gives the
/// plaintext back.
pub proof fn lemma_cbc_round_trip(c: Sm4Cipher, iv: Seq<u8>, data: Seq<u8>)
    requires
        c.wf(),
    ensures
        cbc_decrypt_spec(c, iv, cbc_encrypt_spec(c, iv, data)) == Ok::<Seq<u8>, Sm4Error>(data),
{
    let n = data.len() as int;
    let enc = cbc_encrypt_spec(c, iv, data);
    lemma_cbc_encrypt_len(c, iv, data);
    vstd::arithmetic::div_mod::lemma_fundamental_div_mod(n, 16);
    vstd::arithmetic::div_mod::lemma_mod_bound(n, 16);
    let q = n / 16;
    assert(enc.len() == 16 * (q + 1));
    vstd::arithmetic::div_mod::lemma_fundamental_div_mod_converse(16 * (q + 1), 16, q + 1, 0);
    lemma_cbc_blocks_round_trip(c, iv, data);
    let raw = cbc_decrypt_blocks(c, iv, enc);
    let pl = cbc_pad_len(n);
    assert(1 <= pl <= 16);
    assert(raw.len() == n + pl);
    assert(raw.last() == pl as u8);
    assert(raw.take(raw.len() - (pl as u8)) =~= data);
}

/// Decrypting what was encrypted recovers the plaintext, in every mode,
/// for every well-formed cipher, every 16-byte vector and every message.
pub proof fn lemma_mode_round_trip(c: Sm4Cipher, m: CipherMode, iv: Seq<u8>, data: Seq<u8>)
    requires
        c.wf(),
    ensures
        mode_decrypt_spec(c, m, iv, mode_encrypt_spec(c, m, iv, data)) == Ok::<Seq<u8>, Sm4Error>(
            data,
        ),
{
    match m {
        CipherMode::Cfb => lemma_cfb_round_trip(c, iv, data),
        CipherMode::Ofb => lemma_ofb_self_inverse(c, iv, data),
        CipherMode::Ctr => lemma_ctr_self_inverse(c, iv, data),
        CipherMode::Cbc => lemma_cbc_round_trip(c, iv, data),
    }
}

} // verus!
