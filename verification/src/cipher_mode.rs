//! Modes of operation over the SM4 block cipher: cipher feedback (CFB),
//! output feedback (OFB), counter (CTR) and cipher block chaining (CBC).
//!
//! Each mode transforms a byte buffer of any length under a 16-byte
//! initialization vector, driving the block primitive once per 16-byte
//! block through a chaining register.  The spec functions in this module
//! give each transform its mathematical meaning; `laws` proves the
//! round-trip, length and self-inverse properties over them.

use vstd::prelude::*;
use vstd::slice::slice_subrange;

use crate::cipher::Sm4Cipher;

verus! {

/// The errors the mode layer reports on malformed input.
#[derive(Clone, Copy, Debug, PartialEq, Eq)]
pub enum Sm4Error {
    /// The key handed to the constructor is not 16 bytes.
    InvalidKeyLength,
    /// The initialization vector is not 16 bytes.
    InvalidIVLength,
    /// A CBC ciphertext length is not a multiple of the block size.
    InvalidCiphertextLength,
    /// A CBC plaintext ends in a padding byte outside `1..=16`.
    InvalidPadding,
}

/// The four supported modes of operation.
#[derive(Clone, Copy, Debug)]
pub enum CipherMode {
    Cfb,
    Ofb,
    Ctr,
    Cbc,
}

// ---------------------------------------------------------------------------
// Block utilities
// ---------------------------------------------------------------------------

/// The first `d.len()` bytes of `d` XORed against `ks` pointwise.
pub open spec fn xor_bytes(d: Seq<u8>, ks: Seq<u8>) -> Seq<u8> {
    Seq::new(d.len(), |i: int| d[i] ^ ks[i])
}

/// The big-endian increment of `a` restricted to the bytes at or before
/// position `i`, carrying leftward and wrapping silently at position 0.
pub open spec fn inc_from(a: Seq<u8>, i: int) -> Seq<u8>
    decreases i,
{
    if i <= 0 {
        if a[0] == 255 {
            a.update(0, 0)
        } else {
            a.update(0, (a[0] + 1) as u8)
        }
    } else if a[i] == 255 {
        inc_from(a.update(i, 0), i - 1)
    } else {
        a.update(i, (a[i] + 1) as u8)
    }
}

/// A 16-byte buffer read as a big-endian 128-bit counter, plus one; an
/// all-`0xff` buffer wraps to all zero.
pub open spec fn inc_counter(a: Seq<u8>) -> Seq<u8> {
    inc_from(a, 15)
}

/// Byte-wise XOR of two 16-byte blocks.
pub fn block_xor(a: &[u8], b: &[u8]) -> (r: Vec<u8>)
    requires
        a@.len() == 16,
        b@.len() == 16,
    ensures
        r@ == xor_bytes(a@, b@),
        r@ == xor_bytes(b@, a@),
{
    let mut out: Vec<u8> = Vec::new();
    let mut i: usize = 0;
    while i < 16
        invariant
            a@.len() == 16,
            b@.len() == 16,
            i <= 16,
            out@.len() == i as int,
            forall|j: int| 0 <= j < i ==> out@[j] == (a@[j] ^ b@[j]),
        decreases 16 - i,
    {
        out.push(a[i] ^ b[i]);
        i = i + 1;
    }
    proof {
        assert forall|j: int| 0 <= j < 16 implies out@[j] == (b@[j] ^ a@[j]) by {
            let x = a@[j];
            let y = b@[j];
            assert(x ^ y == y ^ x) by (bit_vector);
        }
        assert(out@ =~= xor_bytes(a@, b@));
        assert(out@ =~= xor_bytes(b@, a@));
    }
    out
}

/// Adds one to a 16-byte buffer read as a big-endian unsigned integer,
/// in place, wrapping silently when every byte is `0xff`.
pub fn block_add_one(a: &mut Vec<u8>)
    requires
        old(a)@.len() == 16,
    ensures
        final(a)@ == inc_counter(old(a)@),
        final(a)@.len() == 16,
{
    let mut i: usize = 15;
    loop
        invariant_except_break
            inc_from(old(a)@, 15) == inc_from(a@, i as int),
        invariant
            a@.len() == 16,
            i < 16,
        ensures
            a@ == inc_from(old(a)@, 15),
        decreases i,
    {
        let ghost prev = a@;
        if a[i] != 255 {
            let v: u8 = a[i];
            a[i] = v + 1;
            proof {
                assert(a@ == inc_from(prev, i as int));
            }
            break ;
        } else {
            a[i] = 0;
            if i == 0 {
                proof {
                    assert(a@ == inc_from(prev, 0));
                }
                break ;
            }
            proof {
                assert(inc_from(prev, i as int) == inc_from(a@, i as int - 1));
            }
            i = i - 1;
        }
    }
}


// ---------------------------------------------------------------------------
// The meaning of each mode
// ---------------------------------------------------------------------------

/// CFB encryption from register `reg`: each full block XORs the data with
/// the encrypted register and feeds the ciphertext block back into the
/// register; a final partial block is XORed against one more keystream
/// block with no further register update.
pub open spec fn cfb_encrypt_spec(c: Sm4Cipher, reg: Seq<u8>, data: Seq<u8>) -> Seq<u8>
    decreases data.len(),
{
    let ks = c.enc_block(reg);
    if data.len() < 16 {
        xor_bytes(data, ks)
    } else {
        let ct = xor_bytes(data.take(16), ks);
        ct + cfb_encrypt_spec(c, ct, data.skip(16))
    }
}

/// CFB decryption from register `reg`: the register is fed from the input
/// ciphertext block in both directions, which is what makes CFB invertible
/// without the cipher's inverse.
pub open spec fn cfb_decrypt_spec(c: Sm4Cipher, reg: Seq<u8>, data: Seq<u8>) -> Seq<u8>
    decreases data.len(),
{
    let ks = c.enc_block(reg);
    if data.len() < 16 {
        xor_bytes(data, ks)
    } else {
        xor_bytes(data.take(16), ks) + cfb_decrypt_spec(c, data.take(16), data.skip(16))
    }
}

/// OFB in either direction: the register is fed from the keystream alone,
/// so the transform is its own inverse.
pub open spec fn ofb_spec(c: Sm4Cipher, reg: Seq<u8>, data: Seq<u8>) -> Seq<u8>
    decreases data.len(),
{
    let ks = c.enc_block(reg);
    if data.len() < 16 {
        xor_bytes(data, ks)
    } else {
        xor_bytes(data.take(16), ks) + ofb_spec(c, ks, data.skip(16))
    }
}

/// CTR in either direction: the register is a big-endian counter that is
/// incremented after each block, so the transform is its own inverse.
pub open spec fn ctr_spec(c: Sm4Cipher, reg: Seq<u8>, data: Seq<u8>) -> Seq<u8>
    decreases data.len(),
{
    let ks = c.enc_block(reg);
    if data.len() < 16 {
        xor_bytes(data, ks)
    } else {
        xor_bytes(data.take(16), ks) + ctr_spec(c, inc_counter(reg), data.skip(16))
    }
}

/// A short tail (under 16 bytes) extended to a full block: the pad value
/// is the number of bytes added, a whole block of `0x10` when the tail is
/// empty.
pub open spec fn pad_block(data: Seq<u8>) -> Seq<u8> {
    data + Seq::new((16 - data.len()) as nat, |i: int| (16 - data.len()) as u8)
}

/// CBC encryption from register `reg`; the padding block is always added,
/// so the result is one block longer than the data rounded down to whole
/// blocks.
pub open spec fn cbc_encrypt_spec(c: Sm4Cipher, reg: Seq<u8>, data: Seq<u8>) -> Seq<u8>
    decreases data.len(),
{
    if data.len() < 16 {
        c.enc_block(xor_bytes(pad_block(data), reg))
    } else {
        let ct = c.enc_block(xor_bytes(data.take(16), reg));
        ct + cbc_encrypt_spec(c, ct, data.skip(16))
    }
}

/// CBC decryption of whole blocks, before the padding is removed; the
/// register is fed from the input ciphertext block.
pub open spec fn cbc_decrypt_blocks(c: Sm4Cipher, reg: Seq<u8>, data: Seq<u8>) -> Seq<u8>
    decreases data.len(),
{
    if data.len() < 16 {
        Seq::empty()
    } else {
        xor_bytes(c.dec_block(data.take(16)), reg) + cbc_decrypt_blocks(
            c,
            data.take(16),
            data.skip(16),
        )
    }
}

/// The full CBC decryption: the length must be a positive multiple of 16,
/// and the recovered final byte must be a pad length in `1..=16`, which is
/// then stripped.
pub open spec fn cbc_decrypt_spec(c: Sm4Cipher, iv: Seq<u8>, data: Seq<u8>) -> Result<
    Seq<u8>,
    Sm4Error,
> {
    if data.len() % 16 != 0 {
        Err(Sm4Error::InvalidCiphertextLength)
    } else if data.len() == 0 {
        Err(Sm4Error::InvalidPadding)
    } else {
        let raw = cbc_decrypt_blocks(c, iv, data);
        let p = raw.last();
        if 1 <= p <= 16 {
            Ok(raw.take(raw.len() - p))
        } else {
            Err(Sm4Error::InvalidPadding)
        }
    }
}

/// What encryption returns for each mode, given a 16-byte register.
pub open spec fn mode_encrypt_spec(
    c: Sm4Cipher,
    m: CipherMode,
    iv: Seq<u8>,
    data: Seq<u8>,
) -> Seq<u8> {
    match m {
        CipherMode::Cfb => cfb_encrypt_spec(c, iv, data),
        CipherMode::Ofb => ofb_spec(c, iv, data),
        CipherMode::Ctr => ctr_spec(c, iv, data),
        CipherMode::Cbc => cbc_encrypt_spec(c, iv, data),
    }
}

/// What decryption returns for each mode, given a 16-byte register; only
/// CBC can reject its input.
pub open spec fn mode_decrypt_spec(
    c: Sm4Cipher,
    m: CipherMode,
    iv: Seq<u8>,
    data: Seq<u8>,
) -> Result<Seq<u8>, Sm4Error> {
    match m {
        CipherMode::Cfb => Ok(cfb_decrypt_spec(c, iv, data)),
        CipherMode::Ofb => Ok(ofb_spec(c, iv, data)),
        CipherMode::Ctr => Ok(ctr_spec(c, iv, data)),
        CipherMode::Cbc => cbc_decrypt_spec(c, iv, data),
    }
}

/// An executable byte result agrees with a mathematical byte result.
pub open spec fn result_matches(r: Result<Vec<u8>, Sm4Error>, s: Result<Seq<u8>, Sm4Error>) -> bool {
    match s {
        Ok(p) => r is Ok && r->Ok_0@ == p,
        Err(e) => r == Err::<Vec<u8>, Sm4Error>(e),
    }
}

// ---------------------------------------------------------------------------
// Sequence and arithmetic helpers
// ---------------------------------------------------------------------------

proof fn lemma_block_split(data: Seq<u8>, i: int)
    requires
        0 <= i,
        16 * i + 16 <= data.len(),
    ensures
        data.skip(16 * i).len() == data.len() - 16 * i,
        data.skip(16 * i).take(16) == data.subrange(16 * i, 16 * i + 16),
        data.skip(16 * i).skip(16) == data.skip(16 * (i + 1)),
{
    assert(data.skip(16 * i).take(16) =~= data.subrange(16 * i, 16 * i + 16));
    assert(data.skip(16 * i).skip(16) =~= data.skip(16 * (i + 1)));
}

proof fn lemma_block_count(len: int)
    requires
        0 <= len,
    ensures
        16 * (len / 16) <= len,
        len < 16 * (len / 16) + 16,
        0 <= len / 16,
{
    vstd::arithmetic::div_mod::lemma_fundamental_div_mod(len, 16);
    vstd::arithmetic::div_mod::lemma_mod_bound(len, 16);
}

// ---------------------------------------------------------------------------
// Executable helpers
// ---------------------------------------------------------------------------

fn copy_block(src: &[u8]) -> (r: Vec<u8>)
    requires
        src@.len() == 16,
    ensures
        r@ == src@,
{
    let mut out: Vec<u8> = Vec::new();
    let mut i: usize = 0;
    while i < 16
        invariant
            src@.len() == 16,
            i <= 16,
            out@ == src@.take(i as int),
        decreases 16 - i,
    {
        out.push(src[i]);
        proof {
            assert(src@.take(i as int + 1) =~= src@.take(i as int).push(src@[i as int]));
        }
        i = i + 1;
    }
    proof {
        assert(src@.take(16) =~= src@);
    }
    out
}

fn push_all(out: &mut Vec<u8>, src: &Vec<u8>)
    ensures
        final(out)@ == old(out)@ + src@,
{
    proof {
        assert(old(out)@ + src@.take(0) =~= old(out)@);
    }
    let mut i: usize = 0;
    while i < src.len()
        invariant
            i <= src@.len(),
            out@ == old(out)@ + src@.take(i as int),
        decreases src@.len() - i,
    {
        out.push(src[i]);
        proof {
            assert(old(out)@ + src@.take(i as int + 1) =~= (old(out)@ + src@.take(i as int)).push(
                src@[i as int],
            ));
        }
        i = i + 1;
    }
    proof {
        assert(src@.take(src@.len() as int) =~= src@);
    }
}

fn write_prefix(data: &mut Vec<u8>, src: &Vec<u8>, n: usize)
    requires
        n <= old(data)@.len(),
        src@.len() == n,
    ensures
        final(data)@ == src@ + old(data)@.skip(n as int),
{
    let mut i: usize = 0;
    while i < n
        invariant
            n <= data@.len(),
            src@.len() == n,
            data@.len() == old(data)@.len(),
            i <= n,
            forall|j: int| 0 <= j < i ==> data@[j] == src@[j],
            forall|j: int| i <= j < data@.len() ==> data@[j] == old(data)@[j],
        decreases n - i,
    {
        let v: u8 = src[i];
        data[i] = v;
        i = i + 1;
    }
    proof {
        assert(data@ =~= src@ + old(data)@.skip(n as int));
    }
}


// ---------------------------------------------------------------------------
// The mode context
// ---------------------------------------------------------------------------

/// An SM4 cipher bound to one mode of operation.  The context is stateless
/// between calls: each call builds its own chaining register from the
/// initialization vector it is given.
pub struct Sm4CipherMode {
    cipher: Sm4Cipher,
    mode: CipherMode,
}

impl Sm4CipherMode {
    /// Well-formed when the cipher inside carries its 32 round keys.
    pub closed spec fn wf(self) -> bool {
        self.cipher.wf()
    }

    /// The cipher instance inside this context.
    pub closed spec fn spec_cipher(self) -> Sm4Cipher {
        self.cipher
    }

    /// The mode this context dispatches to.
    pub closed spec fn spec_mode(self) -> CipherMode {
        self.mode
    }

    /// Binds a cipher expanded from a 16-byte key to a mode; any other key
    /// length is rejected.
    pub fn new(key: &[u8], mode: CipherMode) -> (r: Result<Sm4CipherMode, Sm4Error>)
        ensures
            key@.len() == 16 ==> r is Ok && r->Ok_0.wf() && r->Ok_0.spec_mode() == mode
                && r->Ok_0.spec_cipher().round_keys() == crate::cipher::spec_round_keys(key@),
            key@.len() != 16 ==> r == Err::<Sm4CipherMode, Sm4Error>(Sm4Error::InvalidKeyLength),
    {
        if key.len() != 16 {
            return Err(Sm4Error::InvalidKeyLength);
        }
        let cipher = Sm4Cipher::new(key);
        Ok(Sm4CipherMode { cipher, mode })
    }

    /// Encrypts `data` under the 16-byte vector `iv` in this context's
    /// mode; any other vector length is rejected.
    pub fn encrypt(&self, data: &[u8], iv: &[u8]) -> (r: Result<Vec<u8>, Sm4Error>)
        requires
            self.wf(),
        ensures
            iv@.len() != 16 ==> r == Err::<Vec<u8>, Sm4Error>(Sm4Error::InvalidIVLength),
            iv@.len() == 16 ==> r is Ok && r->Ok_0@ == mode_encrypt_spec(
                self.spec_cipher(),
                self.spec_mode(),
                iv@,
                data@,
            ),
    {
        if iv.len() != 16 {
            return Err(Sm4Error::InvalidIVLength);
        }
        match self.mode {
            CipherMode::Cfb => Ok(self.cfb_encrypt(data, iv)),
            CipherMode::Ofb => Ok(self.ofb_encrypt(data, iv)),
            CipherMode::Ctr => Ok(self.ctr_encrypt(data, iv)),
            CipherMode::Cbc => Ok(self.cbc_encrypt(data, iv)),
        }
    }

    /// Decrypts `data` under the 16-byte vector `iv` in this context's
    /// mode.  OFB and CTR decrypt through the very transform that
    /// encrypts; CBC additionally rejects a length that is not a positive
    /// multiple of 16 and a final pad byte outside `1..=16`.
    pub fn decrypt(&self, data: &[u8], iv: &[u8]) -> (r: Result<Vec<u8>, Sm4Error>)
        requires
            self.wf(),
        ensures
            iv@.len() != 16 ==> r == Err::<Vec<u8>, Sm4Error>(Sm4Error::InvalidIVLength),
            iv@.len() == 16 ==> result_matches(
                r,
                mode_decrypt_spec(self.spec_cipher(), self.spec_mode(), iv@, data@),
            ),
    {
        if iv.len() != 16 {
            return Err(Sm4Error::InvalidIVLength);
        }
        match self.mode {
            CipherMode::Cfb => Ok(self.cfb_decrypt(data, iv)),
            CipherMode::Ofb => Ok(self.ofb_encrypt(data, iv)),
            CipherMode::Ctr => Ok(self.ctr_encrypt(data, iv)),
            CipherMode::Cbc => self.cbc_decrypt(data, iv),
        }
    }

    fn cfb_encrypt(&self, data: &[u8], iv: &[u8]) -> (r: Vec<u8>)
        requires
            self.wf(),
            iv@.len() == 16,
        ensures
            r@ == cfb_encrypt_spec(self.cipher, iv@, data@),
    {
        let ghost c = self.cipher;
        let block_num: usize = data.len() / 16;
        proof {
            lemma_block_count(data@.len() as int);
        }
        let mut out: Vec<u8> = Vec::new();
        let mut reg = copy_block(iv);
        proof {
            assert(data@.skip(0) =~= data@);
        }
        let mut i: usize = 0;
        while i < block_num
            invariant
                self.wf(),
                c == self.cipher,
                reg@.len() == 16,
                block_num == data@.len() / 16,
                data@.len() <= usize::MAX,
                16 * block_num <= data@.len(),
                data@.len() < 16 * block_num + 16,
                i <= block_num,
                out@.len() == 16 * i,
                cfb_encrypt_spec(c, iv@, data@) == out@ + cfb_encrypt_spec(
                    c,
                    reg@,
                    data@.skip(16 * i as int),
                ),
            decreases block_num - i,
        {
            proof {
                lemma_block_split(data@, i as int);
            }
            let ghost rem = data@.skip(16 * i as int);
            let ks = self.cipher.encrypt(reg.as_slice());
            let ct = block_xor(slice_subrange(data, 16 * i, 16 * i + 16), ks.as_slice());
            proof {
                assert(cfb_encrypt_spec(c, reg@, rem) == ct@ + cfb_encrypt_spec(
                    c,
                    ct@,
                    data@.skip(16 * (i as int + 1)),
                ));
            }
            let ghost out0 = out@;
            push_all(&mut out, &ct);
            reg = ct;
            proof {
                let x = cfb_encrypt_spec(c, reg@, data@.skip(16 * (i as int + 1)));
                assert(out0 + (reg@ + x) =~= (out0 + reg@) + x);
            }
            i = i + 1;
        }
        let ks = self.cipher.encrypt(reg.as_slice());
        let ghost rem = data@.skip(16 * block_num as int);
        let ghost snap = out@;
        proof {
            assert(snap + xor_bytes(rem.take(0), ks@) =~= snap);
        }
        let tail_len: usize = data.len() - block_num * 16;
        let mut j: usize = 0;
        while j < tail_len
            invariant
                ks@.len() == 16,
                tail_len < 16,
                16 * block_num + tail_len == data@.len(),
                data@.len() <= usize::MAX,
                rem == data@.skip(16 * block_num as int),
                rem.len() == tail_len,
                j <= tail_len,
                out@ == snap + xor_bytes(rem.take(j as int), ks@),
            decreases tail_len - j,
        {
            out.push(data[block_num * 16 + j] ^ ks[j]);
            proof {
                assert(xor_bytes(rem.take(j as int + 1), ks@) =~= xor_bytes(
                    rem.take(j as int),
                    ks@,
                ).push(rem[j as int] ^ ks@[j as int]));
            }
            j = j + 1;
        }
        proof {
            assert(rem.take(tail_len as int) =~= rem);
            assert(cfb_encrypt_spec(c, reg@, rem) == xor_bytes(rem, ks@));
        }
        out
    }

    fn cfb_decrypt(&self, data: &[u8], iv: &[u8]) -> (r: Vec<u8>)
        requires
            self.wf(),
            iv@.len() == 16,
        ensures
            r@ == cfb_decrypt_spec(self.cipher, iv@, data@),
    {
        let ghost c = self.cipher;
        let block_num: usize = data.len() / 16;
        proof {
            lemma_block_count(data@.len() as int);
        }
        let mut out: Vec<u8> = Vec::new();
        let mut reg = copy_block(iv);
        proof {
            assert(data@.skip(0) =~= data@);
        }
        let mut i: usize = 0;
        while i < block_num
            invariant
                self.wf(),
                c == self.cipher,
                reg@.len() == 16,
                block_num == data@.len() / 16,
                data@.len() <= usize::MAX,
                16 * block_num <= data@.len(),
                data@.len() < 16 * block_num + 16,
                i <= block_num,
                out@.len() == 16 * i,
                cfb_decrypt_spec(c, iv@, data@) == out@ + cfb_decrypt_spec(
                    c,
                    reg@,
                    data@.skip(16 * i as int),
                ),
            decreases block_num - i,
        {
            proof {
                lemma_block_split(data@, i as int);
            }
            let ghost rem = data@.skip(16 * i as int);
            let ks = self.cipher.encrypt(reg.as_slice());
            let ctslice = slice_subrange(data, 16 * i, 16 * i + 16);
            let pt = block_xor(ctslice, ks.as_slice());
            proof {
                assert(cfb_decrypt_spec(c, reg@, rem) == pt@ + cfb_decrypt_spec(
                    c,
                    rem.take(16),
                    data@.skip(16 * (i as int + 1)),
                ));
            }
            let ghost out0 = out@;
            push_all(&mut out, &pt);
            reg = copy_block(ctslice);
            proof {
                let x = cfb_decrypt_spec(c, reg@, data@.skip(16 * (i as int + 1)));
                assert(out0 + (pt@ + x) =~= (out0 + pt@) + x);
            }
            i = i + 1;
        }
        let ks = self.cipher.encrypt(reg.as_slice());
        let ghost rem = data@.skip(16 * block_num as int);
        let ghost snap = out@;
        proof {
            assert(snap + xor_bytes(rem.take(0), ks@) =~= snap);
        }
        let tail_len: usize = data.len() - block_num * 16;
        let mut j: usize = 0;
        while j < tail_len
            invariant
                ks@.len() == 16,
                tail_len < 16,
                16 * block_num + tail_len == data@.len(),
                data@.len() <= usize::MAX,
                rem == data@.skip(16 * block_num as int),
                rem.len() == tail_len,
                j <= tail_len,
                out@ == snap + xor_bytes(rem.take(j as int), ks@),
            decreases tail_len - j,
        {
            out.push(data[block_num * 16 + j] ^ ks[j]);
            proof {
                assert(xor_bytes(rem.take(j as int + 1), ks@) =~= xor_bytes(
                    rem.take(j as int),
                    ks@,
                ).push(rem[j as int] ^ ks@[j as int]));
            }
            j = j + 1;
        }
        proof {
            assert(rem.take(tail_len as int) =~= rem);
            assert(cfb_decrypt_spec(c, reg@, rem) == xor_bytes(rem, ks@));
        }
        out
    }

    fn ofb_encrypt(&self, data: &[u8], iv: &[u8]) -> (r: Vec<u8>)
        requires
            self.wf(),
            iv@.len() == 16,
        ensures
            r@ == ofb_spec(self.cipher, iv@, data@),
    {
        let ghost c = self.cipher;
        let block_num: usize = data.len() / 16;
        proof {
            lemma_block_count(data@.len() as int);
        }
        let mut out: Vec<u8> = Vec::new();
        let mut reg = copy_block(iv);
        proof {
            assert(data@.skip(0) =~= data@);
        }
        let mut i: usize = 0;
        while i < block_num
            invariant
                self.wf(),
                c == self.cipher,
                reg@.len() == 16,
                block_num == data@.len() / 16,
                data@.len() <= usize::MAX,
                16 * block_num <= data@.len(),
                data@.len() < 16 * block_num + 16,
                i <= block_num,
                out@.len() == 16 * i,
                ofb_spec(c, iv@, data@) == out@ + ofb_spec(c, reg@, data@.skip(16 * i as int)),
            decreases block_num - i,
        {
            proof {
                lemma_block_split(data@, i as int);
            }
            let ghost rem = data@.skip(16 * i as int);
            let ks = self.cipher.encrypt(reg.as_slice());
            let ct = block_xor(slice_subrange(data, 16 * i, 16 * i + 16), ks.as_slice());
            proof {
                assert(ofb_spec(c, reg@, rem) == ct@ + ofb_spec(
                    c,
                    ks@,
                    data@.skip(16 * (i as int + 1)),
                ));
            }
            let ghost out0 = out@;
            push_all(&mut out, &ct);
            proof {
                let x = ofb_spec(c, ks@, data@.skip(16 * (i as int + 1)));
                assert(out0 + (ct@ + x) =~= (out0 + ct@) + x);
            }
            reg = ks;
            i = i + 1;
        }
        let ks = self.cipher.encrypt(reg.as_slice());
        let ghost rem = data@.skip(16 * block_num as int);
        let ghost snap = out@;
        proof {
            assert(snap + xor_bytes(rem.take(0), ks@) =~= snap);
        }
        let tail_len: usize = data.len() - block_num * 16;
        let mut j: usize = 0;
        while j < tail_len
            invariant
                ks@.len() == 16,
                tail_len < 16,
                16 * block_num + tail_len == data@.len(),
                data@.len() <= usize::MAX,
                rem == data@.skip(16 * block_num as int),
                rem.len() == tail_len,
                j <= tail_len,
                out@ == snap + xor_bytes(rem.take(j as int), ks@),
            decreases tail_len - j,
        {
            out.push(data[block_num * 16 + j] ^ ks[j]);
            proof {
                assert(xor_bytes(rem.take(j as int + 1), ks@) =~= xor_bytes(
                    rem.take(j as int),
                    ks@,
                ).push(rem[j as int] ^ ks@[j as int]));
            }
            j = j + 1;
        }
        proof {
            assert(rem.take(tail_len as int) =~= rem);
            assert(ofb_spec(c, reg@, rem) == xor_bytes(rem, ks@));
        }
        out
    }

    fn ctr_encrypt(&self, data: &[u8], iv: &[u8]) -> (r: Vec<u8>)
        requires
            self.wf(),
            iv@.len() == 16,
        ensures
            r@ == ctr_spec(self.cipher, iv@, data@),
    {
        let ghost c = self.cipher;
        let block_num: usize = data.len() / 16;
        proof {
            lemma_block_count(data@.len() as int);
        }
        let mut out: Vec<u8> = Vec::new();
        let mut reg = copy_block(iv);
        proof {
            assert(data@.skip(0) =~= data@);
        }
        let mut i: usize = 0;
        while i < block_num
            invariant
                self.wf(),
                c == self.cipher,
                reg@.len() == 16,
                block_num == data@.len() / 16,
                data@.len() <= usize::MAX,
                16 * block_num <= data@.len(),
                data@.len() < 16 * block_num + 16,
                i <= block_num,
                out@.len() == 16 * i,
                ctr_spec(c, iv@, data@) == out@ + ctr_spec(c, reg@, data@.skip(16 * i as int)),
            decreases block_num - i,
        {
            proof {
                lemma_block_split(data@, i as int);
            }
            let ghost rem = data@.skip(16 * i as int);
            let ks = self.cipher.encrypt(reg.as_slice());
            let ct = block_xor(slice_subrange(data, 16 * i, 16 * i + 16), ks.as_slice());
            proof {
                assert(ctr_spec(c, reg@, rem) == ct@ + ctr_spec(
                    c,
                    inc_counter(reg@),
                    data@.skip(16 * (i as int + 1)),
                ));
            }
            let ghost out0 = out@;
            push_all(&mut out, &ct);
            block_add_one(&mut reg);
            proof {
                let x = ctr_spec(c, reg@, data@.skip(16 * (i as int + 1)));
                assert(out0 + (ct@ + x) =~= (out0 + ct@) + x);
            }
            i = i + 1;
        }
        let ks = self.cipher.encrypt(reg.as_slice());
        let ghost rem = data@.skip(16 * block_num as int);
        let ghost snap = out@;
        proof {
            assert(snap + xor_bytes(rem.take(0), ks@) =~= snap);
        }
        let tail_len: usize = data.len() - block_num * 16;
        let mut j: usize = 0;
        while j < tail_len
            invariant
                ks@.len() == 16,
                tail_len < 16,
                16 * block_num + tail_len == data@.len(),
                data@.len() <= usize::MAX,
                rem == data@.skip(16 * block_num as int),
                rem.len() == tail_len,
                j <= tail_len,
                out@ == snap + xor_bytes(rem.take(j as int), ks@),
            decreases tail_len - j,
        {
            out.push(data[block_num * 16 + j] ^ ks[j]);
            proof {
                assert(xor_bytes(rem.take(j as int + 1), ks@) =~= xor_bytes(
                    rem.take(j as int),
                    ks@,
                ).push(rem[j as int] ^ ks@[j as int]));
            }
            j = j + 1;
        }
        proof {
            assert(rem.take(tail_len as int) =~= rem);
            assert(ctr_spec(c, reg@, rem) == xor_bytes(rem, ks@));
        }
        out
    }

    fn cbc_encrypt(&self, data: &[u8], iv: &[u8]) -> (r: Vec<u8>)
        requires
            self.wf(),
            iv@.len() == 16,
        ensures
            r@ == cbc_encrypt_spec(self.cipher, iv@, data@),
    {
        let ghost c = self.cipher;
        let block_num: usize = data.len() / 16;
        proof {
            lemma_block_count(data@.len() as int);
        }
        let mut out: Vec<u8> = Vec::new();
        let mut reg = copy_block(iv);
        proof {
            assert(data@.skip(0) =~= data@);
        }
        let mut i: usize = 0;
        while i < block_num
            invariant
                self.wf(),
                c == self.cipher,
                reg@.len() == 16,
                block_num == data@.len() / 16,
                data@.len() <= usize::MAX,
                16 * block_num <= data@.len(),
                data@.len() < 16 * block_num + 16,
                i <= block_num,
                out@.len() == 16 * i,
                cbc_encrypt_spec(c, iv@, data@) == out@ + cbc_encrypt_spec(
                    c,
                    reg@,
                    data@.skip(16 * i as int),
                ),
            decreases block_num - i,
        {
            proof {
                lemma_block_split(data@, i as int);
            }
            let ghost rem = data@.skip(16 * i as int);
            let xored = block_xor(slice_subrange(data, 16 * i, 16 * i + 16), reg.as_slice());
            let ct = self.cipher.encrypt(xored.as_slice());
            proof {
                assert(cbc_encrypt_spec(c, reg@, rem) == ct@ + cbc_encrypt_spec(
                    c,
                    ct@,
                    data@.skip(16 * (i as int + 1)),
                ));
            }
            let ghost out0 = out@;
            push_all(&mut out, &ct);
            reg = ct;
            proof {
                let x = cbc_encrypt_spec(c, reg@, data@.skip(16 * (i as int + 1)));
                assert(out0 + (reg@ + x) =~= (out0 + reg@) + x);
            }
            i = i + 1;
        }
        let ghost rem = data@.skip(16 * block_num as int);
        let tail_len: usize = data.len() - block_num * 16;
        let pad: u8 = (16 - tail_len) as u8;
        let mut last: Vec<u8> = Vec::new();
        let mut j: usize = 0;
        while j < tail_len
            invariant
                tail_len < 16,
                16 * block_num + tail_len == data@.len(),
                data@.len() <= usize::MAX,
                rem == data@.skip(16 * block_num as int),
                rem.len() == tail_len,
                j <= tail_len,
                last@ == rem.take(j as int),
            decreases tail_len - j,
        {
            last.push(data[block_num * 16 + j]);
            proof {
                assert(rem.take(j as int + 1) =~= rem.take(j as int).push(rem[j as int]));
            }
            j = j + 1;
        }
        proof {
            assert(rem.take(tail_len as int) =~= rem);
        }
        while last.len() < 16
            invariant
                tail_len < 16,
                rem.len() == tail_len,
                pad == 16 - tail_len,
                tail_len <= last@.len() <= 16,
                last@.take(tail_len as int) == rem,
                forall|k: int| tail_len <= k < last@.len() ==> last@[k] == pad,
            decreases 16 - last@.len(),
        {
            let ghost last0 = last@;
            last.push(pad);
            proof {
                assert(last@.take(tail_len as int) =~= last0.take(tail_len as int));
            }
        }
        proof {
            assert(last@ =~= pad_block(rem));
        }
        let xored = block_xor(last.as_slice(), reg.as_slice());
        let ct = self.cipher.encrypt(xored.as_slice());
        push_all(&mut out, &ct);
        proof {
            assert(cbc_encrypt_spec(c, reg@, rem) == c.enc_block(xor_bytes(pad_block(rem), reg@)));
        }
        out
    }

    fn cbc_decrypt(&self, data: &[u8], iv: &[u8]) -> (r: Result<Vec<u8>, Sm4Error>)
        requires
            self.wf(),
            iv@.len() == 16,
        ensures
            result_matches(r, cbc_decrypt_spec(self.cipher, iv@, data@)),
    {
        if data.len() % 16 != 0 {
            return Err(Sm4Error::InvalidCiphertextLength);
        }
        if data.len() == 0 {
            return Err(Sm4Error::InvalidPadding);
        }
        let ghost c = self.cipher;
        let block_num: usize = data.len() / 16;
        proof {
            lemma_block_count(data@.len() as int);
            assert(16 * block_num == data@.len());
        }
        let mut out: Vec<u8> = Vec::new();
        let mut reg = copy_block(iv);
        proof {
            assert(data@.skip(0) =~= data@);
        }
        let mut i: usize = 0;
        while i < block_num
            invariant
                self.wf(),
                c == self.cipher,
                reg@.len() == 16,
                block_num == data@.len() / 16,
                data@.len() <= usize::MAX,
                16 * block_num == data@.len(),
                data@.len() <= usize::MAX,
                i <= block_num,
                out@.len() == 16 * i,
                cbc_decrypt_blocks(c, iv@, data@) == out@ + cbc_decrypt_blocks(
                    c,
                    reg@,
                    data@.skip(16 * i as int),
                ),
            decreases block_num - i,
        {
            proof {
                lemma_block_split(data@, i as int);
                crate::cipher::lemma_dec_block_len(c, data@.skip(16 * i as int).take(16));
            }
            let ghost rem = data@.skip(16 * i as int);
            let ctslice = slice_subrange(data, 16 * i, 16 * i + 16);
            let dec = self.cipher.decrypt(ctslice);
            let pt = block_xor(dec.as_slice(), reg.as_slice());
            proof {
                assert(cbc_decrypt_blocks(c, reg@, rem) == pt@ + cbc_decrypt_blocks(
                    c,
                    rem.take(16),
                    data@.skip(16 * (i as int + 1)),
                ));
            }
            let ghost out0 = out@;
            push_all(&mut out, &pt);
            reg = copy_block(ctslice);
            proof {
                let x = cbc_decrypt_blocks(c, reg@, data@.skip(16 * (i as int + 1)));
                assert(out0 + (pt@ + x) =~= (out0 + pt@) + x);
            }
            i = i + 1;
        }
        proof {
            let rem = data@.skip(16 * block_num as int);
            assert(rem.len() == 0);
            assert(cbc_decrypt_blocks(c, reg@, rem) == Seq::<u8>::empty());
            assert(out@ + Seq::<u8>::empty() =~= out@);
            assert(out@ == cbc_decrypt_blocks(c, iv@, data@));
        }
        let p: u8 = out[out.len() - 1];
        proof {
            assert(p == cbc_decrypt_blocks(c, iv@, data@).last());
        }
        if 1 <= p && p <= 16 {
            let keep: usize = data.len() - (p as usize);
            out.truncate(keep);
            proof {
                let raw = cbc_decrypt_blocks(c, iv@, data@);
                assert(out@ =~= raw.take(raw.len() - p));
            }
            Ok(out)
        } else {
            Err(Sm4Error::InvalidPadding)
        }
    }

    /// CFB-encrypts the first `datalen` bytes of `data` in place, leaving
    /// the rest of the buffer unchanged.
    pub fn cfb_encrypt_inplace(&self, data: &mut Vec<u8>, iv: &[u8], datalen: usize)
        requires
            self.wf(),
            iv@.len() == 16,
            datalen <= old(data)@.len(),
        ensures
            final(data)@ == cfb_encrypt_spec(
                self.spec_cipher(),
                iv@,
                old(data)@.take(datalen as int),
            ) + old(data)@.skip(datalen as int),
            final(data)@.len() == old(data)@.len(),
    {
        let prefix = slice_subrange(data.as_slice(), 0, datalen);
        let ct = self.cfb_encrypt(prefix, iv);
        proof {
            crate::laws::lemma_cfb_encrypt_len(self.cipher, iv@, old(data)@.take(datalen as int));
            assert(old(data)@.subrange(0, datalen as int) =~= old(data)@.take(datalen as int));
        }
        write_prefix(data, &ct, datalen);
    }

    /// CFB-decrypts the first `klen` bytes of `data` in place, leaving the
    /// rest of the buffer unchanged.
    pub fn cfb_decrypt_inplace(&self, data: &mut Vec<u8>, iv: &[u8], klen: usize)
        requires
            self.wf(),
            iv@.len() == 16,
            klen <= old(data)@.len(),
        ensures
            final(data)@ == cfb_decrypt_spec(self.spec_cipher(), iv@, old(data)@.take(klen as int))
                + old(data)@.skip(klen as int),
            final(data)@.len() == old(data)@.len(),
    {
        let prefix = slice_subrange(data.as_slice(), 0, klen);
        let pt = self.cfb_decrypt(prefix, iv);
        proof {
            crate::laws::lemma_cfb_decrypt_len(self.cipher, iv@, old(data)@.take(klen as int));
            assert(old(data)@.subrange(0, klen as int) =~= old(data)@.take(klen as int));
        }
        write_prefix(data, &pt, klen);
    }

    /// CTR-transforms the first `datalen` bytes of `data` in place, leaving
    /// the rest of the buffer unchanged.
    pub fn tctr_encrypt_inplace(&self, data: &mut Vec<u8>, iv: &[u8], datalen: usize)
        requires
            self.wf(),
            iv@.len() == 16,
            datalen <= old(data)@.len(),
        ensures
            final(data)@ == ctr_spec(self.spec_cipher(), iv@, old(data)@.take(datalen as int))
                + old(data)@.skip(datalen as int),
            final(data)@.len() == old(data)@.len(),
    {
        let prefix = slice_subrange(data.as_slice(), 0, datalen);
        let ct = self.ctr_encrypt(prefix, iv);
        proof {
            crate::laws::lemma_ctr_len(self.cipher, iv@, old(data)@.take(datalen as int));
            assert(old(data)@.subrange(0, datalen as int) =~= old(data)@.take(datalen as int));
        }
        write_prefix(data, &ct, datalen);
    }

    /// CTR-transforms the first `datalen` bytes of `data` in place, as
    /// `tctr_encrypt_inplace` does.
    pub fn ctr_encrypt_inplace(&self, data: &mut Vec<u8>, iv: &[u8], datalen: usize)
        requires
            self.wf(),
            iv@.len() == 16,
            datalen <= old(data)@.len(),
        ensures
            final(data)@ == ctr_spec(self.spec_cipher(), iv@, old(data)@.take(datalen as int))
                + old(data)@.skip(datalen as int),
            final(data)@.len() == old(data)@.len(),
    {
        let prefix = slice_subrange(data.as_slice(), 0, datalen);
        let ct = self.ctr_encrypt(prefix, iv);
        proof {
            crate::laws::lemma_ctr_len(self.cipher, iv@, old(data)@.take(datalen as int));
            assert(old(data)@.subrange(0, datalen as int) =~= old(data)@.take(datalen as int));
        }
        write_prefix(data, &ct, datalen);
    }
}

} // verus!
