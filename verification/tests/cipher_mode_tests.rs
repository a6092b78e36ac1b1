use rand::RngCore;
use sm4_modes::cipher::Sm4Cipher;
use sm4_modes::cipher_mode::CipherMode;
use sm4_modes::cipher_mode::Sm4CipherMode;
use sm4_modes::cipher_mode::Sm4Error;
use sm4_modes::cipher_mode::block_add_one;
use sm4_modes::cipher_mode::block_xor;

fn rand_block() -> [u8; 16] {
    let mut rng = rand::thread_rng();
    let mut block: [u8; 16] = [0; 16];
    rng.fill_bytes(&mut block[..]);
    block
}

fn rand_data(len: usize) -> Vec<u8> {
    let mut rng = rand::thread_rng();
    let mut dat: Vec<u8> = Vec::new();
    dat.resize(len, 0);
    rng.fill_bytes(&mut dat[..]);
    dat
}

fn test_ciphermode(mode: CipherMode) {
    let key = rand_block();
    let iv = rand_block();

    let cmode = Sm4CipherMode::new(&key, mode).unwrap();

    let pt = rand_data(10);
    let ct = cmode.encrypt(&pt[..], &iv).unwrap();
    let new_pt = cmode.decrypt(&ct[..], &iv).unwrap();
    assert_eq!(pt, new_pt);

    let pt = rand_data(100);
    let ct = cmode.encrypt(&pt[..], &iv).unwrap();
    let new_pt = cmode.decrypt(&ct[..], &iv).unwrap();
    assert_eq!(pt, new_pt);

    let pt = rand_data(1000);
    let ct = cmode.encrypt(&pt[..], &iv).unwrap();
    let new_pt = cmode.decrypt(&ct[..], &iv).unwrap();
    assert_eq!(pt, new_pt);
}

#[test]
fn test_driver() {
    test_ciphermode(CipherMode::Ctr);
    test_ciphermode(CipherMode::Cfb);
    test_ciphermode(CipherMode::Ofb);
    test_ciphermode(CipherMode::Cbc);
}

fn fixed_key() -> [u8; 16] {
    [
        0x12, 0x34, 0x56, 0x78, 0x90, 0xab, 0xcd, 0xef, 0x12, 0x34, 0x56, 0x78, 0x90, 0xab, 0xcd,
        0xef,
    ]
}

fn fixed_iv() -> [u8; 16] {
    [
        0xfe, 0xdc, 0xba, 0x09, 0x87, 0x65, 0x43, 0x21, 0xfe, 0xdc, 0xba, 0x09, 0x87, 0x65, 0x43,
        0x21,
    ]
}

fn pattern_data(len: usize) -> Vec<u8> {
    let mut out: Vec<u8> = Vec::new();
    for i in 0..len {
        out.push((i % 251) as u8);
    }
    out
}

const LENGTHS: [usize; 7] = [0, 1, 15, 16, 17, 100, 1000];

#[test]
fn round_trip_all_modes_all_lengths() {
    for mode in [CipherMode::Cfb, CipherMode::Ofb, CipherMode::Ctr, CipherMode::Cbc] {
        let ctx = Sm4CipherMode::new(&fixed_key(), mode).unwrap();
        for len in LENGTHS {
            let pt = pattern_data(len);
            let ct = ctx.encrypt(&pt, &fixed_iv()).unwrap();
            let back = ctx.decrypt(&ct, &fixed_iv()).unwrap();
            assert_eq!(pt, back);
        }
    }
}

#[test]
fn stream_modes_preserve_length() {
    for mode in [CipherMode::Cfb, CipherMode::Ofb, CipherMode::Ctr] {
        let ctx = Sm4CipherMode::new(&fixed_key(), mode).unwrap();
        for len in LENGTHS {
            let pt = pattern_data(len);
            let ct = ctx.encrypt(&pt, &fixed_iv()).unwrap();
            assert_eq!(ct.len(), len);
        }
    }
}

#[test]
fn cbc_length_grows_to_next_block() {
    let ctx = Sm4CipherMode::new(&fixed_key(), CipherMode::Cbc).unwrap();
    for len in LENGTHS {
        let pt = pattern_data(len);
        let ct = ctx.encrypt(&pt, &fixed_iv()).unwrap();
        assert_eq!(ct.len(), 16 * (len / 16 + 1));
    }
    // Exact values: an aligned input still grows by a whole block.
    assert_eq!(ctx.encrypt(&pattern_data(16), &fixed_iv()).unwrap().len(), 32);
    assert_eq!(ctx.encrypt(&pattern_data(0), &fixed_iv()).unwrap().len(), 16);
}

#[test]
fn ofb_and_ctr_are_self_inverse() {
    for mode in [CipherMode::Ofb, CipherMode::Ctr] {
        let ctx = Sm4CipherMode::new(&fixed_key(), mode).unwrap();
        for len in LENGTHS {
            let x = pattern_data(len);
            let once = ctx.encrypt(&x, &fixed_iv()).unwrap();
            let twice = ctx.encrypt(&once, &fixed_iv()).unwrap();
            assert_eq!(x, twice);
        }
    }
}

#[test]
fn counter_increment_wraps_all_ff_to_zero() {
    let mut buf = vec![0xffu8; 16];
    block_add_one(&mut buf);
    assert_eq!(buf, vec![0x00u8; 16]);
}

#[test]
fn counter_increment_from_zero() {
    let mut buf = vec![0x00u8; 16];
    block_add_one(&mut buf);
    let mut expected = vec![0x00u8; 16];
    expected[15] = 0x01;
    assert_eq!(buf, expected);
}

#[test]
fn counter_increment_carries_partially() {
    let mut buf = vec![0x00u8; 16];
    buf[14] = 0x01;
    buf[15] = 0xff;
    block_add_one(&mut buf);
    let mut expected = vec![0x00u8; 16];
    expected[14] = 0x02;
    assert_eq!(buf, expected);
}

#[test]
fn block_xor_exact_value() {
    let a = [0xffu8; 16];
    let mut b = [0x0fu8; 16];
    b[0] = 0x00;
    let r = block_xor(&a, &b);
    let mut expected = vec![0xf0u8; 16];
    expected[0] = 0xff;
    assert_eq!(r, expected);
}

#[test]
fn cbc_rejects_pad_byte_zero() {
    let cipher = Sm4Cipher::new(&fixed_key());
    let iv = fixed_iv();
    let mut raw = [0x07u8; 16];
    raw[15] = 0x00;
    let ct = cipher.encrypt(&block_xor(&raw, &iv));
    let ctx = Sm4CipherMode::new(&fixed_key(), CipherMode::Cbc).unwrap();
    assert_eq!(ctx.decrypt(&ct, &iv), Err(Sm4Error::InvalidPadding));
}

#[test]
fn cbc_rejects_pad_byte_over_sixteen() {
    let cipher = Sm4Cipher::new(&fixed_key());
    let iv = fixed_iv();
    let mut raw = [0x07u8; 16];
    raw[15] = 0x11;
    let ct = cipher.encrypt(&block_xor(&raw, &iv));
    let ctx = Sm4CipherMode::new(&fixed_key(), CipherMode::Cbc).unwrap();
    assert_eq!(ctx.decrypt(&ct, &iv), Err(Sm4Error::InvalidPadding));
}

#[test]
fn cbc_full_pad_block_decrypts_to_empty() {
    let cipher = Sm4Cipher::new(&fixed_key());
    let iv = fixed_iv();
    let raw = [0x10u8; 16];
    let ct = cipher.encrypt(&block_xor(&raw, &iv));
    let ctx = Sm4CipherMode::new(&fixed_key(), CipherMode::Cbc).unwrap();
    assert_eq!(ctx.decrypt(&ct, &iv).unwrap(), Vec::<u8>::new());
    // And encrypting the empty message gives exactly that block.
    assert_eq!(ctx.encrypt(&[], &iv).unwrap(), ct);
}

#[test]
fn cbc_rejects_misaligned_length() {
    let ctx = Sm4CipherMode::new(&fixed_key(), CipherMode::Cbc).unwrap();
    for len in [1usize, 15, 17, 31] {
        let data = pattern_data(len);
        assert_eq!(ctx.decrypt(&data, &fixed_iv()), Err(Sm4Error::InvalidCiphertextLength));
    }
}

#[test]
fn cbc_rejects_empty_ciphertext() {
    let ctx = Sm4CipherMode::new(&fixed_key(), CipherMode::Cbc).unwrap();
    assert_eq!(ctx.decrypt(&[], &fixed_iv()), Err(Sm4Error::InvalidPadding));
}

#[test]
fn iv_of_wrong_length_is_rejected() {
    for mode in [CipherMode::Cfb, CipherMode::Ofb, CipherMode::Ctr, CipherMode::Cbc] {
        let ctx = Sm4CipherMode::new(&fixed_key(), mode).unwrap();
        let data = pattern_data(32);
        for bad in [15usize, 17] {
            let iv = vec![0u8; bad];
            assert_eq!(ctx.encrypt(&data, &iv), Err(Sm4Error::InvalidIVLength));
            assert_eq!(ctx.decrypt(&data, &iv), Err(Sm4Error::InvalidIVLength));
        }
    }
}

#[test]
fn key_of_wrong_length_is_rejected() {
    for bad in [0usize, 15, 17, 32] {
        let key = vec![0u8; bad];
        assert!(matches!(
            Sm4CipherMode::new(&key, CipherMode::Ctr),
            Err(Sm4Error::InvalidKeyLength)
        ));
    }
}

#[test]
fn inplace_variants_match_buffer_variants() {
    let iv = fixed_iv();
    let data = pattern_data(100);

    let cfb = Sm4CipherMode::new(&fixed_key(), CipherMode::Cfb).unwrap();
    let expected = cfb.encrypt(&data, &iv).unwrap();
    let mut buf = data.clone();
    let n = buf.len();
    cfb.cfb_encrypt_inplace(&mut buf, &iv, n);
    assert_eq!(buf, expected);
    cfb.cfb_decrypt_inplace(&mut buf, &iv, expected.len());
    assert_eq!(buf, data);

    let ctr = Sm4CipherMode::new(&fixed_key(), CipherMode::Ctr).unwrap();
    let expected = ctr.encrypt(&data, &iv).unwrap();
    let mut buf = data.clone();
    let n = buf.len();
    ctr.tctr_encrypt_inplace(&mut buf, &iv, n);
    assert_eq!(buf, expected);
    let mut buf = data.clone();
    let n = buf.len();
    ctr.ctr_encrypt_inplace(&mut buf, &iv, n);
    assert_eq!(buf, expected);
}

#[test]
fn inplace_leaves_suffix_untouched() {
    let iv = fixed_iv();
    let data = pattern_data(40);
    let cfb = Sm4CipherMode::new(&fixed_key(), CipherMode::Cfb).unwrap();
    let expected_prefix = cfb.encrypt(&data[..24], &iv).unwrap();
    let mut buf = data.clone();
    cfb.cfb_encrypt_inplace(&mut buf, &iv, 24);
    assert_eq!(&buf[..24], &expected_prefix[..]);
    assert_eq!(&buf[24..], &data[24..]);
}

#[test]
fn block_cipher_round_trip() {
    let cipher = Sm4Cipher::new(&fixed_key());
    let block = fixed_iv();
    let enc = cipher.encrypt(&block);
    assert_eq!(enc.len(), 16);
    let dec = cipher.decrypt(&enc);
    assert_eq!(dec, block.to_vec());
    // The transform is not the identity.
    assert_ne!(enc, block.to_vec());
}

#[test]
fn sm4_block_standard_vector() {
    // The reference vector from the SM4 standard: encrypting the key
    // pattern under itself.
    let key = [
        0x01u8, 0x23, 0x45, 0x67, 0x89, 0xab, 0xcd, 0xef, 0xfe, 0xdc, 0xba, 0x98, 0x76, 0x54,
        0x32, 0x10,
    ];
    let cipher = Sm4Cipher::new(&key);
    let ct = cipher.encrypt(&key);
    let expected = [
        0x68u8, 0x1e, 0xdf, 0x34, 0xd2, 0x06, 0x96, 0x5e, 0x86, 0xb3, 0xe9, 0x4f, 0x53, 0x6e,
        0x42, 0x46,
    ];
    assert_eq!(ct, expected.to_vec());
    assert_eq!(cipher.decrypt(&ct), key.to_vec());
}
