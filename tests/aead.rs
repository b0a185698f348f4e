use acorn::util;
use acorn::{aead_decrypt, aead_encrypt, Acorn128, DecryptFail};

fn sample_key() -> [u8; 16] {
    let mut k = [0u8; 16];
    for i in 0..16 {
        k[i] = (i as u8).wrapping_mul(17).wrapping_add(3);
    }
    k
}

fn sample_iv() -> [u8; 16] {
    let mut v = [0u8; 16];
    for i in 0..16 {
        v[i] = 0xa0 ^ (i as u8);
    }
    v
}

#[test]
fn acorn_test() {
    let key = [0; 16];
    let iv = [0; 16];
    let aad = [0; 16];
    let message = [0; 64];

    let (ciphertext, tag) = aead_encrypt(&key, &iv, &message, &aad);
    let plaintext = aead_decrypt(&key, &iv, &ciphertext, &aad, &tag).unwrap();
    assert!(util::eq(&message, &plaintext))
}

#[test]
fn round_trip_with_text() {
    let key = sample_key();
    let iv = sample_iv();
    let aad = b"header: v1";
    let message = b"attack at dawn, bring coffee";
    let (ciphertext, tag) = aead_encrypt(&key, &iv, message, aad);
    assert_eq!(ciphertext.len(), message.len());
    assert_ne!(&ciphertext[..], &message[..]);
    let plaintext = aead_decrypt(&key, &iv, &ciphertext, aad, &tag).unwrap();
    assert_eq!(&plaintext[..], &message[..]);
}

#[test]
fn empty_aad_and_message() {
    let key = sample_key();
    let iv = sample_iv();
    let (ciphertext, tag) = aead_encrypt(&key, &iv, &[], &[]);
    assert!(ciphertext.is_empty());
    assert_eq!(tag.len(), 16);
    assert_eq!(aead_decrypt(&key, &iv, &ciphertext, &[], &tag), Ok(vec![]));

    let message = [1u8, 2, 3];
    let (ciphertext, tag) = aead_encrypt(&key, &iv, &message, &[]);
    assert_eq!(aead_decrypt(&key, &iv, &ciphertext, &[], &tag), Ok(message.to_vec()));

    let aad = [9u8; 5];
    let (ciphertext, tag2) = aead_encrypt(&key, &iv, &[], &aad);
    assert!(ciphertext.is_empty());
    assert_eq!(aead_decrypt(&key, &iv, &ciphertext, &aad, &tag2), Ok(vec![]));
    let (_, tag_no_aad) = aead_encrypt(&key, &iv, &[], &[]);
    assert_ne!(tag2, tag_no_aad);
}

#[test]
fn tampered_ciphertext_bit_is_refused() {
    let key = sample_key();
    let iv = sample_iv();
    let aad = [7u8; 3];
    let message = [0x42u8; 20];
    let (ciphertext, tag) = aead_encrypt(&key, &iv, &message, &aad);
    for pos in [0usize, 7, 19] {
        for bit in [0u8, 3, 7] {
            let mut bad = ciphertext.clone();
            bad[pos] ^= 1 << bit;
            assert_eq!(
                aead_decrypt(&key, &iv, &bad, &aad, &tag),
                Err(DecryptFail::AuthenticationFail)
            );
        }
    }
}

#[test]
fn tampered_aad_is_refused() {
    let key = sample_key();
    let iv = sample_iv();
    let aad = [1u8, 2, 3, 4];
    let message = b"payload";
    let (ciphertext, tag) = aead_encrypt(&key, &iv, message, &aad);
    for pos in 0..aad.len() {
        let mut bad = aad;
        bad[pos] = bad[pos].wrapping_add(1);
        assert_eq!(
            aead_decrypt(&key, &iv, &ciphertext, &bad, &tag),
            Err(DecryptFail::AuthenticationFail)
        );
    }
    assert_eq!(
        aead_decrypt(&key, &iv, &ciphertext, &aad[..3], &tag),
        Err(DecryptFail::AuthenticationFail)
    );
}

#[test]
fn tampered_tag_bit_is_refused() {
    let key = sample_key();
    let iv = sample_iv();
    let message = b"short";
    let (ciphertext, tag) = aead_encrypt(&key, &iv, message, &[]);
    for pos in 0..16 {
        for bit in 0..8 {
            let mut bad = tag;
            bad[pos] ^= 1 << bit;
            assert_eq!(
                aead_decrypt(&key, &iv, &ciphertext, &[], &bad),
                Err(DecryptFail::AuthenticationFail)
            );
        }
    }
}

#[test]
fn wrong_key_or_iv_is_refused() {
    let key = sample_key();
    let iv = sample_iv();
    let (ciphertext, tag) = aead_encrypt(&key, &iv, b"data", b"ad");
    let mut other_key = key;
    other_key[15] ^= 0x01;
    assert_eq!(
        aead_decrypt(&other_key, &iv, &ciphertext, b"ad", &tag),
        Err(DecryptFail::AuthenticationFail)
    );
    let mut other_iv = iv;
    other_iv[0] ^= 0x80;
    assert_eq!(
        aead_decrypt(&key, &other_iv, &ciphertext, b"ad", &tag),
        Err(DecryptFail::AuthenticationFail)
    );
}

#[test]
fn tag_length_gate() {
    let key = sample_key();
    let iv = sample_iv();
    let (ciphertext, tag) = aead_encrypt(&key, &iv, b"abc", b"");
    assert_eq!(
        aead_decrypt(&key, &iv, &ciphertext, b"", &tag[..15]),
        Err(DecryptFail::TagLengthError)
    );
    let mut long = tag.to_vec();
    long.push(0);
    assert_eq!(
        aead_decrypt(&key, &iv, &ciphertext, b"", &long),
        Err(DecryptFail::TagLengthError)
    );
    assert_eq!(
        aead_decrypt(&key, &iv, &ciphertext, b"", &[]),
        Err(DecryptFail::TagLengthError)
    );
}

#[test]
fn encryption_is_deterministic() {
    let key = sample_key();
    let iv = sample_iv();
    let first = aead_encrypt(&key, &iv, b"same input", b"same ad");
    let second = aead_encrypt(&key, &iv, b"same input", b"same ad");
    assert_eq!(first, second);
}

#[test]
fn zero_inputs_golden_vector() {
    let key = [0u8; 16];
    let iv = [0u8; 16];
    let aad = [0u8; 16];
    let message = [0u8; 64];
    let (ciphertext, tag) = aead_encrypt(&key, &iv, &message, &aad);
    assert_eq!(ciphertext.len(), 64);
    let expected: [u8; 64] = [
        149, 147, 191, 169, 67, 95, 31, 36, 216, 150, 108, 226, 202, 16, 249, 47, 88, 131, 216,
        160, 182, 197, 113, 54, 151, 186, 126, 186, 170, 134, 145, 146, 102, 108, 31, 254, 244,
        130, 122, 21, 40, 169, 50, 202, 201, 161, 148, 152, 58, 108, 26, 44, 175, 78, 69, 46, 75,
        145, 186, 25, 154, 199, 181, 168,
    ];
    assert_eq!(&ciphertext[..], &expected[..]);
    assert_eq!(
        tag,
        [72, 61, 26, 116, 224, 6, 246, 200, 145, 218, 122, 15, 16, 168, 94, 34]
    );
    assert_eq!(aead_decrypt(&key, &iv, &ciphertext, &aad, &tag), Ok(message.to_vec()));
}

#[test]
fn byte_adapter_round_trip() {
    let key = sample_key();
    let iv = sample_iv();
    let mut enc = Acorn128::init(&key, &iv);
    let mut dec = Acorn128::init(&key, &iv);
    for (i, p) in [0x00u8, 0x5a, 0xff, 0x81].iter().enumerate() {
        let cb = if i % 2 == 0 { 0xff } else { 0x00 };
        let (c, ks) = enc.enc_onebyte(*p, 0xff, cb);
        assert_eq!(c, p ^ ks);
        assert_eq!(dec.dec_onebyte(c, 0xff, cb), *p);
    }
    assert_eq!(enc.tag_generation(), dec.tag_generation());
}

#[test]
fn sessions_differ_by_key() {
    let iv = sample_iv();
    let mut a = Acorn128::init(&[0u8; 16], &iv);
    let mut b = Acorn128::init(&sample_key(), &iv);
    let mut ks_a = Vec::new();
    let mut ks_b = Vec::new();
    for _ in 0..8 {
        ks_a.push(a.enc_onebyte(0, 0xff, 0xff).1);
        ks_b.push(b.enc_onebyte(0, 0xff, 0xff).1);
    }
    assert_ne!(ks_a, ks_b);
}

#[test]
fn comparator_results() {
    assert!(util::eq(&[], &[]));
    assert!(util::eq(&[1, 2, 3], &[1, 2, 3]));
    assert!(!util::eq(&[9, 2, 3], &[1, 2, 3]));
    assert!(!util::eq(&[1, 2, 3], &[1, 2, 9]));
    assert!(!util::eq(&[1, 2], &[1, 2, 3]));
    assert!(!util::eq(&[0x80], &[0x00]));
}
