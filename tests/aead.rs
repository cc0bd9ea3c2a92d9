use chacha20poly1305::aead::{Aead, AeadInPlace, Payload};
use chacha20poly1305::{ChaCha20Poly1305, Key, KeyInit, Nonce};
use cyphernet::{decrypt, deliver, derive_nonce, encrypt, EncryptionError, TAG_SIZE};

const KEY: &[u8] = b"an example very very secret key.";
const MESSAGE: &[u8] = b"plaintext message";

#[test]
fn test1() {
    // Encrypt decrypt a plain text
    let key = Key::from_slice(b"an example very very secret key."); // 32-bytes
    let cipher = ChaCha20Poly1305::new(key);

    let nonce = Nonce::from_slice(b"unique nonce"); // 12-bytes; unique per message

    let ciphertext = cipher
        .encrypt(nonce, b"plaintext message".as_ref())
        .expect("encryption failure!");
    let plaintext = cipher.decrypt(nonce, ciphertext.as_ref()).expect("decryption failure!");

    assert_eq!(&plaintext, b"plaintext message");

    let ciphertext = encrypt(KEY, 7, b"", b"plaintext message", None).expect("encryption failure!");
    let plaintext = decrypt(KEY, 7, b"", &ciphertext, None).expect("decryption failure!");
    assert_eq!(&plaintext, b"plaintext message");
}

#[test]
fn test2() {
    let key = Key::from_slice(b"an example very very secret key.");
    let cipher = ChaCha20Poly1305::new(key);

    let nonce = Nonce::from_slice(b"unique nonce"); // 128-bits; unique per message

    let mut buffer: Vec<u8> = Vec::new();
    buffer.extend_from_slice(b"plaintext message");

    // Encrypt `buffer` in-place, replacing the plaintext contents with
    // ciphertext
    cipher.encrypt_in_place(nonce, b"", &mut buffer).expect("encryption failure!");

    // `buffer` now contains the message ciphertext
    assert_ne!(&buffer, b"plaintext message");

    // Decrypt `buffer` in-place, replacing its ciphertext context with the
    // original plaintext
    cipher.decrypt_in_place(nonce, b"", &mut buffer).expect("decryption failure!");
    assert_eq!(&buffer, b"plaintext message");

    // The same through the library, with caller-supplied output buffers.
    let mut sealed = vec![0u8; MESSAGE.len() + TAG_SIZE];
    encrypt(KEY, 0, b"", MESSAGE, Some(&mut sealed)).expect("encryption failure!");
    assert_ne!(&sealed[..MESSAGE.len()], MESSAGE);
    let mut opened = vec![0u8; MESSAGE.len()];
    decrypt(KEY, 0, b"", &sealed, Some(&mut opened)).expect("decryption failure!");
    assert_eq!(&opened, b"plaintext message");
}

#[test]
fn round_trip_over_counters_and_data() {
    let messages: [&[u8]; 4] = [b"", b"x", MESSAGE, &[0xabu8; 200]];
    let data: [&[u8]; 3] = [b"", b"header", &[1u8, 2, 3, 4, 5, 6, 7, 8, 9]];
    for counter in [0u64, 1, 255, 256, 0x0102_0304_0506_0708, u64::MAX] {
        for aad in data {
            for msg in messages {
                let ct = encrypt(KEY, counter, aad, msg, None).unwrap();
                assert_eq!(ct.len(), msg.len() + TAG_SIZE);
                assert_eq!(decrypt(KEY, counter, aad, &ct, None).unwrap(), msg);
            }
        }
    }
}

#[test]
fn nonce_layout() {
    assert_eq!(derive_nonce(0), [0u8; 12]);
    assert_eq!(
        derive_nonce(0x0102_0304_0506_0708),
        [0, 0, 0, 0, 8, 7, 6, 5, 4, 3, 2, 1]
    );
    assert_eq!(
        derive_nonce(u64::MAX),
        [0, 0, 0, 0, 255, 255, 255, 255, 255, 255, 255, 255]
    );
    assert_eq!(derive_nonce(1), [0, 0, 0, 0, 1, 0, 0, 0, 0, 0, 0, 0]);
    assert_eq!(derive_nonce(42), derive_nonce(42));
    assert_ne!(derive_nonce(1), derive_nonce(256));
}

#[test]
fn ciphertext_matches_the_cipher_under_the_derived_nonce() {
    let counter = 0x1122_3344_5566_7788u64;
    let cipher = ChaCha20Poly1305::new(Key::from_slice(KEY));
    let nonce = [0, 0, 0, 0, 0x88, 0x77, 0x66, 0x55, 0x44, 0x33, 0x22, 0x11];
    let expected = cipher
        .encrypt(Nonce::from_slice(&nonce), Payload { msg: MESSAGE, aad: b"ad" })
        .unwrap();
    let ct = encrypt(KEY, counter, b"ad", MESSAGE, None).unwrap();
    assert_eq!(ct, expected);
    assert_ne!(&ct[..MESSAGE.len()], MESSAGE);
}

#[test]
fn every_single_bit_flip_is_detected() {
    let ct = encrypt(KEY, 3, b"frame", MESSAGE, None).unwrap();
    for i in 0..ct.len() {
        for bit in 0..8 {
            let mut bad = ct.clone();
            bad[i] ^= 1 << bit;
            assert_eq!(
                decrypt(KEY, 3, b"frame", &bad, None),
                Err(EncryptionError::AuthenticationFailed)
            );
        }
    }
}

#[test]
fn associated_data_is_bound() {
    let ct = encrypt(KEY, 5, b"header one", MESSAGE, None).unwrap();
    assert_eq!(
        decrypt(KEY, 5, b"header two", &ct, None),
        Err(EncryptionError::AuthenticationFailed)
    );
    assert_eq!(decrypt(KEY, 5, b"", &ct, None), Err(EncryptionError::AuthenticationFailed));
    assert_eq!(decrypt(KEY, 5, b"header one", &ct, None).unwrap(), MESSAGE);
}

#[test]
fn nonce_is_bound() {
    let ct = encrypt(KEY, 10, b"", MESSAGE, None).unwrap();
    for other in [0u64, 9, 11, 10 + (1 << 32), u64::MAX] {
        assert_eq!(
            decrypt(KEY, other, b"", &ct, None),
            Err(EncryptionError::AuthenticationFailed)
        );
    }
    assert_eq!(decrypt(KEY, 10, b"", &ct, None).unwrap(), MESSAGE);
}

#[test]
fn short_ciphertexts_are_refused_before_verification() {
    for len in 0..TAG_SIZE {
        let ct = vec![0u8; len];
        assert_eq!(decrypt(KEY, 0, b"", &ct, None), Err(EncryptionError::CiphertextTooShort));
        // Checked even before the key.
        assert_eq!(decrypt(b"short", 0, b"", &ct, None), Err(EncryptionError::CiphertextTooShort));
    }
    // A bare tag of the right length is verified, and an empty message comes out.
    let ct = encrypt(KEY, 0, b"", b"", None).unwrap();
    assert_eq!(ct.len(), TAG_SIZE);
    assert_eq!(decrypt(KEY, 0, b"", &ct, None).unwrap(), Vec::<u8>::new());
    assert_eq!(
        decrypt(KEY, 0, b"", &[0u8; TAG_SIZE], None),
        Err(EncryptionError::AuthenticationFailed)
    );
}

#[test]
fn concrete_scenario() {
    assert_eq!(KEY.len(), 32);
    assert_eq!(MESSAGE.len(), 17);
    let ct = encrypt(KEY, 0, b"", MESSAGE, None).unwrap();
    assert_eq!(ct.len(), MESSAGE.len() + 16);
    assert!(decrypt(KEY, 1, b"", &ct, None).is_err());
    assert_eq!(decrypt(KEY, 0, b"", &ct, None).unwrap(), MESSAGE);

    // One byte more than a key is refused.
    let long_key = b"an example very very secret key.!";
    assert_eq!(long_key.len(), 33);
    assert_eq!(encrypt(long_key, 0, b"", MESSAGE, None), Err(EncryptionError::KeyError));
}

#[test]
fn wrong_key_lengths_are_refused() {
    for len in [0usize, 16, 31, 33, 64] {
        let key = vec![7u8; len];
        assert_eq!(encrypt(&key, 0, b"", MESSAGE, None), Err(EncryptionError::KeyError));
        assert_eq!(
            decrypt(&key, 0, b"", &[0u8; 40], None),
            Err(EncryptionError::KeyError)
        );
    }
}

#[test]
fn output_buffer_of_wrong_length_is_refused() {
    let mut small = vec![9u8; MESSAGE.len()];
    assert_eq!(
        encrypt(KEY, 0, b"", MESSAGE, Some(&mut small)),
        Err(EncryptionError::BufferLengthMismatch)
    );
    assert_eq!(small, vec![9u8; MESSAGE.len()]);

    let ct = encrypt(KEY, 0, b"", MESSAGE, None).unwrap();
    let mut large = vec![9u8; ct.len()];
    assert_eq!(
        decrypt(KEY, 0, b"", &ct, Some(&mut large)),
        Err(EncryptionError::BufferLengthMismatch)
    );
    assert_eq!(large, vec![9u8; ct.len()]);

    // A failure of the cipher itself wins over the buffer check.
    let mut any = vec![9u8; 3];
    assert_eq!(
        decrypt(KEY, 1, b"", &ct, Some(&mut any)),
        Err(EncryptionError::AuthenticationFailed)
    );
    assert_eq!(any, vec![9u8; 3]);
}

#[test]
fn output_buffer_of_right_length_receives_the_result() {
    let mut out = vec![0u8; MESSAGE.len() + TAG_SIZE];
    let ct = encrypt(KEY, 4, b"a", MESSAGE, Some(&mut out)).unwrap();
    assert_eq!(out, ct);
    let mut back = vec![0u8; MESSAGE.len()];
    let pt = decrypt(KEY, 4, b"a", &ct, Some(&mut back)).unwrap();
    assert_eq!(back, pt);
    assert_eq!(back, MESSAGE);
}

#[test]
fn deliver_copies_only_an_exact_fit() {
    assert_eq!(deliver(Ok(vec![1, 2, 3]), None), Ok(vec![1, 2, 3]));

    let mut exact = [0u8; 3];
    assert_eq!(deliver(Ok(vec![1, 2, 3]), Some(&mut exact)), Ok(vec![1, 2, 3]));
    assert_eq!(exact, [1, 2, 3]);

    let mut short = [9u8; 2];
    assert_eq!(
        deliver(Ok(vec![1, 2, 3]), Some(&mut short)),
        Err(EncryptionError::BufferLengthMismatch)
    );
    assert_eq!(short, [9, 9]);

    let mut any = [9u8; 2];
    assert_eq!(
        deliver(Err(EncryptionError::KeyError), Some(&mut any)),
        Err(EncryptionError::KeyError)
    );
    assert_eq!(any, [9, 9]);

    let mut empty: [u8; 0] = [];
    assert_eq!(deliver(Ok(Vec::new()), Some(&mut empty)), Ok(Vec::new()));
}
