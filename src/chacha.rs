use chacha20poly1305::aead::{Aead, Payload};
use chacha20poly1305::{ChaCha20Poly1305, Key, KeyInit, Nonce};
use vstd::prelude::*;

verus! {

/// Size in bytes of the authentication tag appended to every ciphertext.
pub const TAG_SIZE: usize = 16;

/// Size in bytes of a key.
pub const KEY_SIZE: usize = 32;

/// Largest message, in bytes, that one nonce can cover: the message takes the
/// 64-byte ChaCha20 blocks 1 to `u32::MAX - 1` of the keystream.
pub const MAX_MESSAGE_LEN: u64 = 4294967294 * 64;

/// Why an encryption or a decryption did not produce its result.
#[derive(Clone, Copy, Debug, PartialEq, Eq, Structural)]
pub enum EncryptionError {
    /// The key is not exactly `KEY_SIZE` bytes long.
    KeyError,
    /// The ciphertext is shorter than the authentication tag.
    CiphertextTooShort,
    /// The tag does not match the key, nonce, associated data and ciphertext.
    AuthenticationFailed,
    /// The output buffer given by the caller does not have the result's length.
    BufferLengthMismatch,
    /// The message exceeds `MAX_MESSAGE_LEN` bytes.
    MessageTooLong,
}

/// The opaque error of the `chacha20poly1305` crate.
#[verifier::external_type_specification]
#[verifier::external_body]
pub struct ExAeadError(chacha20poly1305::Error);

/// Byte `i` (0 for the least significant) of the little-endian encoding of `n`.
pub open spec fn le_byte(n: u64, i: int) -> u8 {
    (n >> (8 * i) as u64) as u8
}

/// The nonce for counter `counter`: four zero bytes, then the counter
/// in little-endian order.
pub open spec fn nonce_of(counter: u64) -> Seq<u8> {
    Seq::new(12, |i: int| if i < 4 { 0u8 } else { le_byte(counter, i - 4) })
}

/// The ciphertext followed by its tag that ChaCha20-Poly1305 makes of `msg`
/// under `key`, `nonce` and associated data `aad`.
pub uninterp spec fn sealed(key: Seq<u8>, nonce: Seq<u8>, aad: Seq<u8>, msg: Seq<u8>) -> Seq<u8>;

/// The message that ChaCha20-Poly1305 recovers from `ct` (ciphertext and tag)
/// under `key`, `nonce` and associated data `aad`, or `None` where the tag
/// does not verify.
pub uninterp spec fn opened(key: Seq<u8>, nonce: Seq<u8>, aad: Seq<u8>, ct: Seq<u8>) -> Option<
    Seq<u8>,
>;

/// What `encrypt` computes, before any output buffer is considered.
pub open spec fn encrypt_result(key: Seq<u8>, counter: u64, aad: Seq<u8>, msg: Seq<u8>) -> Result<
    Seq<u8>,
    EncryptionError,
> {
    if key.len() != KEY_SIZE {
        Err(EncryptionError::KeyError)
    } else if msg.len() > MAX_MESSAGE_LEN {
        Err(EncryptionError::MessageTooLong)
    } else {
        Ok(sealed(key, nonce_of(counter), aad, msg))
    }
}

/// What `decrypt` computes, before any output buffer is considered.
pub open spec fn decrypt_result(key: Seq<u8>, counter: u64, aad: Seq<u8>, ct: Seq<u8>) -> Result<
    Seq<u8>,
    EncryptionError,
> {
    if ct.len() < TAG_SIZE {
        Err(EncryptionError::CiphertextTooShort)
    } else if key.len() != KEY_SIZE {
        Err(EncryptionError::KeyError)
    } else if ct.len() > MAX_MESSAGE_LEN + TAG_SIZE {
        Err(EncryptionError::MessageTooLong)
    } else {
        match opened(key, nonce_of(counter), aad, ct) {
            Some(msg) => Ok(msg),
            None => Err(EncryptionError::AuthenticationFailed),
        }
    }
}

/// The outcome once a result meets an optional output buffer of length `out_len`:
/// a result that does not fit the buffer exactly becomes `BufferLengthMismatch`.
pub open spec fn delivered(res: Result<Seq<u8>, EncryptionError>, out_len: Option<nat>) -> Result<
    Seq<u8>,
    EncryptionError,
> {
    match (res, out_len) {
        (Ok(v), Some(n)) => if v.len() == n {
            Ok(v)
        } else {
            Err(EncryptionError::BufferLengthMismatch)
        },
        _ => res,
    }
}

/// A result with its bytes seen as a sequence.
pub open spec fn result_view(r: Result<Vec<u8>, EncryptionError>) -> Result<Seq<u8>, EncryptionError> {
    match r {
        Ok(v) => Ok(v@),
        Err(e) => Err(e),
    }
}

/// The length of the output buffer, where one is given.
pub open spec fn buffer_len(out: Option<&mut [u8]>) -> Option<nat> {
    match out {
        Some(b) => Some(b@.len()),
        None => None,
    }
}

/// Relies on `KeyInit::new` and `Aead::encrypt` of
/// `chacha20poly1305::ChaCha20Poly1305` (aead's blanket impl over
/// `AeadInPlace`): the ciphertext is a function of key, nonce, data and
/// message; it is the message encrypted in place followed by the 16-byte tag;
/// its only failure is a message past the block counter's range, which
/// `requires` leaves out; and `Aead::decrypt` under the same key, nonce and
/// data gives the message back. `Key::from_slice` panics unless the key has
/// 32 bytes.
#[verifier::external_body]
fn aead_seal(key: &[u8], nonce: &[u8; 12], aad: &[u8], msg: &[u8]) -> (r: Result<
    Vec<u8>,
    chacha20poly1305::Error,
>)
    requires
        key@.len() == KEY_SIZE,
        msg@.len() <= MAX_MESSAGE_LEN,
    ensures
        r is Ok,
        r->Ok_0@ == sealed(key@, nonce@, aad@, msg@),
        r->Ok_0@.len() == msg@.len() + TAG_SIZE,
        opened(key@, nonce@, aad@, r->Ok_0@) == Some(msg@),
{
    let cipher = ChaCha20Poly1305::new(Key::from_slice(key));
    cipher.encrypt(Nonce::from_slice(nonce), Payload { msg, aad })
}

/// Relies on `KeyInit::new` and `Aead::decrypt` of
/// `chacha20poly1305::ChaCha20Poly1305` (aead's blanket impl over
/// `AeadInPlace`): the outcome is a function of key, nonce, data and
/// ciphertext; it fails on a ciphertext shorter than the tag or whose tag does
/// not verify, and otherwise returns the message, `TAG_SIZE` bytes shorter.
/// Longer ciphertexts, on which the keystream could run out, are left out by
/// `requires`.
#[verifier::external_body]
fn aead_open(key: &[u8], nonce: &[u8; 12], aad: &[u8], ct: &[u8]) -> (r: Result<
    Vec<u8>,
    chacha20poly1305::Error,
>)
    requires
        key@.len() == KEY_SIZE,
        ct@.len() <= MAX_MESSAGE_LEN + TAG_SIZE,
    ensures
        r is Ok <==> opened(key@, nonce@, aad@, ct@) is Some,
        r is Ok ==> r->Ok_0@ == opened(key@, nonce@, aad@, ct@)->0,
        r is Ok ==> r->Ok_0@.len() + TAG_SIZE == ct@.len(),
{
    let cipher = ChaCha20Poly1305::new(Key::from_slice(key));
    cipher.decrypt(Nonce::from_slice(nonce), Payload { msg: ct, aad })
}

/// The nonce depends on the counter alone: equal counters give equal nonces,
/// and distinct counters give distinct nonces, so a counter that never repeats
/// never repeats a nonce either.
pub proof fn lemma_nonce_determinism(a: u64, b: u64)
    ensures
        nonce_of(a).len() == 12,
        (nonce_of(a) == nonce_of(b)) <==> (a == b),
{
    if nonce_of(a) == nonce_of(b) {
        assert forall|i: int| 0 <= i < 8 implies le_byte(a, i) == le_byte(b, i) by {
            assert(nonce_of(a)[4 + i] == nonce_of(b)[4 + i]);
        }
        assert(le_byte(a, 0) == le_byte(b, 0));
        assert(le_byte(a, 1) == le_byte(b, 1));
        assert(le_byte(a, 2) == le_byte(b, 2));
        assert(le_byte(a, 3) == le_byte(b, 3));
        assert(le_byte(a, 4) == le_byte(b, 4));
        assert(le_byte(a, 5) == le_byte(b, 5));
        assert(le_byte(a, 6) == le_byte(b, 6));
        assert(le_byte(a, 7) == le_byte(b, 7));
        assert((a >> 0u64) as u8 == (b >> 0u64) as u8 && (a >> 8u64) as u8 == (b >> 8u64) as u8
            && (a >> 16u64) as u8 == (b >> 16u64) as u8 && (a >> 24u64) as u8 == (b
            >> 24u64) as u8 && (a >> 32u64) as u8 == (b >> 32u64) as u8 && (a >> 40u64) as u8
            == (b >> 40u64) as u8 && (a >> 48u64) as u8 == (b >> 48u64) as u8 && (a
            >> 56u64) as u8 == (b >> 56u64) as u8 ==> a == b) by (bit_vector);
    }
}

/// Builds the 96-bit nonce for a message from its counter.
pub fn derive_nonce(counter: u64) -> (r: [u8; 12])
    ensures
        r@ == nonce_of(counter),
{
    let mut n = [0u8; 12];
    let mut i: usize = 0;
    while i < 8
        invariant
            0 <= i <= 8,
            n@.len() == 12,
            forall|j: int| 0 <= j < 4 ==> n@[j] == 0u8,
            forall|j: int| 0 <= j < i ==> n@[4 + j] == le_byte(counter, j),
        decreases 8 - i,
    {
        n[4 + i] = (counter >> (8 * i) as u64) as u8;
        i += 1;
    }
    assert(n@ =~= nonce_of(counter));
    n
}

/// Hands `produced` back, copying a successful result into `out` first when
/// one is given; a result whose length differs from `out`'s is refused with
/// `BufferLengthMismatch` and leaves `out` as it was.
pub fn deliver(produced: Result<Vec<u8>, EncryptionError>, out: Option<&mut [u8]>) -> (r: Result<
    Vec<u8>,
    EncryptionError,
>)
    ensures
        result_view(r) == delivered(result_view(produced), buffer_len(out)),
        out is Some ==> final(out.unwrap())@ == (match r {
            Ok(v) => v@,
            Err(_) => out.unwrap()@,
        }),
{
    match produced {
        Err(e) => Err(e),
        Ok(v) => match out {
            None => Ok(v),
            Some(buf) => {
                if buf.len() != v.len() {
                    return Err(EncryptionError::BufferLengthMismatch);
                }
                let mut i: usize = 0;
                while i < v.len()
                    invariant
                        i <= v@.len(),
                        buf@.len() == v@.len(),
                        forall|j: int| 0 <= j < i ==> buf@[j] == v@[j],
                    decreases v@.len() - i,
                {
                    buf[i] = v[i];
                    i += 1;
                }
                assert(buf@ =~= v@);
                Ok(v)
            },
        },
    }
}

/// Encrypts `plaintext` with associated data `associated_data` under `key`
/// and the nonce derived from `nonce`, returning the ciphertext with its tag
/// appended; a successful result is also copied into `ciphertext` when one is
/// given.
///
/// The counter must never repeat for one key: that is the caller's duty.
pub fn encrypt(
    key: &[u8],
    nonce: u64,
    associated_data: &[u8],
    plaintext: &[u8],
    ciphertext: Option<&mut [u8]>,
) -> (r: Result<Vec<u8>, EncryptionError>)
    ensures
        result_view(r) == delivered(
            encrypt_result(key@, nonce, associated_data@, plaintext@),
            buffer_len(ciphertext),
        ),
        r is Ok ==> r->Ok_0@.len() == plaintext@.len() + TAG_SIZE,
        r is Ok ==> decrypt_result(key@, nonce, associated_data@, r->Ok_0@) == Ok::<
            Seq<u8>,
            EncryptionError,
        >(plaintext@),
        ciphertext is Some ==> final(ciphertext.unwrap())@ == (match r {
            Ok(v) => v@,
            Err(_) => ciphertext.unwrap()@,
        }),
{
    let produced = if key.len() != KEY_SIZE {
        Err(EncryptionError::KeyError)
    } else if plaintext.len() as u64 > MAX_MESSAGE_LEN {
        Err(EncryptionError::MessageTooLong)
    } else {
        let n = derive_nonce(nonce);
        match aead_seal(key, &n, associated_data, plaintext) {
            Ok(v) => Ok(v),
            Err(_) => Err(EncryptionError::MessageTooLong),
        }
    };
    deliver(produced, ciphertext)
}

/// Verifies and decrypts `ciphertext` (message followed by its tag) with
/// associated data `associated_data` under `key` and the nonce derived from
/// `nonce`; a successful result is also copied into `plaintext` when one is
/// given. No byte of the message is released unless the tag verifies.
pub fn decrypt(
    key: &[u8],
    nonce: u64,
    associated_data: &[u8],
    ciphertext: &[u8],
    plaintext: Option<&mut [u8]>,
) -> (r: Result<Vec<u8>, EncryptionError>)
    ensures
        result_view(r) == delivered(
            decrypt_result(key@, nonce, associated_data@, ciphertext@),
            buffer_len(plaintext),
        ),
        ciphertext@.len() < TAG_SIZE ==> r == Err::<Vec<u8>, EncryptionError>(
            EncryptionError::CiphertextTooShort,
        ),
        r is Ok ==> r->Ok_0@.len() + TAG_SIZE == ciphertext@.len(),
        plaintext is Some ==> final(plaintext.unwrap())@ == (match r {
            Ok(v) => v@,
            Err(_) => plaintext.unwrap()@,
        }),
{
    let produced = if ciphertext.len() < TAG_SIZE {
        Err(EncryptionError::CiphertextTooShort)
    } else if key.len() != KEY_SIZE {
        Err(EncryptionError::KeyError)
    } else if ciphertext.len() as u64 - TAG_SIZE as u64 > MAX_MESSAGE_LEN {
        Err(EncryptionError::MessageTooLong)
    } else {
        let n = derive_nonce(nonce);
        match aead_open(key, &n, associated_data, ciphertext) {
            Ok(v) => Ok(v),
            Err(_) => Err(EncryptionError::AuthenticationFailed),
        }
    };
    deliver(produced, plaintext)
}

} // verus!
