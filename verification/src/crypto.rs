use vstd::prelude::*;

verus! {

use vstd::string::StrSliceExecFns;
use vstd::string::StringSliceAdditionalSpecFns;
use vstd::utf8::encode_utf8;
use sha2::Digest;
use chacha20poly1305::KeyInit;
use chacha20poly1305::aead::Aead;
use rand::Rng;
use base64::Engine;
use crate::text::string_from_utf8;

/// SHA-256 digest of a byte sequence.
pub uninterp spec fn sha256_of(data: Seq<u8>) -> Seq<u8>;

/// ChaCha20-Poly1305 sealing of a plaintext under a key and nonce,
/// tag included.
pub uninterp spec fn chacha_seal(key: Seq<u8>, nonce: Seq<u8>, plaintext: Seq<u8>) -> Seq<u8>;

/// Standard base64 text of a byte sequence.
pub uninterp spec fn b64_of(data: Seq<u8>) -> Seq<char>;

/// Relies on sha2::Sha256 via Digest::digest: thirty-two bytes, a
/// function of the input alone.
#[verifier::external_body]
fn sha256(data: &Vec<u8>) -> (r: Vec<u8>)
    ensures
        r@ == sha256_of(data@),
        r@.len() == 32,
{
    sha2::Sha256::digest(data.as_slice()).to_vec()
}

/// Relies on ChaCha20Poly1305::encrypt: deterministic in key, nonce
/// and plaintext, appending the sixteen-byte authentication tag; it
/// fails only when the plaintext reaches the cipher's block-counter
/// limit of 64 * (2^32 - 1) bytes.
#[verifier::external_body]
fn chacha_encrypt(key: &Vec<u8>, nonce: &Vec<u8>, plaintext: &Vec<u8>) -> (r: Option<Vec<u8>>)
    requires
        key@.len() == 32,
        nonce@.len() == 12,
    ensures
        r matches Some(ct) ==> ct@ == chacha_seal(key@, nonce@, plaintext@) && ct@.len()
            == plaintext@.len() + 16,
        plaintext@.len() / 64 < 0xFFFFFFFF ==> r is Some,
{
    let k = chacha20poly1305::Key::try_from(key.as_slice()).ok()?;
    let n = chacha20poly1305::Nonce::try_from(nonce.as_slice()).ok()?;
    let cipher = chacha20poly1305::ChaCha20Poly1305::new(&k);
    cipher.encrypt(&n, plaintext.as_slice()).ok()
}

/// Relies on ChaCha20Poly1305::decrypt: it opens exactly what sealing
/// under the same key and nonce produced, and nothing else passes the
/// tag check.
#[verifier::external_body]
fn chacha_decrypt(key: &Vec<u8>, nonce: &Vec<u8>, ciphertext: &Vec<u8>) -> (r: Option<Vec<u8>>)
    requires
        key@.len() == 32,
        nonce@.len() == 12,
    ensures
        r matches Some(pt) ==> ciphertext@ == chacha_seal(key@, nonce@, pt@) && (forall|m: Seq<u8>|
            ciphertext@ == chacha_seal(key@, nonce@, m) ==> pt@ == m),
        r is None ==> forall|m: Seq<u8>| ciphertext@ != chacha_seal(key@, nonce@, m),
{
    let k = chacha20poly1305::Key::try_from(key.as_slice()).ok()?;
    let n = chacha20poly1305::Nonce::try_from(nonce.as_slice()).ok()?;
    let cipher = chacha20poly1305::ChaCha20Poly1305::new(&k);
    cipher.decrypt(&n, ciphertext.as_slice()).ok()
}

/// Relies on rand's thread generator for twelve fresh bytes; nothing
/// is assumed of the values drawn.
#[verifier::external_body]
fn random_nonce() -> (r: Vec<u8>)
    ensures
        r@.len() == 12,
{
    let mut b = [0u8; 12];
    rand::rng().fill_bytes(&mut b);
    b.to_vec()
}

/// Relies on base64's standard engine: the encoding is a function of
/// the bytes alone.
#[verifier::external_body]
fn base64_encode(data: &Vec<u8>) -> (r: String)
    ensures
        r@ == b64_of(data@),
{
    base64::engine::general_purpose::STANDARD.encode(data.as_slice())
}

/// Relies on base64's standard engine: decoding inverts the encoding.
#[verifier::external_body]
fn base64_decode(text: &str) -> (r: Option<Vec<u8>>)
    ensures
        r matches Some(v) ==> forall|d: Seq<u8>| text@ == b64_of(d) ==> v@ == d,
        r is None ==> forall|d: Seq<u8>| text@ != b64_of(d),
{
    match base64::engine::general_purpose::STANDARD.decode(text) {
        Ok(v) => Some(v),
        Err(_) => None,
    }
}

/// The payload laid out for one subscriber: base64 of a fresh nonce
/// followed by the content sealed under the SHA-256 of the shared
/// secret.
pub open spec fn sealed_payload(secret: Seq<u8>, nonce: Seq<u8>, content: Seq<u8>) -> Seq<char> {
    b64_of(nonce + chacha_seal(sha256_of(secret), nonce, content))
}

fn bytes_prefix(v: &Vec<u8>, n: usize) -> (r: Vec<u8>)
    requires
        n <= v@.len(),
    ensures
        r@ == v@.take(n as int),
{
    let mut r: Vec<u8> = Vec::new();
    let mut i: usize = 0;
    while i < n
        invariant
            i <= n <= v@.len(),
            r@ == v@.take(i as int),
        decreases n - i,
    {
        r.push(v[i]);
        proof {
            assert(r@ =~= v@.take(i + 1));
        }
        i = i + 1;
    }
    r
}

fn bytes_from(v: &Vec<u8>, start: usize) -> (r: Vec<u8>)
    requires
        start <= v@.len(),
    ensures
        r@ == v@.skip(start as int),
{
    let mut r: Vec<u8> = Vec::new();
    let mut i: usize = start;
    while i < v.len()
        invariant
            start <= i <= v@.len(),
            r@ == v@.subrange(start as int, i as int),
        decreases v@.len() - i,
    {
        r.push(v[i]);
        proof {
            assert(r@ =~= v@.subrange(start as int, i + 1));
        }
        i = i + 1;
    }
    proof {
        assert(v@.subrange(start as int, v@.len() as int) =~= v@.skip(start as int));
    }
    r
}

/// Encrypt a content string for one subscriber: derive the key from
/// the shared secret, draw a nonce, seal, and wrap in base64. Below
/// the cipher's block-counter limit, encryption always succeeds.
pub fn encrypt_with_secret(content: &str, shared_secret: &str) -> (r: Option<String>)
    ensures
        r matches Some(p) ==> exists|nonce: Seq<u8>|
            nonce.len() == 12 && p@ == sealed_payload(
                shared_secret.spec_bytes(),
                nonce,
                content.spec_bytes(),
            ),
        content.spec_bytes().len() / 64 < 0xFFFFFFFF ==> r is Some,
{
    let secret_bytes = shared_secret.as_bytes_vec();
    let key = sha256(&secret_bytes);
    let mut combined = random_nonce();
    let ghost n0 = combined@;
    let content_bytes = content.as_bytes_vec();
    match chacha_encrypt(&key, &combined, &content_bytes) {
        None => None,
        Some(ct) => {
            crate::store::push_bytes(&mut combined, &ct);
            let p = base64_encode(&combined);
            proof {
                assert(combined@ == n0 + ct@);
                assert(p@ == sealed_payload(shared_secret.spec_bytes(), n0, content.spec_bytes()));
            }
            Some(p)
        },
    }
}

/// What a downstream subscriber does with a fanout payload: undo the
/// base64, split off the twelve-byte nonce, and decrypt with the key
/// derived from the shared secret. A payload produced by
/// `encrypt_with_secret` under the same secret yields exactly the
/// original content.
pub fn decrypt_fanout_payload(payload: &str, shared_secret: &str) -> (r: Option<String>)
    ensures
        forall|nonce: Seq<u8>, content: Seq<char>|
            nonce.len() == 12 && payload@ == sealed_payload(
                shared_secret.spec_bytes(),
                nonce,
                encode_utf8(content),
            ) ==> (r matches Some(s) && s@ == content),
{
    broadcast use vstd::utf8::encode_utf8_valid_utf8;
    broadcast use vstd::utf8::encode_utf8_decode_utf8;

    let secret_bytes = shared_secret.as_bytes_vec();
    let key = sha256(&secret_bytes);
    let decoded = match base64_decode(payload) {
        None => {
            return None;
        },
        Some(v) => v,
    };
    if decoded.len() < 12 {
        proof {
            assert forall|nonce: Seq<u8>, content: Seq<char>|
                !(nonce.len() == 12 && payload@ == sealed_payload(
                    shared_secret.spec_bytes(),
                    nonce,
                    encode_utf8(content),
                )) by {
                if nonce.len() == 12 && payload@ == sealed_payload(
                    shared_secret.spec_bytes(),
                    nonce,
                    encode_utf8(content),
                ) {
                    let sealed = nonce + chacha_seal(
                        sha256_of(shared_secret.spec_bytes()),
                        nonce,
                        encode_utf8(content),
                    );
                    assert(decoded@ == sealed);
                    assert(sealed.len() >= 12);
                }
            }
        }
        return None;
    }
    let nonce = bytes_prefix(&decoded, 12);
    let ct = bytes_from(&decoded, 12);
    match chacha_decrypt(&key, &nonce, &ct) {
        None => {
            proof {
                assert forall|n2: Seq<u8>, content: Seq<char>|
                    !(n2.len() == 12 && payload@ == sealed_payload(
                        shared_secret.spec_bytes(),
                        n2,
                        encode_utf8(content),
                    )) by {
                    if n2.len() == 12 && payload@ == sealed_payload(
                        shared_secret.spec_bytes(),
                        n2,
                        encode_utf8(content),
                    ) {
                        let body = chacha_seal(
                            sha256_of(shared_secret.spec_bytes()),
                            n2,
                            encode_utf8(content),
                        );
                        assert(decoded@ == n2 + body);
                        assert(nonce@ =~= n2);
                        assert(ct@ =~= body);
                    }
                }
            }
            None
        },
        Some(pt) => {
            let r = string_from_utf8(pt);
            proof {
                assert forall|n2: Seq<u8>, content: Seq<char>|
                    n2.len() == 12 && payload@ == sealed_payload(
                        shared_secret.spec_bytes(),
                        n2,
                        encode_utf8(content),
                    ) implies (r matches Some(s) && s@ == content) by {
                    let body = chacha_seal(
                        sha256_of(shared_secret.spec_bytes()),
                        n2,
                        encode_utf8(content),
                    );
                    assert(decoded@ == n2 + body);
                    assert(nonce@ =~= n2);
                    assert(ct@ =~= body);
                }
            }
            r
        },
    }
}

} // verus!
