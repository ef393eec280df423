//! The cryptographic primitives: SHA-256 and HMAC-SHA256 (from `sha2` and
//! `hmac`), and the keystream cipher built on SHA-256.

use hmac::{Hmac, Mac};
use sha2::{Digest, Sha256};
use vstd::bytes::{spec_u64_to_le_bytes, u64_to_le_bytes};
use vstd::prelude::*;
use vstd::string::StringSliceAdditionalSpecFns;

verus! {

/// The SHA-256 digest of a byte string, as computed by `sha2::Sha256`.
pub uninterp spec fn sha256_spec(data: Seq<u8>) -> Seq<u8>;

/// The 64-byte key block of HMAC-SHA256: the key itself when it has at
/// most 64 bytes, else its SHA-256 digest, padded with zero bytes to 64.
pub open spec fn hmac_key_block(key: Seq<u8>) -> Seq<u8> {
    let k = if key.len() <= 64 {
        key
    } else {
        sha256_spec(key)
    };
    Seq::new(64, |i: int| if i < k.len() { k[i] } else { 0u8 })
}

/// HMAC-SHA256 of `data` under `key` (RFC 2104): the SHA-256 of the key
/// block XOR `0x5c` followed by the SHA-256 of the key block XOR `0x36`
/// followed by `data`.
pub open spec fn hmac_sha256_spec(key: Seq<u8>, data: Seq<u8>) -> Seq<u8> {
    let kb = hmac_key_block(key);
    let inner = sha256_spec(kb.map_values(|b: u8| b ^ 0x36u8) + data);
    sha256_spec(kb.map_values(|b: u8| b ^ 0x5cu8) + inner)
}

/// Calls `sha2::Sha256::digest`.  Trusted: the 32 bytes returned are the
/// SHA-256 digest of `data`, a function of `data` alone.
#[verifier::external_body]
fn sha256(data: &[u8]) -> (out: [u8; 32])
    ensures
        out@ == sha256_spec(data@),
{
    Sha256::digest(data).into()
}

/// Calls `hmac::Hmac::<Sha256>::new_from_slice`, `Mac::update` and
/// `Mac::finalize`.  Trusted: the 32 bytes returned are HMAC-SHA256 of `data`
/// under `key` as RFC 2104 defines it over SHA-256 (see
/// [`hmac_sha256_spec`]).  HMAC accepts keys of any length, so
/// `new_from_slice` never fails.
#[verifier::external_body]
fn hmac_sha256(key: &[u8], data: &[u8]) -> (out: [u8; 32])
    ensures
        out@ == hmac_sha256_spec(key@, data@),
{
    let mut mac = <Hmac<Sha256> as Mac>::new_from_slice(key).expect("valid key");
    mac.update(data);
    mac.finalize().into_bytes().into()
}

/// The 32-byte key of a token: the SHA-256 digest of its UTF-8 bytes.
pub fn derive_key(token: &str) -> (out: [u8; 32])
    ensures
        out@ == sha256_spec(token.spec_bytes()),
{
    sha256(token.as_bytes())
}

/// HMAC-SHA256 of `data` under the 32-byte `key`.
pub fn compute_mac(key: &[u8; 32], data: &[u8]) -> (out: [u8; 32])
    ensures
        out@ == hmac_sha256_spec(key@, data@),
{
    hmac_sha256(key.as_slice(), data)
}

/// HMAC-SHA256 of `data` under a key of any length.
pub fn mac_any_key(key: &[u8], data: &[u8]) -> (out: [u8; 32])
    ensures
        out@ == hmac_sha256_spec(key@, data@),
{
    hmac_sha256(key, data)
}

/// The SHA-256 digest of `data`.
pub fn hash_bytes(data: &[u8]) -> (out: [u8; 32])
    ensures
        out@ == sha256_spec(data@),
{
    sha256(data)
}


/// Appends the bytes of `s` to `v`.
pub fn append_bytes(v: &mut Vec<u8>, s: &[u8])
    ensures
        final(v)@ == old(v)@ + s@,
{
    let mut i: usize = 0;
    while i < s.len()
        invariant
            i <= s@.len(),
            v@ == old(v)@ + s@.subrange(0, i as int),
        decreases s@.len() - i,
    {
        v.push(s[i]);
        i = i + 1;
        assert(v@ =~= old(v)@ + s@.subrange(0, i as int));
    }
    assert(s@.subrange(0, i as int) =~= s@);
}

/// Keystream block `j` for `key` and `nonce`: SHA-256 of `key ‖ nonce ‖ j`
/// with `j` as eight little-endian bytes.
pub open spec fn keystream_block(key: Seq<u8>, nonce: Seq<u8>, j: int) -> Seq<u8> {
    sha256_spec(key + nonce + spec_u64_to_le_bytes(j as u64))
}

/// Keystream byte `i`: byte `i % 32` of block `i / 32`.
pub open spec fn keystream_byte(key: Seq<u8>, nonce: Seq<u8>, i: int) -> u8 {
    keystream_block(key, nonce, i / 32)[i % 32]
}

/// The cipher: each byte of `data` XOR-ed with the keystream byte at its index.
pub open spec fn stream_cipher_spec(key: Seq<u8>, nonce: Seq<u8>, data: Seq<u8>) -> Seq<u8> {
    Seq::new(data.len(), |i: int| data[i] ^ keystream_byte(key, nonce, i))
}

/// Encrypts (or decrypts) `data` with the keystream of `key` and `nonce`.
pub fn stream_cipher(key: &[u8; 32], nonce: &[u8; 32], data: &[u8]) -> (out: Vec<u8>)
    ensures
        out@ == stream_cipher_spec(key@, nonce@, data@),
{
    let mut out: Vec<u8> = Vec::with_capacity(data.len());
    let mut counter: u64 = 0;
    let mut ks: [u8; 32] = [0u8; 32];
    let mut ks_off: usize = 32;
    let mut i: usize = 0;
    while i < data.len()
        invariant
            i <= data@.len(),
            ks_off <= 32,
            counter == 0 ==> i == 0 && ks_off == 32,
            counter > 0 ==> i + 32 == 32 * counter + ks_off,
            counter > 0 ==> ks@ == keystream_block(key@, nonce@, counter - 1),
            counter * 32 <= i + 32,
            out@.len() == i,
            forall|k: int| 0 <= k < i ==> out@[k] == data@[k] ^ keystream_byte(key@, nonce@, k),
        decreases data@.len() - i,
    {
        if ks_off >= 32 {
            let mut buf: Vec<u8> = Vec::new();
            append_bytes(&mut buf, key.as_slice());
            append_bytes(&mut buf, nonce.as_slice());
            let ctr = u64_to_le_bytes(counter);
            append_bytes(&mut buf, ctr.as_slice());
            ks = sha256(buf.as_slice());
            ks_off = 0;
            counter = counter + 1;
        }
        assert(i as int / 32 == counter - 1 && i as int % 32 == ks_off) by (nonlinear_arith)
            requires
                i + 32 == 32 * counter + ks_off,
                ks_off < 32,
                counter > 0,
        ;
        out.push(data[i] ^ ks[ks_off]);
        ks_off = ks_off + 1;
        i = i + 1;
    }
    assert(out@ =~= stream_cipher_spec(key@, nonce@, data@));
    out
}


/// Law: the cipher is its own inverse — decrypting with the same key and
/// nonce gives back the plaintext.
pub proof fn lemma_stream_cipher_involutive(key: Seq<u8>, nonce: Seq<u8>, data: Seq<u8>)
    ensures
        stream_cipher_spec(key, nonce, stream_cipher_spec(key, nonce, data)) == data,
{
    let once = stream_cipher_spec(key, nonce, data);
    let twice = stream_cipher_spec(key, nonce, once);
    assert forall|i: int| 0 <= i < data.len() implies twice[i] == data[i] by {
        let a = data[i];
        let b = keystream_byte(key, nonce, i);
        assert((a ^ b) ^ b == a) by (bit_vector);
    }
    assert(twice =~= data);
}

} // verus!
