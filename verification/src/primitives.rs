//! The calls into outside crates (AES-128-GCM, Base64, randomness, UUIDs)
//! and into the parts of std that vstd leaves unspecified, each behind a
//! trusted item whose contract states only what the outside source shows.

use aes_gcm::aead::generic_array::GenericArray;
use aes_gcm::aead::{Aead, NewAead};
use aes_gcm::Aes128Gcm;
use rand::Rng;
use vstd::prelude::*;
use vstd::utf8::{decode_utf8, valid_utf8};

verus! {

/// What AES-128-GCM sealing with `key` and `nonce` makes of `plaintext`
/// (no associated data): the encrypted bytes followed by the 16-byte tag.
pub uninterp spec fn aes128gcm_seal(key: Seq<u8>, nonce: Seq<u8>, plaintext: Seq<u8>) -> Seq<u8>;

/// What AES-128-GCM opening with `key` and `nonce` gives back of `ciphertext`
/// (no associated data): `None` where the tag does not authenticate.
pub uninterp spec fn aes128gcm_open(key: Seq<u8>, nonce: Seq<u8>, ciphertext: Seq<u8>) -> Option<Seq<u8>>;

/// The character of a 6-bit value in the standard Base64 alphabet
/// (`A`-`Z`, `a`-`z`, `0`-`9`, `+`, `/`).
pub open spec fn base64_char(v: int) -> char {
    if v < 26 {
        (65 + v) as char
    } else if v < 52 {
        (97 + v - 26) as char
    } else if v < 62 {
        (48 + v - 52) as char
    } else if v == 62 {
        '+'
    } else {
        '/'
    }
}

/// The standard, padded Base64 text of `bytes` (RFC 4648): every group of
/// three bytes becomes four characters of six bits each, high bits first; a
/// last group of one or two bytes is filled with zero bits and padded with
/// `=` to four characters.
pub open spec fn base64_encode(bytes: Seq<u8>) -> Seq<char>
    decreases bytes.len(),
{
    if bytes.len() == 0 {
        Seq::empty()
    } else if bytes.len() == 1 {
        let b0 = bytes[0] as int;
        seq![base64_char(b0 / 4), base64_char((b0 % 4) * 16), '=', '=']
    } else if bytes.len() == 2 {
        let b0 = bytes[0] as int;
        let b1 = bytes[1] as int;
        seq![base64_char(b0 / 4), base64_char((b0 % 4) * 16 + b1 / 16), base64_char((b1 % 16) * 4), '=']
    } else {
        let b0 = bytes[0] as int;
        let b1 = bytes[1] as int;
        let b2 = bytes[2] as int;
        seq![
            base64_char(b0 / 4),
            base64_char((b0 % 4) * 16 + b1 / 16),
            base64_char((b1 % 16) * 4 + b2 / 64),
            base64_char(b2 % 64),
        ] + base64_encode(bytes.skip(3))
    }
}

/// The Base64 text of `n` bytes has four characters for every started
/// group of three.
pub proof fn lemma_base64_encode_len(bytes: Seq<u8>)
    ensures
        base64_encode(bytes).len() == 4 * ((bytes.len() + 2) / 3),
    decreases bytes.len(),
{
    if bytes.len() >= 3 {
        lemma_base64_encode_len(bytes.skip(3));
    }
}

/// The bytes that standard Base64 decoding reads from `text`, `None` where
/// `text` is no valid Base64.
pub uninterp spec fn base64_decode(text: Seq<char>) -> Option<Seq<u8>>;

/// The bytes held by an optional byte vector.
pub open spec fn opt_bytes(o: Option<Vec<u8>>) -> Option<Seq<u8>> {
    match o {
        Some(v) => Some(v@),
        None => None,
    }
}

/// The largest plaintext that `aes_gcm` 0.8 agrees to seal (`P_MAX`, 2^36 bytes).
pub open spec fn max_sealed_len() -> int {
    0x10_0000_0000
}

/// Trusted: `Aes128Gcm::new` and `Aead::encrypt` of `aes_gcm`.
/// Claims that the result is the named sealing of the plaintext, that it is
/// 16 bytes (the tag) longer than the plaintext, and that opening it with the
/// same key and nonce gives the plaintext back. The crate refuses only
/// plaintexts longer than 2^36 bytes, which `requires` leaves out.
#[verifier::external_body]
pub(crate) fn aes128gcm_encrypt(key: &[u8], nonce: &[u8], plaintext: &[u8]) -> (sealed: Vec<u8>)
    requires
        key@.len() == 16,
        nonce@.len() == 12,
        plaintext@.len() <= max_sealed_len(),
    ensures
        sealed@ == aes128gcm_seal(key@, nonce@, plaintext@),
        sealed@.len() == plaintext@.len() + 16,
        aes128gcm_open(key@, nonce@, sealed@) == Some(plaintext@),
{
    let cipher = Aes128Gcm::new(GenericArray::from_slice(key));
    cipher.encrypt(GenericArray::from_slice(nonce), plaintext).expect("Encryption Failure")
}

/// Trusted: `Aes128Gcm::new` and `Aead::decrypt` of `aes_gcm`.
/// Claims that the result is the named opening of the ciphertext, and that
/// an opened plaintext is 16 bytes (the tag) shorter than the ciphertext.
#[verifier::external_body]
pub(crate) fn aes128gcm_decrypt(key: &[u8], nonce: &[u8], ciphertext: &[u8]) -> (opened: Option<Vec<u8>>)
    requires
        key@.len() == 16,
        nonce@.len() == 12,
    ensures
        opt_bytes(opened) == aes128gcm_open(key@, nonce@, ciphertext@),
        opened matches Some(p) ==> p@.len() + 16 == ciphertext@.len(),
{
    let cipher = Aes128Gcm::new(GenericArray::from_slice(key));
    match cipher.decrypt(GenericArray::from_slice(nonce), ciphertext) {
        Ok(plaintext) => Some(plaintext),
        Err(_) => None,
    }
}

/// Trusted: `base64::encode` (standard alphabet, padded).
/// Claims that the text is the standard padded Base64 of the bytes, as
/// `base64_encode` writes it out, and that decoding it gives the bytes back. The crate panics where the text length overflows `usize`,
/// and allocating a text longer than `isize::MAX` bytes panics too
/// ("capacity overflow"); `requires` leaves both out.
#[verifier::external_body]
pub(crate) fn base64_encode_bytes(bytes: &[u8]) -> (text: String)
    requires
        4 * ((bytes@.len() + 2) / 3) <= isize::MAX,
    ensures
        text@ == base64_encode(bytes@),
        base64_decode(text@) == Some(bytes@),
{
    base64::encode(bytes)
}

/// Trusted: `base64::decode` (standard alphabet).
/// Claims only that the result is the named decoding of the text's characters.
#[verifier::external_body]
pub(crate) fn base64_decode_text(text: &str) -> (bytes: Option<Vec<u8>>)
    ensures
        opt_bytes(bytes) == base64_decode(text@),
{
    match base64::decode(text) {
        Ok(bytes) => Some(bytes),
        Err(_) => None,
    }
}

/// Trusted: `rand::thread_rng` and `Rng::fill` of `rand`.
/// The bytes are random: only their number is stated. The call panics where
/// the operating system gives no random bytes at all; no `requires` can
/// rule that out.
#[verifier::external_body]
pub(crate) fn random_bytes(len: usize) -> (bytes: Vec<u8>)
    ensures
        bytes@.len() == len,
{
    let mut bytes = vec![0u8; len];
    rand::thread_rng().fill(&mut bytes[..]);
    bytes
}

/// A lower-case hexadecimal digit.
pub open spec fn is_lower_hex_digit(c: char) -> bool {
    (48 <= c as u32 && c as u32 <= 57) || (97 <= c as u32 && c as u32 <= 102)
}

/// The hyphenated lower-case text of a version-4 (random), RFC 4122 variant
/// UUID: 8-4-4-4-12 hex digits, the version digit `4`, the variant digit one
/// of `8`, `9`, `a`, `b`.
pub open spec fn is_v4_uuid_text(s: Seq<char>) -> bool {
    &&& s.len() == 36
    &&& forall|i: int|
        0 <= i < 36 ==> if i == 8 || i == 13 || i == 18 || i == 23 {
            #[trigger] s[i] == '-'
        } else {
            is_lower_hex_digit(s[i])
        }
    &&& s[14] == '4'
    &&& (s[19] == '8' || s[19] == '9' || s[19] == 'a' || s[19] == 'b')
}

/// Trusted: `uuid::Uuid::new_v4` of `uuid`, written out by its `Display`.
/// The UUID is random: the contract states only the shape of its text, as
/// `new_v4` (version and variant bits) and `LowerHex` (hyphenated form) show it.
/// `new_v4` panics where the operating system gives no random bytes at all;
/// no `requires` can rule that out.
#[verifier::external_body]
pub(crate) fn new_v4_uuid_text() -> (text: String)
    ensures
        is_v4_uuid_text(text@),
{
    format!("{}", uuid::Uuid::new_v4())
}

/// Trusted: `String::from_utf8` of std.
/// Claims, as its documentation says, that it accepts exactly the valid
/// UTF-8 byte sequences and then holds the characters they encode.
#[verifier::external_body]
pub(crate) fn string_from_utf8(bytes: Vec<u8>) -> (text: Option<String>)
    ensures
        text is Some <==> valid_utf8(bytes@),
        text matches Some(s) ==> s@ == decode_utf8(bytes@),
{
    match String::from_utf8(bytes) {
        Ok(text) => Some(text),
        Err(_) => None,
    }
}

} // verus!
