//! Messages: choosing the recipient's published key for a message,
//! encrypting to it with AES-128-GCM, and decrypting with the key base.

use crate::key::{holds_zero_key, lemma_zero_key_texts, tags_distinct, zero_key, zero_tag, Key, Keybase};
use crate::primitives::{
    aes128gcm_decrypt, aes128gcm_encrypt, aes128gcm_open, aes128gcm_seal, base64_decode,
    base64_decode_text, base64_encode, base64_encode_bytes, max_sealed_len, random_bytes,
    string_from_utf8,
};
use crate::puzzle::{
    add_keys, encodable_len, find_puzzle_plaintext, generated_from, generated_unambiguously,
    is_encodable_len, key_from_plaintext, lemma_add_keys_distinct, lemma_encodable_shorter,
    lemma_recover_generated, no_earlier_opener, puzzle_recoverable, recover_key,
    spec_masked_seed, spec_puzzle_sealed, spec_recover_key, NONCE_LEN, NUM_KEYS, TAG_LEN,
};
use vstd::prelude::*;
use vstd::slice::{slice_subrange, slice_to_vec};
use vstd::utf8::{decode_utf8, encode_utf8, is_char_boundary, valid_utf8};

verus! {

broadcast use {vstd::utf8::encode_utf8_valid_utf8, vstd::utf8::encode_utf8_decode_utf8};

/// Number of leading message bytes that choose the key.
pub const INDEX_PREFIX_LEN: usize = 12;

/// An encrypted message: the tag of the key it is encrypted to, and the
/// Base64 of the nonce followed by the sealed message.
pub struct Ciphertext {
    tag: String,
    base64: String,
}

impl View for Ciphertext {
    /// The tag's characters and the Base64 body's characters.
    type V = (Seq<char>, Seq<char>);

    closed spec fn view(&self) -> (Seq<char>, Seq<char>) {
        (self.tag@, self.base64@)
    }
}

impl Ciphertext {
    /// A ciphertext with the given key tag and Base64 body.
    pub fn new(tag: String, base64: String) -> (c: Ciphertext)
        ensures
            c@ == (tag@, base64@),
    {
        Ciphertext { tag, base64 }
    }

    /// A copy of the key tag.
    pub fn get_tag(&self) -> (tag: String)
        ensures
            tag@ == self@.0,
    {
        self.tag.clone()
    }

    /// A copy of the Base64 body.
    pub fn get_base64(&self) -> (base64: String)
        ensures
            base64@ == self@.1,
    {
        self.base64.clone()
    }
}

/// The sum of some bytes.
pub open spec fn byte_sum(bytes: Seq<u8>) -> int
    decreases bytes.len(),
{
    if bytes.len() == 0 {
        0
    } else {
        byte_sum(bytes.drop_last()) + bytes.last()
    }
}

/// The sum of one byte is its full value, for every byte (those of 128 and
/// above too).
pub proof fn lemma_byte_sum_single(b: u8)
    ensures
        byte_sum(seq![b]) == b as int,
{
    assert(seq![b].drop_last() =~= Seq::<u8>::empty());
    assert(byte_sum(Seq::<u8>::empty()) == 0);
    assert(seq![b].last() == b);
}

/// The sum of two byte sequences put together is the sum of their sums.
pub proof fn lemma_byte_sum_concat(s: Seq<u8>, t: Seq<u8>)
    ensures
        byte_sum(s + t) == byte_sum(s) + byte_sum(t),
    decreases t.len(),
{
    if t.len() > 0 {
        assert((s + t).drop_last() =~= s + t.drop_last());
        lemma_byte_sum_concat(s, t.drop_last());
    } else {
        assert(s + t =~= s);
    }
}

/// The key index of a message of at most 12 bytes is the sum of all its byte
/// values modulo the number of keys, and bytes after the twelfth do not
/// change the index.
pub proof fn lemma_key_index_prefix(bytes: Seq<u8>, extra: Seq<u8>)
    ensures
        bytes.len() <= 12 ==> spec_key_index(bytes) == byte_sum(bytes) % 1091,
        bytes.len() >= 12 ==> spec_key_index(bytes + extra) == spec_key_index(bytes),
        0 <= spec_key_index(bytes) < 1091,
{
    if bytes.len() >= 12 {
        assert((bytes + extra).take(12) =~= bytes.take(12));
        if bytes.len() == 12 {
            assert(bytes.take(12) =~= bytes);
        }
    }
}

/// The bytes of a message that choose its key: the first 12, or all of a
/// shorter message.
pub open spec fn index_prefix(bytes: Seq<u8>) -> Seq<u8> {
    if bytes.len() > 12 {
        bytes.take(12)
    } else {
        bytes
    }
}

/// The index of the key a message is encrypted to: the sum of its leading
/// bytes modulo the number of keys.
pub open spec fn spec_key_index(bytes: Seq<u8>) -> int {
    byte_sum(index_prefix(bytes)) % (NUM_KEYS as int)
}

/// Chooses the key for a message: the sum of its first 12 bytes (or of all
/// of a shorter message) modulo the number of keys.
pub fn key_index(msg: &str) -> (index: usize)
    ensures
        index as int == spec_key_index(encode_utf8(msg@)),
        index < NUM_KEYS,
{
    let bytes = msg.as_bytes();
    let n = if bytes.len() > INDEX_PREFIX_LEN {
        INDEX_PREFIX_LEN
    } else {
        bytes.len()
    };
    let ghost prefix = index_prefix(bytes@);
    let mut acc: u32 = 0;
    let mut i: usize = 0;
    while i < n
        invariant
            n == prefix.len(),
            n <= bytes@.len(),
            prefix == bytes@.take(n as int),
            i <= n,
            acc < NUM_KEYS,
            acc as int == byte_sum(prefix.take(i as int)) % (NUM_KEYS as int),
        decreases n - i,
    {
        let b = bytes[i];
        proof {
            assert(prefix.take(i + 1).drop_last() =~= prefix.take(i as int));
            assert(prefix.take(i + 1).last() == b);
            vstd::arithmetic::div_mod::lemma_add_mod_noop(
                byte_sum(prefix.take(i as int)),
                b as int,
                NUM_KEYS as int,
            );
            vstd::arithmetic::div_mod::lemma_small_mod(b as nat, NUM_KEYS as nat);
        }
        acc = (acc + b as u32) % (NUM_KEYS as u32);
        i = i + 1;
    }
    assert(prefix.take(n as int) =~= prefix);
    acc as usize
}

/// The AES key that a key's Base64 text decodes to (empty if it is no Base64).
pub open spec fn decoded_key(key_text: Seq<char>) -> Seq<u8> {
    match base64_decode(key_text) {
        Some(k) => k,
        None => Seq::empty(),
    }
}

/// A key can encrypt: its text is the Base64 of a 16-byte AES key.
pub open spec fn key_usable(key: (Seq<char>, Seq<char>)) -> bool {
    base64_decode(key.1) matches Some(k) && k.len() == 16
}

/// A message of this many bytes can be sealed and written in Base64.
pub open spec fn sealable_len(len: int) -> bool {
    len <= max_sealed_len() && encodable_len(len + 28)
}

/// The ciphertext of a message under a key and a nonce: the key's tag, and
/// the Base64 of the nonce followed by the message sealed under the key.
pub open spec fn spec_encrypt_with(
    msg_bytes: Seq<u8>,
    key: (Seq<char>, Seq<char>),
    nonce: Seq<u8>,
) -> (Seq<char>, Seq<char>) {
    (key.0, base64_encode(nonce + aes128gcm_seal(decoded_key(key.1), nonce, msg_bytes)))
}

/// What decrypting a ciphertext with a key base gives: the message, or
/// `None` where the tag is unknown, the body is no Base64 or shorter than a
/// nonce, the key is no Base64 of 16 bytes, the body does not open, or what it
/// opens to is no UTF-8.
pub open spec fn spec_decrypt(base: Map<Seq<char>, Seq<char>>, c: (Seq<char>, Seq<char>)) -> Option<
    Seq<char>,
> {
    if !base.dom().contains(c.0) {
        None
    } else {
        match base64_decode(c.1) {
            None => None,
            Some(body) => if body.len() < 12 {
                None
            } else {
                match base64_decode(base[c.0]) {
                    None => None,
                    Some(key) => if key.len() != 16 {
                        None
                    } else {
                        match aes128gcm_open(key, body.take(12), body.skip(12)) {
                            None => None,
                            Some(plain) => if valid_utf8(plain) {
                                Some(decode_utf8(plain))
                            } else {
                                None
                            },
                        }
                    },
                }
            },
        }
    }
}

/// A key base that maps the key's tag to the key's text.
pub open spec fn holds_key(base: Map<Seq<char>, Seq<char>>, key: (Seq<char>, Seq<char>)) -> bool {
    base.dom().contains(key.0) && base[key.0] == key.1
}

/// Writes out the sealed bytes of a message and states that they decrypt
/// back to it under every key base that holds the key.
proof fn lemma_encrypted_decrypts(
    msg: Seq<char>,
    key: (Seq<char>, Seq<char>),
    nonce: Seq<u8>,
    sealed: Seq<u8>,
    body: Seq<char>,
)
    requires
        key_usable(key),
        nonce.len() == 12,
        base64_decode(body) == Some(nonce + sealed),
        aes128gcm_open(decoded_key(key.1), nonce, sealed) == Some(encode_utf8(msg)),
    ensures
        forall|base: Map<Seq<char>, Seq<char>>|
            #[trigger] holds_key(base, key) ==> spec_decrypt(base, (key.0, body)) == Some(msg),
{
    let bytes = nonce + sealed;
    assert(bytes.take(12) =~= nonce);
    assert(bytes.skip(12) =~= sealed);
}

/// Writes out the sealed bytes of a fake message and states that they
/// decrypt back to it under every key base that maps the zero tag's text to
/// a text of the zero key.
proof fn lemma_fake_decrypts(msg: Seq<char>, nonce: Seq<u8>, sealed: Seq<u8>, body: Seq<char>)
    requires
        nonce.len() == 12,
        base64_decode(body) == Some(nonce + sealed),
        aes128gcm_open(zero_key(), nonce, sealed) == Some(encode_utf8(msg)),
    ensures
        forall|base: Map<Seq<char>, Seq<char>>|
            #[trigger] holds_zero_key(base) ==> spec_decrypt(
                base,
                ("AAAAAAAAAAAAAAAA"@, body),
            ) == Some(msg),
{
    let bytes = nonce + sealed;
    assert(bytes.take(12) =~= nonce);
    assert(bytes.skip(12) =~= sealed);
}

/// A generated key can encrypt, and a generated puzzle recovers to it: for a
/// key and puzzle that `generate_key` made, the puzzle can be recovered, the
/// recovered key is the generated one, and its text is the Base64 of a
/// 16-byte key, unless a candidate seed that the search tries before the
/// puzzle's own seed also opens the sealed bytes.
pub proof fn lemma_generated_key_usable(
    tag: Seq<u8>,
    key: Seq<u8>,
    nonce: Seq<u8>,
    seed: Seq<u8>,
    k: (Seq<char>, Seq<char>),
    puzzle: Seq<char>,
)
    requires
        generated_from(tag, key, nonce, seed, k, puzzle),
        no_earlier_opener(nonce, spec_puzzle_sealed(tag, key, nonce, seed), spec_masked_seed(seed)),
    ensures
        puzzle_recoverable(puzzle),
        spec_recover_key(puzzle) == k,
        key_usable(spec_recover_key(puzzle)),
{
    lemma_recover_generated(tag, key, nonce, seed, k, puzzle);
}

/// Keys generated into a key base serve the messages encrypted to their
/// puzzles: where the keys have pairwise distinct tags and each puzzle was
/// generated for its key with no earlier seed opening it, every message whose
/// 12-byte prefix ends on a character boundary and that is not too long to
/// seal can be encrypted to the puzzles, and the key base after the keys were
/// added holds the key it is encrypted to (so, by `encrypt_message`, the
/// ciphertext decrypts back to the message with that key base).
pub proof fn lemma_generated_keys_serve_messages(
    base: Map<Seq<char>, Seq<char>>,
    keys: Seq<(Seq<char>, Seq<char>)>,
    puzzles: Seq<String>,
    msg: Seq<char>,
)
    requires
        keys.len() == NUM_KEYS,
        puzzles.len() == NUM_KEYS,
        tags_distinct(keys),
        forall|i: int| 0 <= i < NUM_KEYS ==> generated_unambiguously(keys[i], #[trigger] puzzles[i]@),
        encode_utf8(msg).len() > 12 ==> is_char_boundary(encode_utf8(msg), 12),
        sealable_len(encode_utf8(msg).len() as int),
    ensures
        encryptable(encode_utf8(msg), puzzles),
        holds_key(add_keys(base, keys), chosen_key(encode_utf8(msg), puzzles)),
{
    let bytes = encode_utf8(msg);
    let index = spec_key_index(bytes);
    assert(0 <= index < NUM_KEYS);
    assert(generated_unambiguously(keys[index], puzzles[index]@));
    let (tag, key, nonce, seed) = choose|tag: Seq<u8>, key: Seq<u8>, nonce: Seq<u8>, seed: Seq<u8>|
        #[trigger] generated_from(tag, key, nonce, seed, keys[index], puzzles[index]@)
            && no_earlier_opener(
            nonce,
            spec_puzzle_sealed(tag, key, nonce, seed),
            spec_masked_seed(seed),
        );
    lemma_generated_key_usable(tag, key, nonce, seed, keys[index], puzzles[index]@);
    lemma_add_keys_distinct(base, keys, index);
}

/// Encrypts a message to a key under the given nonce: the ciphertext names
/// the key's tag and holds the nonce and the sealed message in Base64.
pub fn encrypt_message_with(msg: &str, key: &Key, nonce: &[u8]) -> (c: Ciphertext)
    requires
        nonce@.len() == NONCE_LEN,
        key_usable(key@),
        sealable_len(encode_utf8(msg@).len() as int),
    ensures
        c@ == spec_encrypt_with(encode_utf8(msg@), key@, nonce@),
        base64_decode(c@.1) == Some(
            nonce@ + aes128gcm_seal(decoded_key(key@.1), nonce@, encode_utf8(msg@)),
        ),
        aes128gcm_seal(decoded_key(key@.1), nonce@, encode_utf8(msg@)).len() == encode_utf8(
            msg@,
        ).len() + 16,
        forall|base: Map<Seq<char>, Seq<char>>|
            #[trigger] holds_key(base, key@) ==> spec_decrypt(base, c@) == Some(msg@),
{
    let key_text = key.get_key();
    let key_bytes = base64_decode_text(key_text.as_str()).unwrap();
    let msg_bytes = msg.as_bytes();
    let mut sealed = aes128gcm_encrypt(key_bytes.as_slice(), nonce, msg_bytes);
    let ghost sealed_view = sealed@;
    let mut body = slice_to_vec(nonce);
    body.append(&mut sealed);
    assert(body@ =~= nonce@ + sealed_view);
    let text = base64_encode_bytes(body.as_slice());
    proof {
        lemma_encrypted_decrypts(msg@, key@, nonce@, sealed_view, text@);
    }
    Ciphertext { tag: key.get_tag(), base64: text }
}

/// A message can be encrypted to one of these published keys without a
/// panic: its 12-byte prefix ends on a character boundary, it chooses a key
/// in the list, that key's puzzle can be recovered, the recovered key is
/// usable, and the message is not too long to seal.
pub open spec fn encryptable(msg_bytes: Seq<u8>, keys: Seq<String>) -> bool {
    let index = spec_key_index(msg_bytes);
    &&& (msg_bytes.len() > 12 ==> is_char_boundary(msg_bytes, 12))
    &&& index < keys.len()
    &&& puzzle_recoverable(keys[index]@)
    &&& key_usable(spec_recover_key(keys[index]@))
    &&& sealable_len(msg_bytes.len() as int)
}

/// The key a message is encrypted to among the published keys.
pub open spec fn chosen_key(msg_bytes: Seq<u8>, keys: Seq<String>) -> (Seq<char>, Seq<char>) {
    spec_recover_key(keys[spec_key_index(msg_bytes)]@)
}

/// Encrypts a message to one of the recipient's published keys: the message
/// chooses the puzzle, the key is recovered from it, and the message is
/// sealed under it with a random nonce.
pub fn encrypt_message(msg: String, keys: &Vec<String>) -> (c: Ciphertext)
    requires
        encryptable(encode_utf8(msg@), keys@),
    ensures
        exists|nonce: Seq<u8>|
            nonce.len() == 12 && c@ == #[trigger] spec_encrypt_with(
                encode_utf8(msg@),
                chosen_key(encode_utf8(msg@), keys@),
                nonce,
            ),
        base64_decode(c@.1) matches Some(body) && body.len() == encode_utf8(msg@).len() + 28,
        forall|base: Map<Seq<char>, Seq<char>>|
            #[trigger] holds_key(base, chosen_key(encode_utf8(msg@), keys@))
                ==> spec_decrypt(base, c@) == Some(msg@),
{
    let index = key_index(msg.as_str());
    let key = recover_key(keys[index].clone());
    let nonce = random_bytes(NONCE_LEN);
    let c = encrypt_message_with(msg.as_str(), &key, nonce.as_slice());
    assert(c@ == spec_encrypt_with(encode_utf8(msg@), chosen_key(encode_utf8(msg@), keys@), nonce@));
    c
}

/// Encrypts a message to one of the recipient's published keys where that
/// can be done without a panic; `None` where the message cannot be encrypted
/// to these keys.
pub fn try_encrypt_message(msg: String, keys: &Vec<String>) -> (c: Option<Ciphertext>)
    ensures
        c is Some <==> encryptable(encode_utf8(msg@), keys@),
        c matches Some(c) ==> exists|nonce: Seq<u8>|
            nonce.len() == 12 && c@ == #[trigger] spec_encrypt_with(
                encode_utf8(msg@),
                chosen_key(encode_utf8(msg@), keys@),
                nonce,
            ),
        c matches Some(c) ==> (base64_decode(c@.1) matches Some(body) && body.len() == encode_utf8(
            msg@,
        ).len() + 28),
        c matches Some(c) ==> forall|base: Map<Seq<char>, Seq<char>>|
            #[trigger] holds_key(base, chosen_key(encode_utf8(msg@), keys@))
                ==> spec_decrypt(base, c@) == Some(msg@),
{
    let text = msg.as_str();
    let len = text.as_bytes().len();
    if len > INDEX_PREFIX_LEN && !text.is_char_boundary(INDEX_PREFIX_LEN) {
        return None;
    }
    if len as u64 > 0x10_0000_0000u64 || len > usize::MAX - 28 || !is_encodable_len(len + 28) {
        return None;
    }
    let index = key_index(text);
    if index >= keys.len() {
        return None;
    }
    let puzzle = keys[index].as_str();
    let bytes = match base64_decode_text(puzzle) {
        Some(bytes) => bytes,
        None => return None,
    };
    if bytes.len() < NONCE_LEN || !is_encodable_len(bytes.len()) {
        return None;
    }
    let nonce = slice_subrange(bytes.as_slice(), 0, NONCE_LEN);
    let sealed = slice_subrange(bytes.as_slice(), NONCE_LEN, bytes.len());
    assert(nonce@ =~= bytes@.take(12));
    assert(sealed@ =~= bytes@.skip(12));
    let ghost puzzle_view = keys@[index as int]@;
    assert(puzzle@ == puzzle_view);
    let key = match find_puzzle_plaintext(nonce, sealed) {
        Some(data) => {
            if data.len() < TAG_LEN {
                assert(!puzzle_recoverable(puzzle_view));
                return None;
            }
            proof {
                lemma_encodable_shorter(data@.len() as int, bytes@.len() as int);
            }
            key_from_plaintext(data.as_slice())
        },
        None => Key::new(String::new(), String::new()),
    };
    assert(puzzle_recoverable(puzzle_view));
    assert(key@ == spec_recover_key(puzzle_view));
    let key_text = key.get_key();
    match base64_decode_text(key_text.as_str()) {
        Some(key_bytes) => {
            if key_bytes.len() != 16 {
                return None;
            }
        },
        None => return None,
    }
    let msg_nonce = random_bytes(NONCE_LEN);
    let c = encrypt_message_with(text, &key, msg_nonce.as_slice());
    assert(c@ == spec_encrypt_with(
        encode_utf8(msg@),
        chosen_key(encode_utf8(msg@), keys@),
        msg_nonce@,
    ));
    Some(c)
}

/// The fake ciphertext of a message under a nonce: tagged with
/// `AAAAAAAAAAAAAAAA` (the Base64 of the zero tag), the message sealed under
/// the zero key.
pub open spec fn spec_fake_encrypt_with(msg_bytes: Seq<u8>, nonce: Seq<u8>) -> (Seq<char>, Seq<char>) {
    ("AAAAAAAAAAAAAAAA"@, base64_encode(nonce + aes128gcm_seal(zero_key(), nonce, msg_bytes)))
}

/// Encrypts a message under the all-zero key and the given nonce, tagged
/// with the Base64 of twelve zero bytes.
pub fn fake_encrypt_message_with(msg: &str, nonce: &[u8]) -> (c: Ciphertext)
    requires
        nonce@.len() == NONCE_LEN,
        sealable_len(encode_utf8(msg@).len() as int),
    ensures
        c@ == spec_fake_encrypt_with(encode_utf8(msg@), nonce@),
        base64_decode(c@.0) == Some(zero_tag()),
        c@.0.len() == 16,
        base64_decode(c@.1) == Some(nonce@ + aes128gcm_seal(zero_key(), nonce@, encode_utf8(msg@))),
        aes128gcm_seal(zero_key(), nonce@, encode_utf8(msg@)).len() == encode_utf8(msg@).len() + 16,
        forall|base: Map<Seq<char>, Seq<char>>|
            #[trigger] holds_zero_key(base) ==> spec_decrypt(base, c@) == Some(msg@),
{
    let key = vec![0u8; 16];
    let tag = vec![0u8; 12];
    assert(key@ =~= zero_key());
    assert(tag@ =~= zero_tag());
    let mut sealed = aes128gcm_encrypt(key.as_slice(), nonce, msg.as_bytes());
    let ghost sealed_view = sealed@;
    let mut body = slice_to_vec(nonce);
    body.append(&mut sealed);
    assert(body@ =~= nonce@ + sealed_view);
    let tag_text = base64_encode_bytes(tag.as_slice());
    let text = base64_encode_bytes(body.as_slice());
    proof {
        lemma_zero_key_texts();
        reveal_strlit("AAAAAAAAAAAAAAAA");
        lemma_fake_decrypts(msg@, nonce@, sealed_view, text@);
    }
    Ciphertext { tag: tag_text, base64: text }
}

/// Encrypts a message under the all-zero key with a random nonce.
pub fn fake_encrypt_message(msg: String) -> (c: Ciphertext)
    requires
        sealable_len(encode_utf8(msg@).len() as int),
    ensures
        exists|nonce: Seq<u8>|
            nonce.len() == 12 && c@ == #[trigger] spec_fake_encrypt_with(encode_utf8(msg@), nonce),
        base64_decode(c@.0) == Some(zero_tag()),
        c@.0.len() == 16,
        base64_decode(c@.1) matches Some(body) && body.len() == encode_utf8(msg@).len() + 28,
        forall|base: Map<Seq<char>, Seq<char>>|
            #[trigger] holds_zero_key(base) ==> spec_decrypt(base, c@) == Some(msg@),
{
    let nonce = random_bytes(NONCE_LEN);
    let c = fake_encrypt_message_with(msg.as_str(), nonce.as_slice());
    assert(c@ == spec_fake_encrypt_with(encode_utf8(msg@), nonce@));
    c
}

/// The message in a ciphertext: the key base gives the key for its tag, the
/// body is decoded, its nonce split off, the rest opened under the key and
/// read as UTF-8.
pub fn decrypt_message(keybase: &Keybase, ctxt: &Ciphertext) -> (msg: String)
    requires
        spec_decrypt(keybase@, ctxt@) is Some,
    ensures
        Some(msg@) == spec_decrypt(keybase@, ctxt@),
{
    let key = keybase.get_key(&ctxt.tag).unwrap();
    let decoded = base64_decode_text(ctxt.base64.as_str()).unwrap();
    let nonce = slice_subrange(decoded.as_slice(), 0, NONCE_LEN);
    let body = slice_subrange(decoded.as_slice(), NONCE_LEN, decoded.len());
    assert(nonce@ =~= decoded@.take(12));
    assert(body@ =~= decoded@.skip(12));
    let key_text = key.get_key();
    let key_bytes = base64_decode_text(key_text.as_str()).unwrap();
    let plaintext = aes128gcm_decrypt(key_bytes.as_slice(), nonce, body).unwrap();
    string_from_utf8(plaintext).unwrap()
}

/// The message in a ciphertext where it can be read without a panic; `None`
/// where the tag is unknown, the body or key is malformed, the body does not
/// open, or the message is no UTF-8.
pub fn try_decrypt_message(keybase: &Keybase, ctxt: &Ciphertext) -> (msg: Option<String>)
    ensures
        msg is Some <==> spec_decrypt(keybase@, ctxt@) is Some,
        msg matches Some(m) ==> Some(m@) == spec_decrypt(keybase@, ctxt@),
{
    let key = match keybase.get_key(&ctxt.tag) {
        Some(key) => key,
        None => return None,
    };
    let decoded = match base64_decode_text(ctxt.base64.as_str()) {
        Some(decoded) => decoded,
        None => return None,
    };
    if decoded.len() < NONCE_LEN {
        return None;
    }
    let nonce = slice_subrange(decoded.as_slice(), 0, NONCE_LEN);
    let body = slice_subrange(decoded.as_slice(), NONCE_LEN, decoded.len());
    assert(nonce@ =~= decoded@.take(12));
    assert(body@ =~= decoded@.skip(12));
    let key_text = key.get_key();
    let key_bytes = match base64_decode_text(key_text.as_str()) {
        Some(key_bytes) => key_bytes,
        None => return None,
    };
    if key_bytes.len() != 16 {
        return None;
    }
    let plaintext = match aes128gcm_decrypt(key_bytes.as_slice(), nonce, body) {
        Some(plaintext) => plaintext,
        None => return None,
    };
    string_from_utf8(plaintext)
}

} // verus!
