use aes_gcm::aead::{generic_array::GenericArray, Aead, NewAead};
use merklechat::ids::generate_uuid;
use merklechat::key::{initial_keybase, Keybase};
use merklechat::message::{
    decrypt_message, encrypt_message, encrypt_message_with, fake_encrypt_message,
    fake_encrypt_message_with, key_index, try_decrypt_message, try_encrypt_message, Ciphertext,
};
use merklechat::puzzle::{generate_key_from, recover_key, NUM_KEYS};

fn hex(s: &str) -> Vec<u8> {
    (0..s.len()).step_by(2).map(|i| u8::from_str_radix(&s[i..i + 2], 16).unwrap()).collect()
}

/// A key base holding one key, and a list of puzzles that all seal it.
fn published_key() -> (Keybase, Vec<String>) {
    let tag: Vec<u8> = (20u8..32).collect();
    let key: Vec<u8> = (40u8..56).collect();
    let (k, puzzle) = generate_key_from(&tag, &key, &[9u8; 12], &[0, 0, 1]);
    let mut base = Keybase::new();
    base.add_key(k);
    (base, vec![puzzle; NUM_KEYS])
}

#[test]
fn key_index_of_short_message() {
    // 'h' + 'e' + 'l' + 'l' + 'o' = 532
    assert_eq!(key_index("hello"), 532);
}

#[test]
fn key_index_uses_first_twelve_bytes() {
    // 'a' ..= 'l' sum to 1230, and 1230 mod 1091 = 139
    assert_eq!(key_index("abcdefghijklmnop"), 139);
    assert_eq!(key_index("abcdefghijklXYZ"), 139);
}

#[test]
fn key_index_of_empty_message() {
    assert_eq!(key_index(""), 0);
}

#[test]
fn ciphertext_accessors() {
    let c = Ciphertext::new("tag".to_string(), "body".to_string());
    assert_eq!(c.get_tag(), "tag");
    assert_eq!(c.get_base64(), "body");
}

#[test]
fn fake_encrypt_known_answer_empty() {
    // AES-128-GCM, zero key, zero nonce, empty plaintext: tag 58e2fcce...
    let c = fake_encrypt_message_with("", &[0u8; 12]);
    let mut expected = vec![0u8; 12];
    expected.extend(hex("58e2fccefa7e3061367f1d57a4e7455a"));
    assert_eq!(c.get_tag(), "AAAAAAAAAAAAAAAA");
    assert_eq!(c.get_base64(), base64::encode(expected));
}

#[test]
fn fake_encrypt_known_answer_zero_block() {
    // AES-128-GCM, zero key, zero nonce, sixteen zero bytes.
    let msg = "\0".repeat(16);
    let c = fake_encrypt_message_with(&msg, &[0u8; 12]);
    let mut expected = vec![0u8; 12];
    expected.extend(hex("0388dace60b6a392f328c2b971b2fe78"));
    expected.extend(hex("ab6e47d42cec13bdf53a67b21257bddf"));
    assert_eq!(c.get_base64(), base64::encode(expected));
}

#[test]
fn fake_message_decrypts_with_initial_keybase() {
    let c = fake_encrypt_message("hello world".to_string());
    let base = initial_keybase();
    assert_eq!(decrypt_message(&base, &c), "hello world");
}

#[test]
fn encrypt_then_decrypt() {
    let (base, puzzles) = published_key();
    let msg = "Grüße aus Erlangen!".to_string();
    let c = encrypt_message(msg.clone(), &puzzles);
    assert_eq!(decrypt_message(&base, &c), msg);
    assert_eq!(try_decrypt_message(&base, &c), Some(msg));
}

#[test]
fn encrypt_message_with_names_key_tag() {
    let (base, puzzles) = published_key();
    let k = recover_key(puzzles[0].clone());
    let c = encrypt_message_with("hi", &k, &[5u8; 12]);
    assert_eq!(c.get_tag(), k.get_tag());
    let body = base64::decode(c.get_base64()).unwrap();
    assert_eq!(&body[..12], &[5u8; 12]);
    assert_eq!(body.len(), 12 + 2 + 16);
    assert_eq!(decrypt_message(&base, &c), "hi");
}

#[test]
fn try_encrypt_then_decrypt() {
    let (base, puzzles) = published_key();
    let c = try_encrypt_message("a message".to_string(), &puzzles).unwrap();
    assert_eq!(decrypt_message(&base, &c), "a message");
}

#[test]
fn try_encrypt_refuses_missing_key() {
    assert!(try_encrypt_message("hello".to_string(), &vec![]).is_none());
}

#[test]
fn try_encrypt_refuses_split_character() {
    let (_, puzzles) = published_key();
    // Eleven ASCII bytes, then a two-byte character across byte twelve.
    let msg = "aaaaaaaaaaaéz".to_string();
    assert!(try_encrypt_message(msg, &puzzles).is_none());
}

#[test]
fn try_encrypt_refuses_bad_puzzle() {
    let puzzles = vec!["***".to_string(); NUM_KEYS];
    assert!(try_encrypt_message("hello".to_string(), &puzzles).is_none());
}

#[test]
fn try_decrypt_unknown_tag() {
    let c = fake_encrypt_message("x".to_string());
    assert_eq!(try_decrypt_message(&Keybase::new(), &c), None);
}

#[test]
fn try_decrypt_bad_body() {
    let c = Ciphertext::new("AAAAAAAAAAAAAAAA".to_string(), "!!".to_string());
    assert_eq!(try_decrypt_message(&initial_keybase(), &c), None);
    let short = Ciphertext::new("AAAAAAAAAAAAAAAA".to_string(), base64::encode([0u8; 5]));
    assert_eq!(try_decrypt_message(&initial_keybase(), &short), None);
}

#[test]
fn try_decrypt_wrong_key() {
    let (base, puzzles) = published_key();
    let c = encrypt_message("secret".to_string(), &puzzles);
    let forged = Ciphertext::new(c.get_tag(), fake_encrypt_message("secret".to_string()).get_base64());
    assert_eq!(try_decrypt_message(&base, &forged), None);
}

#[test]
fn try_decrypt_not_utf8() {
    let mut body = vec![0u8; 12];
    // AES-128-GCM, zero key, zero nonce, of the bytes 0xff: not UTF-8.
    let sealed = {
        let cipher = aes_gcm::Aes128Gcm::new(GenericArray::from_slice(&[0u8; 16]));
        cipher.encrypt(GenericArray::from_slice(&[0u8; 12]), &[0xffu8][..]).unwrap()
    };
    body.extend(sealed);
    let c = Ciphertext::new("AAAAAAAAAAAAAAAA".to_string(), base64::encode(body));
    assert_eq!(try_decrypt_message(&initial_keybase(), &c), None);
}

#[test]
fn uuid_has_v4_shape() {
    let id = generate_uuid();
    assert_eq!(id.len(), 36);
    let chars: Vec<char> = id.chars().collect();
    for (i, c) in chars.iter().enumerate() {
        if i == 8 || i == 13 || i == 18 || i == 23 {
            assert_eq!(*c, '-');
        } else {
            assert!(c.is_ascii_hexdigit() && !c.is_ascii_uppercase());
        }
    }
    assert_eq!(chars[14], '4');
    assert!("89ab".contains(chars[19]));
}

#[test]
fn fake_ciphertext_body_length() {
    let c = fake_encrypt_message("hi".to_string());
    assert_eq!(c.get_tag(), "AAAAAAAAAAAAAAAA");
    assert_eq!(base64::decode(c.get_base64()).unwrap().len(), 30);
}
