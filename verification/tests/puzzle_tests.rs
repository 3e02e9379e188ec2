use merklechat::key::Key;
use merklechat::key::Keybase;
use merklechat::puzzle::{
    expand_key, find_puzzle_plaintext, generate_key, generate_key_from, generate_keys,
    is_encodable_len, key_from_plaintext, recover_key, try_recover_key, NUM_KEYS,
};

fn sample_tag() -> Vec<u8> {
    (1u8..=12).collect()
}

fn sample_key() -> Vec<u8> {
    (100u8..116).collect()
}

fn sample_nonce() -> Vec<u8> {
    vec![7u8; 12]
}

#[test]
fn expand_key_repeats_seed() {
    let expanded = expand_key([1, 2, 3]);
    assert_eq!(expanded, vec![1, 2, 3, 1, 2, 3, 1, 2, 3, 1, 2, 3, 1, 2, 3, 1]);
}

#[test]
fn expand_key_of_zero_seed() {
    assert_eq!(expand_key([0, 0, 0]), vec![0u8; 16]);
}

#[test]
fn key_from_plaintext_splits_tag_and_key() {
    let mut data = vec![0u8; 12];
    data.extend_from_slice(&[0u8; 16]);
    let k = key_from_plaintext(&data);
    assert_eq!(k.get_tag(), "AAAAAAAAAAAAAAAA");
    assert_eq!(k.get_key(), "AAAAAAAAAAAAAAAAAAAAAA==");
}

#[test]
fn generated_key_is_base64_of_its_bytes() {
    let (k, puzzle) = generate_key_from(&sample_tag(), &sample_key(), &sample_nonce(), &[0, 0, 0]);
    assert_eq!(k.get_tag(), base64::encode(sample_tag()));
    assert_eq!(k.get_key(), base64::encode(sample_key()));
    let bytes = base64::decode(&puzzle).unwrap();
    assert_eq!(bytes.len(), 12 + 28 + 16);
    assert_eq!(&bytes[..12], &sample_nonce()[..]);
}

#[test]
fn recover_generated_key_first_seed() {
    let (k, puzzle) = generate_key_from(&sample_tag(), &sample_key(), &sample_nonce(), &[0, 0, 0]);
    let recovered = recover_key(puzzle);
    assert_eq!(recovered.get_tag(), k.get_tag());
    assert_eq!(recovered.get_key(), k.get_key());
}

#[test]
fn recover_generated_key_masks_last_seed_byte() {
    // The last seed byte 0x07 is cut to 0x03 before the puzzle is sealed.
    let (k, puzzle) = generate_key_from(&sample_tag(), &sample_key(), &sample_nonce(), &[0, 1, 7]);
    let recovered = recover_key(puzzle.clone());
    assert_eq!(recovered.get_tag(), k.get_tag());
    assert_eq!(recovered.get_key(), k.get_key());
    let (_, same_puzzle) =
        generate_key_from(&sample_tag(), &sample_key(), &sample_nonce(), &[0, 1, 3]);
    assert_eq!(puzzle, same_puzzle);
}

#[test]
fn find_puzzle_plaintext_gives_tag_and_key() {
    let (_, puzzle) = generate_key_from(&sample_tag(), &sample_key(), &sample_nonce(), &[0, 2, 1]);
    let bytes = base64::decode(&puzzle).unwrap();
    let found = find_puzzle_plaintext(&bytes[..12], &bytes[12..]).unwrap();
    let mut expected = sample_tag();
    expected.extend_from_slice(&sample_key());
    assert_eq!(found, expected);
}

#[test]
fn try_recover_key_agrees_with_recover_key() {
    let (k, puzzle) = generate_key_from(&sample_tag(), &sample_key(), &sample_nonce(), &[0, 0, 2]);
    let recovered = try_recover_key(&puzzle).unwrap();
    assert_eq!(recovered.get_tag(), k.get_tag());
    assert_eq!(recovered.get_key(), k.get_key());
}

#[test]
fn try_recover_key_refuses_invalid_base64() {
    assert!(try_recover_key("not base64!").is_none());
}

#[test]
fn try_recover_key_refuses_short_puzzle() {
    // Eight bytes: shorter than a nonce.
    assert!(try_recover_key(&base64::encode([1u8; 8])).is_none());
}

#[test]
fn recover_key_without_opener_is_empty() {
    // A nonce and five bytes: shorter than a tag, so no seed opens it.
    let puzzle = base64::encode([3u8; 17]);
    let recovered = recover_key(puzzle);
    assert_eq!(recovered.get_tag(), "");
    assert_eq!(recovered.get_key(), "");
}

#[test]
fn generate_key_random_round_trip() {
    let (k, puzzle) = generate_key();
    assert_eq!(base64::decode(k.get_tag()).unwrap().len(), 12);
    assert_eq!(base64::decode(k.get_key()).unwrap().len(), 16);
    let recovered = recover_key(puzzle);
    assert_eq!(recovered.get_tag(), k.get_tag());
    assert_eq!(recovered.get_key(), k.get_key());
}

#[test]
fn generate_keys_fills_keybase() {
    let mut base = Keybase::new();
    let puzzles = generate_keys(&mut base);
    assert_eq!(puzzles.len(), NUM_KEYS);
    // The first puzzle's key is stored under its tag.
    let bytes = base64::decode(&puzzles[0]).unwrap();
    assert_eq!(bytes.len(), 56);
    let key_count = puzzles.iter().filter(|p| base64::decode(p).unwrap().len() == 56).count();
    assert_eq!(key_count, NUM_KEYS);
    let _unused: Option<Key> = base.get_key(&String::from("no such tag"));
}

#[test]
fn generated_texts_have_fixed_shape() {
    let (k, puzzle) = generate_key();
    assert_eq!(k.get_tag().len(), 16);
    assert_eq!(k.get_key().len(), 24);
    assert_eq!(puzzle.len(), 76);
    assert_eq!(base64::decode(&puzzle).unwrap().len(), 56);
}

#[test]
fn encodable_lengths() {
    assert!(is_encodable_len(0));
    assert!(is_encodable_len(56));
    assert!(!is_encodable_len(usize::MAX));
    assert!(!is_encodable_len(usize::MAX / 2));
}
