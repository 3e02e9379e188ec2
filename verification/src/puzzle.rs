//! Keys published as puzzles: the tag and key are sealed with AES-128-GCM
//! under a key made from a 3-byte seed with 2^18 possible values, so that
//! whoever holds the puzzle can recover the key by trying every seed.

use crate::key::{spec_add_key, tags_distinct, Key, Keybase};
use crate::primitives::{
    aes128gcm_decrypt, aes128gcm_encrypt, aes128gcm_open, aes128gcm_seal, base64_decode,
    base64_decode_text, base64_encode, base64_encode_bytes, lemma_base64_encode_len, opt_bytes,
    random_bytes,
};
use vstd::prelude::*;
use vstd::slice::{slice_subrange, slice_to_vec};

verus! {

/// Length of a key tag in bytes.
pub const TAG_LEN: usize = 12;

/// Length of an AES-128 key in bytes.
pub const KEY_LEN: usize = 16;

/// Length of an AES-GCM nonce in bytes.
pub const NONCE_LEN: usize = 12;

/// Length of a puzzle seed in bytes.
pub const SEED_LEN: usize = 3;

/// Number of keys a user publishes.
pub const NUM_KEYS: usize = 1091;

/// The 16-byte AES key made from a 3-byte puzzle seed: the seed repeated
/// over and over, cut at 16 bytes.
pub open spec fn spec_expand_key(seed: Seq<u8>) -> Seq<u8> {
    Seq::new(16, |i: int| seed[i % 3])
}

/// Expands a 3-byte seed into a 16-byte key by repeating it.
pub fn expand_key(seed: [u8; 3]) -> (expanded: Vec<u8>)
    ensures
        expanded@ == spec_expand_key(seed@),
        expanded@.len() == KEY_LEN,
{
    let mut expanded = slice_to_vec(seed.as_slice());
    let mut round: usize = 0;
    while round < 6
        invariant
            round <= 6,
            seed@.len() == 3,
            expanded@.len() == 3 * (round + 1),
            forall|i: int| 0 <= i < expanded@.len() ==> #[trigger] expanded@[i] == seed@[i % 3],
        decreases 6 - round,
    {
        let mut more = slice_to_vec(seed.as_slice());
        let ghost before = expanded@;
        expanded.append(&mut more);
        assert forall|i: int| 0 <= i < expanded@.len() implies #[trigger] expanded@[i] == seed@[i
            % 3] by {
            if i >= before.len() {
                assert(expanded@[i] == seed@[i - before.len()]);
                assert((i - 3 * (round + 1)) % 3 == i % 3) by (nonlinear_arith)
                    requires
                        i >= 3 * (round + 1),
                ;
            }
        }
        round = round + 1;
    }
    expanded.resize(16, 0);
    assert(expanded@ =~= spec_expand_key(seed@));
    expanded
}

/// The seed that a puzzle is sealed under: the drawn seed with its last byte
/// cut to its two low bits.
pub open spec fn spec_masked_seed(seed: Seq<u8>) -> Seq<u8> {
    seq![seed[0], seed[1], seed[2] & 3]
}

/// The expanded key repeats the seed bytes unchanged: for every 3-byte seed
/// it is 16 bytes long, byte `i` is seed byte `i % 3`, it starts with the
/// seed itself, and it repeats with period three.
pub proof fn lemma_expand_key_repeats_seed(seed: Seq<u8>)
    requires
        seed.len() == 3,
    ensures
        spec_expand_key(seed).len() == 16,
        forall|i: int| 0 <= i < 16 ==> #[trigger] spec_expand_key(seed)[i] == seed[i % 3],
        spec_expand_key(seed).take(3) == seed,
        forall|i: int| 0 <= i < 13 ==> #[trigger] spec_expand_key(seed)[i + 3] == spec_expand_key(seed)[i],
{
    assert(spec_expand_key(seed).take(3) =~= seed);
}

/// Different seeds expand to different keys.
pub proof fn lemma_expand_key_injective(s: Seq<u8>, t: Seq<u8>)
    requires
        s.len() == 3,
        t.len() == 3,
        s != t,
    ensures
        spec_expand_key(s) != spec_expand_key(t),
{
    lemma_expand_key_repeats_seed(s);
    lemma_expand_key_repeats_seed(t);
    if spec_expand_key(s) == spec_expand_key(t) {
        assert(s =~= t);
    }
}

/// The masked seed keeps the first two seed bytes and the two low bits of
/// the last: `masked == [seed[0], seed[1], seed[2] % 4]`; so two seeds that
/// agree in their first two bytes are sealed under the same key exactly when
/// their last bytes agree modulo four.
pub proof fn lemma_masked_seed_keeps_two_bits(seed: Seq<u8>, other: Seq<u8>)
    requires
        seed.len() == 3,
        other.len() == 3,
    ensures
        spec_masked_seed(seed).len() == 3,
        spec_masked_seed(seed)[0] == seed[0],
        spec_masked_seed(seed)[1] == seed[1],
        spec_masked_seed(seed)[2] == seed[2] % 4,
        seed[0] == other[0] && seed[1] == other[1] ==> (spec_expand_key(spec_masked_seed(seed))
            == spec_expand_key(spec_masked_seed(other)) <==> seed[2] % 4 == other[2] % 4),
{
    let a: u8 = seed[2];
    let b: u8 = other[2];
    assert(a & 3 == a % 4) by (bit_vector);
    assert(b & 3 == b % 4) by (bit_vector);
    if seed[0] == other[0] && seed[1] == other[1] {
        if seed[2] % 4 == other[2] % 4 {
            assert(spec_masked_seed(seed) =~= spec_masked_seed(other));
        } else {
            lemma_expand_key_injective(spec_masked_seed(seed), spec_masked_seed(other));
        }
    }
}

/// The seed that the search tries at position (b1, b2, b3).
pub open spec fn candidate_seed(b1: int, b2: int, b3: int) -> Seq<u8> {
    seq![b1 as u8, b2 as u8, b3 as u8]
}

/// What opening the sealed bytes under the candidate seed (b1, b2, b3) gives.
pub open spec fn open_with_candidate(
    nonce: Seq<u8>,
    sealed: Seq<u8>,
    b1: int,
    b2: int,
    b3: int,
) -> Option<Seq<u8>> {
    aes128gcm_open(spec_expand_key(candidate_seed(b1, b2, b3)), nonce, sealed)
}

/// The first plaintext that candidates (b1, b2, b3), (b1, b2, b3 + 1), ...,
/// (b1, b2, 3) open.
pub open spec fn search_low(nonce: Seq<u8>, sealed: Seq<u8>, b1: int, b2: int, b3: int) -> Option<
    Seq<u8>,
>
    decreases 4 - b3,
{
    if b3 >= 4 {
        None
    } else if open_with_candidate(nonce, sealed, b1, b2, b3) is Some {
        open_with_candidate(nonce, sealed, b1, b2, b3)
    } else {
        search_low(nonce, sealed, b1, b2, b3 + 1)
    }
}

/// The first plaintext that the candidates from (b1, b2, 0) to (b1, 255, 3) open.
pub open spec fn search_mid(nonce: Seq<u8>, sealed: Seq<u8>, b1: int, b2: int) -> Option<Seq<u8>>
    decreases 256 - b2,
{
    if b2 >= 256 {
        None
    } else if search_low(nonce, sealed, b1, b2, 0) is Some {
        search_low(nonce, sealed, b1, b2, 0)
    } else {
        search_mid(nonce, sealed, b1, b2 + 1)
    }
}

/// The first plaintext that the candidates from (b1, 0, 0) to (255, 255, 3) open.
pub open spec fn search_high(nonce: Seq<u8>, sealed: Seq<u8>, b1: int) -> Option<Seq<u8>>
    decreases 256 - b1,
{
    if b1 >= 256 {
        None
    } else if search_mid(nonce, sealed, b1, 0) is Some {
        search_mid(nonce, sealed, b1, 0)
    } else {
        search_high(nonce, sealed, b1 + 1)
    }
}

/// The plaintext of a puzzle: what the first candidate seed, in the order
/// (0, 0, 0), (0, 0, 1), ..., (255, 255, 3), opens; `None` if none does.
pub open spec fn puzzle_plaintext(nonce: Seq<u8>, sealed: Seq<u8>) -> Option<Seq<u8>> {
    search_high(nonce, sealed, 0)
}

/// Bytes of this length can be written in Base64: the text fits into
/// `isize::MAX` bytes.
pub open spec fn encodable_len(len: int) -> bool {
    4 * ((len + 2) / 3) <= isize::MAX
}

/// Whether bytes of length `n` can be written in Base64.
pub fn is_encodable_len(n: usize) -> (b: bool)
    ensures
        b == encodable_len(n as int),
{
    4 * ((n as u128 + 2) / 3) <= isize::MAX as u128
}

/// Fewer bytes than an encodable number are encodable too.
pub proof fn lemma_encodable_shorter(shorter: int, len: int)
    requires
        0 <= shorter <= len,
        encodable_len(len),
    ensures
        encodable_len(shorter),
{
    vstd::arithmetic::div_mod::lemma_div_is_ordered(shorter + 2, len + 2, 3);
}

/// The key that a puzzle plaintext holds: its first 12 bytes are the tag,
/// the rest is the key, both written in Base64.
pub open spec fn spec_key_of_plaintext(data: Seq<u8>) -> (Seq<char>, Seq<char>) {
    (base64_encode(data.take(12)), base64_encode(data.skip(12)))
}

/// The key recovered from the decoded bytes of a puzzle (a 12-byte nonce,
/// then the sealed bytes): that of the puzzle plaintext, or an empty tag and
/// key where no candidate opens it.
pub open spec fn spec_recover_from_bytes(bytes: Seq<u8>) -> (Seq<char>, Seq<char>) {
    match puzzle_plaintext(bytes.take(12), bytes.skip(12)) {
        Some(data) => spec_key_of_plaintext(data),
        None => (Seq::empty(), Seq::empty()),
    }
}

/// The decoded bytes of a puzzle can be recovered from without a panic:
/// they hold a whole nonce, and a plaintext found is at least a tag long.
pub open spec fn bytes_recoverable(bytes: Seq<u8>) -> bool {
    &&& 12 <= bytes.len()
    &&& encodable_len(bytes.len() as int)
    &&& (puzzle_plaintext(bytes.take(12), bytes.skip(12)) matches Some(data) ==> 12 <= data.len())
}

/// A puzzle text can be recovered from without a panic: it is valid Base64
/// whose bytes can be recovered from.
pub open spec fn puzzle_recoverable(puzzle: Seq<char>) -> bool {
    base64_decode(puzzle) matches Some(bytes) && bytes_recoverable(bytes)
}

/// The key recovered from a puzzle text.
pub open spec fn spec_recover_key(puzzle: Seq<char>) -> (Seq<char>, Seq<char>) {
    match base64_decode(puzzle) {
        Some(bytes) => spec_recover_from_bytes(bytes),
        None => (Seq::empty(), Seq::empty()),
    }
}

/// The bytes a puzzle is sealed to: tag and key, sealed with the key of the
/// masked seed.
pub open spec fn spec_puzzle_sealed(tag: Seq<u8>, key: Seq<u8>, nonce: Seq<u8>, seed: Seq<u8>) -> Seq<
    u8,
> {
    aes128gcm_seal(spec_expand_key(spec_masked_seed(seed)), nonce, tag + key)
}

/// `k` and `puzzle` are the key and the puzzle made from the given tag, key,
/// nonce and seed bytes: the Base64 tag and key, and the Base64 of the nonce
/// followed by the sealed tag and key. With them hold what the sealing and
/// the encoding promise of these very values: the three texts decode back to
/// their bytes and are 16, 24 and 76 characters long, the sealed bytes are 44
/// long, and the masked seed opens them to the tag followed by the key.
pub open spec fn generated_from(
    tag: Seq<u8>,
    key: Seq<u8>,
    nonce: Seq<u8>,
    seed: Seq<u8>,
    k: (Seq<char>, Seq<char>),
    puzzle: Seq<char>,
) -> bool {
    let sealed = spec_puzzle_sealed(tag, key, nonce, seed);
    &&& tag.len() == 12
    &&& key.len() == 16
    &&& nonce.len() == 12
    &&& seed.len() == 3
    &&& k == (base64_encode(tag), base64_encode(key))
    &&& puzzle == base64_encode(nonce + sealed)
    &&& base64_decode(k.0) == Some(tag)
    &&& base64_decode(k.1) == Some(key)
    &&& base64_decode(puzzle) == Some(nonce + sealed)
    &&& k.0.len() == 16
    &&& k.1.len() == 24
    &&& puzzle.len() == 76
    &&& sealed.len() == 44
    &&& aes128gcm_open(spec_expand_key(spec_masked_seed(seed)), nonce, sealed) == Some(tag + key)
}

/// `puzzle` is a puzzle made for `k` from some tag, key, nonce and seed.
pub open spec fn is_generated(k: (Seq<char>, Seq<char>), puzzle: Seq<char>) -> bool {
    exists|tag: Seq<u8>, key: Seq<u8>, nonce: Seq<u8>, seed: Seq<u8>|
        #[trigger] generated_from(tag, key, nonce, seed, k, puzzle)
}

/// The key base after the keys are added one after the other.
pub open spec fn add_keys(
    base: Map<Seq<char>, Seq<char>>,
    keys: Seq<(Seq<char>, Seq<char>)>,
) -> Map<Seq<char>, Seq<char>>
    decreases keys.len(),
{
    if keys.len() == 0 {
        base
    } else {
        spec_add_key(add_keys(base, keys.drop_last()), keys.last())
    }
}

/// Adding keys whose tags are pairwise distinct leaves each tag mapped to its
/// key.
pub proof fn lemma_add_keys_distinct(
    base: Map<Seq<char>, Seq<char>>,
    keys: Seq<(Seq<char>, Seq<char>)>,
    i: int,
)
    requires
        tags_distinct(keys),
        0 <= i < keys.len(),
    ensures
        add_keys(base, keys).dom().contains(keys[i].0),
        add_keys(base, keys)[keys[i].0] == keys[i].1,
    decreases keys.len(),
{
    let prefix = keys.drop_last();
    if i < keys.len() - 1 {
        assert(tags_distinct(prefix)) by {
            assert forall|a: int, b: int|
                0 <= a < prefix.len() && 0 <= b < prefix.len() && a != b implies #[trigger] prefix[a].0
                != #[trigger] prefix[b].0 by {
                assert(keys[a].0 != keys[b].0);
            }
        }
        lemma_add_keys_distinct(base, prefix, i);
        assert(keys[i].0 != keys[keys.len() - 1].0);
    }
}

/// Adding keys with pairwise distinct tags, none of them in the key base
/// yet, to a key base with finitely many tags adds exactly as many tags as
/// there are keys.
pub proof fn lemma_add_keys_len(base: Map<Seq<char>, Seq<char>>, keys: Seq<(Seq<char>, Seq<char>)>)
    requires
        base.dom().finite(),
        tags_distinct(keys),
        forall|i: int| 0 <= i < keys.len() ==> !base.dom().contains(#[trigger] keys[i].0),
    ensures
        add_keys(base, keys).dom().finite(),
        add_keys(base, keys).len() == base.len() + keys.len(),
        forall|tag: Seq<char>|
            #[trigger] add_keys(base, keys).dom().contains(tag) <==> (base.dom().contains(tag)
                || exists|i: int| 0 <= i < keys.len() && keys[i].0 == tag),
    decreases keys.len(),
{
    if keys.len() > 0 {
        let prefix = keys.drop_last();
        let last = keys.last();
        assert(tags_distinct(prefix)) by {
            assert forall|a: int, b: int|
                0 <= a < prefix.len() && 0 <= b < prefix.len() && a != b implies #[trigger] prefix[a].0
                != #[trigger] prefix[b].0 by {
                assert(keys[a].0 != keys[b].0);
            }
        }
        assert forall|i: int| 0 <= i < prefix.len() implies !base.dom().contains(#[trigger] prefix[i].0) by {
            assert(keys[i].0 == prefix[i].0);
        }
        lemma_add_keys_len(base, prefix);
        assert(!add_keys(base, prefix).dom().contains(last.0)) by {
            assert(!base.dom().contains(keys[keys.len() - 1].0));
            if exists|i: int| 0 <= i < prefix.len() && prefix[i].0 == last.0 {
                let i = choose|i: int| 0 <= i < prefix.len() && prefix[i].0 == last.0;
                assert(keys[i].0 != keys[keys.len() - 1].0);
            }
        }
        assert forall|tag: Seq<char>|
            #[trigger] add_keys(base, keys).dom().contains(tag) <==> (base.dom().contains(tag)
                || exists|i: int| 0 <= i < keys.len() && keys[i].0 == tag) by {
            if exists|i: int| 0 <= i < prefix.len() && prefix[i].0 == tag {
                let i = choose|i: int| 0 <= i < prefix.len() && prefix[i].0 == tag;
                assert(keys[i].0 == tag);
            }
            if exists|i: int| 0 <= i < keys.len() && keys[i].0 == tag {
                let i = choose|i: int| 0 <= i < keys.len() && keys[i].0 == tag;
                if i < prefix.len() {
                    assert(prefix[i].0 == tag);
                }
            }
        }
    }
}

/// `puzzle` was made for `k`, and no candidate seed that the search tries
/// before the puzzle's own seed opens its sealed bytes.
pub open spec fn generated_unambiguously(k: (Seq<char>, Seq<char>), puzzle: Seq<char>) -> bool {
    exists|tag: Seq<u8>, key: Seq<u8>, nonce: Seq<u8>, seed: Seq<u8>|
        #[trigger] generated_from(tag, key, nonce, seed, k, puzzle) && no_earlier_opener(
            nonce,
            spec_puzzle_sealed(tag, key, nonce, seed),
            spec_masked_seed(seed),
        )
}

/// Candidate (b1, b2, b3) comes before (s1, s2, s3) in the search.
pub open spec fn searched_before(b1: int, b2: int, b3: int, s1: int, s2: int, s3: int) -> bool {
    b1 < s1 || (b1 == s1 && (b2 < s2 || (b2 == s2 && b3 < s3)))
}

/// No candidate that the search tries before `seed` opens the sealed bytes.
pub open spec fn no_earlier_opener(nonce: Seq<u8>, sealed: Seq<u8>, seed: Seq<u8>) -> bool {
    forall|b1: int, b2: int, b3: int|
        0 <= b1 < 256 && 0 <= b2 < 256 && 0 <= b3 < 4 && searched_before(
            b1,
            b2,
            b3,
            seed[0] as int,
            seed[1] as int,
            seed[2] as int,
        ) ==> #[trigger] open_with_candidate(nonce, sealed, b1, b2, b3) is None
}

proof fn lemma_search_low_none(nonce: Seq<u8>, sealed: Seq<u8>, b1: int, b2: int, from: int)
    requires
        0 <= from,
        forall|b3: int| from <= b3 < 4 ==> #[trigger] open_with_candidate(nonce, sealed, b1, b2, b3) is None,
    ensures
        search_low(nonce, sealed, b1, b2, from) is None,
    decreases 4 - from,
{
    if from < 4 {
        lemma_search_low_none(nonce, sealed, b1, b2, from + 1);
    }
}

proof fn lemma_search_low_found(
    nonce: Seq<u8>,
    sealed: Seq<u8>,
    b1: int,
    b2: int,
    from: int,
    s3: int,
    plain: Seq<u8>,
)
    requires
        0 <= from <= s3 < 4,
        open_with_candidate(nonce, sealed, b1, b2, s3) == Some(plain),
        forall|b3: int| from <= b3 < s3 ==> #[trigger] open_with_candidate(nonce, sealed, b1, b2, b3) is None,
    ensures
        search_low(nonce, sealed, b1, b2, from) == Some(plain),
    decreases s3 - from,
{
    if from < s3 {
        lemma_search_low_found(nonce, sealed, b1, b2, from + 1, s3, plain);
    }
}

proof fn lemma_search_mid_none(nonce: Seq<u8>, sealed: Seq<u8>, b1: int, from: int)
    requires
        0 <= from,
        forall|b2: int, b3: int|
            from <= b2 < 256 && 0 <= b3 < 4 ==> #[trigger] open_with_candidate(nonce, sealed, b1, b2, b3) is None,
    ensures
        search_mid(nonce, sealed, b1, from) is None,
    decreases 256 - from,
{
    if from < 256 {
        lemma_search_low_none(nonce, sealed, b1, from, 0);
        lemma_search_mid_none(nonce, sealed, b1, from + 1);
    }
}

proof fn lemma_search_mid_found(
    nonce: Seq<u8>,
    sealed: Seq<u8>,
    b1: int,
    from: int,
    s2: int,
    s3: int,
    plain: Seq<u8>,
)
    requires
        0 <= from <= s2 < 256,
        0 <= s3 < 4,
        open_with_candidate(nonce, sealed, b1, s2, s3) == Some(plain),
        forall|b2: int, b3: int|
            from <= b2 < 256 && 0 <= b3 < 4 && (b2 < s2 || (b2 == s2 && b3 < s3))
                ==> #[trigger] open_with_candidate(nonce, sealed, b1, b2, b3) is None,
    ensures
        search_mid(nonce, sealed, b1, from) == Some(plain),
    decreases s2 - from,
{
    if from < s2 {
        lemma_search_low_none(nonce, sealed, b1, from, 0);
        lemma_search_mid_found(nonce, sealed, b1, from + 1, s2, s3, plain);
    } else {
        lemma_search_low_found(nonce, sealed, b1, s2, 0, s3, plain);
    }
}

proof fn lemma_search_high_found(
    nonce: Seq<u8>,
    sealed: Seq<u8>,
    from: int,
    s1: int,
    s2: int,
    s3: int,
    plain: Seq<u8>,
)
    requires
        0 <= from <= s1 < 256,
        0 <= s2 < 256,
        0 <= s3 < 4,
        open_with_candidate(nonce, sealed, s1, s2, s3) == Some(plain),
        forall|b1: int, b2: int, b3: int|
            from <= b1 < 256 && 0 <= b2 < 256 && 0 <= b3 < 4 && searched_before(b1, b2, b3, s1, s2, s3)
                ==> #[trigger] open_with_candidate(nonce, sealed, b1, b2, b3) is None,
    ensures
        search_high(nonce, sealed, from) == Some(plain),
    decreases s1 - from,
{
    if from < s1 {
        assert forall|b2: int, b3: int|
            0 <= b2 < 256 && 0 <= b3 < 4 implies #[trigger] open_with_candidate(nonce, sealed, from, b2, b3) is None by {
            assert(searched_before(from, b2, b3, s1, s2, s3));
        }
        lemma_search_mid_none(nonce, sealed, from, 0);
        lemma_search_high_found(nonce, sealed, from + 1, s1, s2, s3, plain);
    } else {
        assert forall|b2: int, b3: int|
            0 <= b2 < 256 && 0 <= b3 < 4 && (b2 < s2 || (b2 == s2 && b3 < s3)) implies #[trigger] open_with_candidate(nonce, sealed, s1, b2, b3) is None by {
            assert(searched_before(s1, b2, b3, s1, s2, s3));
        }
        lemma_search_mid_found(nonce, sealed, s1, 0, s2, s3, plain);
    }
}

proof fn lemma_search_high_none(nonce: Seq<u8>, sealed: Seq<u8>, from: int)
    requires
        0 <= from,
        forall|b1: int, b2: int, b3: int|
            from <= b1 < 256 && 0 <= b2 < 256 && 0 <= b3 < 4
                ==> #[trigger] open_with_candidate(nonce, sealed, b1, b2, b3) is None,
    ensures
        search_high(nonce, sealed, from) is None,
    decreases 256 - from,
{
    if from < 256 {
        lemma_search_mid_none(nonce, sealed, from, 0);
        lemma_search_high_none(nonce, sealed, from + 1);
    }
}

/// The puzzle plaintext is what the first opening candidate gives: where
/// candidate (b1, b2, b3) opens the sealed bytes and no candidate the search
/// tries before it does, the puzzle plaintext is its plaintext.
pub proof fn lemma_puzzle_plaintext_first_opener(
    nonce: Seq<u8>,
    sealed: Seq<u8>,
    b1: int,
    b2: int,
    b3: int,
)
    requires
        0 <= b1 < 256,
        0 <= b2 < 256,
        0 <= b3 < 4,
        open_with_candidate(nonce, sealed, b1, b2, b3) is Some,
        forall|c1: int, c2: int, c3: int|
            0 <= c1 < 256 && 0 <= c2 < 256 && 0 <= c3 < 4 && searched_before(c1, c2, c3, b1, b2, b3)
                ==> #[trigger] open_with_candidate(nonce, sealed, c1, c2, c3) is None,
    ensures
        puzzle_plaintext(nonce, sealed) == open_with_candidate(nonce, sealed, b1, b2, b3),
{
    let plain = open_with_candidate(nonce, sealed, b1, b2, b3)->Some_0;
    lemma_search_high_found(nonce, sealed, 0, b1, b2, b3, plain);
}

/// Where no candidate seed opens the sealed bytes, there is no puzzle plaintext.
pub proof fn lemma_puzzle_plaintext_no_opener(nonce: Seq<u8>, sealed: Seq<u8>)
    requires
        forall|b1: int, b2: int, b3: int|
            0 <= b1 < 256 && 0 <= b2 < 256 && 0 <= b3 < 4
                ==> #[trigger] open_with_candidate(nonce, sealed, b1, b2, b3) is None,
    ensures
        puzzle_plaintext(nonce, sealed) is None,
{
    lemma_search_high_none(nonce, sealed, 0);
}

/// Recovering a generated puzzle gives its key back: for a key and puzzle
/// that `generate_key` made, the puzzle can be recovered from without a panic
/// and `recover_key` returns that key, unless a candidate seed that the search
/// tries before the puzzle's own seed also opens the sealed bytes.
pub proof fn lemma_recover_generated(
    tag: Seq<u8>,
    key: Seq<u8>,
    nonce: Seq<u8>,
    seed: Seq<u8>,
    k: (Seq<char>, Seq<char>),
    puzzle: Seq<char>,
)
    requires
        generated_from(tag, key, nonce, seed, k, puzzle),
        no_earlier_opener(nonce, spec_puzzle_sealed(tag, key, nonce, seed), spec_masked_seed(seed)),
    ensures
        puzzle_recoverable(puzzle),
        spec_recover_key(puzzle) == k,
{
    let sealed = spec_puzzle_sealed(tag, key, nonce, seed);
    let masked = spec_masked_seed(seed);
    let bytes = nonce + sealed;
    assert(bytes.take(12) =~= nonce);
    assert(bytes.skip(12) =~= sealed);
    let last: u8 = seed[2];
    assert(last & 3 < 4) by (bit_vector);
    assert(candidate_seed(masked[0] as int, masked[1] as int, masked[2] as int) =~= masked);
    lemma_search_high_found(
        nonce,
        sealed,
        0,
        masked[0] as int,
        masked[1] as int,
        masked[2] as int,
        tag + key,
    );
    assert((tag + key).take(12) =~= tag);
    assert((tag + key).skip(12) =~= key);
}

/// Recovers the plaintext of a puzzle by trying every candidate seed in
/// order; the first that opens the sealed bytes gives it.
pub fn find_puzzle_plaintext(nonce: &[u8], sealed: &[u8]) -> (found: Option<Vec<u8>>)
    requires
        nonce@.len() == NONCE_LEN,
    ensures
        opt_bytes(found) == puzzle_plaintext(nonce@, sealed@),
        found matches Some(data) ==> data@.len() + 16 == sealed@.len(),
{
    let mut b1: u16 = 0;
    while b1 < 256
        invariant
            b1 <= 256,
            nonce@.len() == NONCE_LEN,
            puzzle_plaintext(nonce@, sealed@) == search_high(nonce@, sealed@, b1 as int),
        decreases 256 - b1,
    {
        let mut b2: u16 = 0;
        while b2 < 256
            invariant
                b1 < 256,
                b2 <= 256,
                nonce@.len() == NONCE_LEN,
                puzzle_plaintext(nonce@, sealed@) == search_high(nonce@, sealed@, b1 as int),
                search_mid(nonce@, sealed@, b1 as int, 0) == search_mid(
                    nonce@,
                    sealed@,
                    b1 as int,
                    b2 as int,
                ),
            decreases 256 - b2,
        {
            let mut b3: u16 = 0;
            while b3 < 4
                invariant
                    b1 < 256,
                    b2 < 256,
                    b3 <= 4,
                    nonce@.len() == NONCE_LEN,
                    puzzle_plaintext(nonce@, sealed@) == search_high(nonce@, sealed@, b1 as int),
                    search_mid(nonce@, sealed@, b1 as int, 0) == search_mid(
                        nonce@,
                        sealed@,
                        b1 as int,
                        b2 as int,
                    ),
                    search_low(nonce@, sealed@, b1 as int, b2 as int, 0) == search_low(
                        nonce@,
                        sealed@,
                        b1 as int,
                        b2 as int,
                        b3 as int,
                    ),
                decreases 4 - b3,
            {
                let candidate = expand_key([b1 as u8, b2 as u8, b3 as u8]);
                assert(candidate@ == spec_expand_key(
                    candidate_seed(b1 as int, b2 as int, b3 as int),
                )) by {
                    assert([b1 as u8, b2 as u8, b3 as u8]@ =~= candidate_seed(
                        b1 as int,
                        b2 as int,
                        b3 as int,
                    ));
                }
                let opened = aes128gcm_decrypt(candidate.as_slice(), nonce, sealed);
                if opened.is_some() {
                    return opened;
                }
                b3 = b3 + 1;
            }
            b2 = b2 + 1;
        }
        b1 = b1 + 1;
    }
    None
}

/// The key that a puzzle plaintext holds: the first 12 bytes are the tag,
/// the rest is the key, each written in Base64.
pub fn key_from_plaintext(data: &[u8]) -> (k: Key)
    requires
        TAG_LEN <= data@.len(),
        encodable_len(data@.len() as int),
    ensures
        k@ == spec_key_of_plaintext(data@),
{
    let tag = slice_subrange(data, 0, TAG_LEN);
    let key = slice_subrange(data, TAG_LEN, data.len());
    proof {
        lemma_encodable_shorter(tag@.len() as int, data@.len() as int);
        lemma_encodable_shorter(key@.len() as int, data@.len() as int);
    }
    let tag_text = base64_encode_bytes(tag);
    let key_text = base64_encode_bytes(key);
    assert(tag@ =~= data@.take(12));
    assert(key@ =~= data@.skip(12));
    Key::new(tag_text, key_text)
}

/// Recovers the key that a puzzle seals: decodes the Base64 puzzle, splits
/// off the nonce, and searches the seeds for the one that opens the rest.
/// Where no seed opens it, the key and tag are empty.
pub fn recover_key(puzzle: String) -> (k: Key)
    requires
        puzzle_recoverable(puzzle@),
    ensures
        k@ == spec_recover_key(puzzle@),
{
    let decoded = base64_decode_text(puzzle.as_str());
    let bytes = decoded.unwrap();
    let nonce = slice_subrange(bytes.as_slice(), 0, NONCE_LEN);
    let sealed = slice_subrange(bytes.as_slice(), NONCE_LEN, bytes.len());
    assert(nonce@ =~= bytes@.take(12));
    assert(sealed@ =~= bytes@.skip(12));
    match find_puzzle_plaintext(nonce, sealed) {
        Some(data) => {
            proof {
                lemma_encodable_shorter(data@.len() as int, bytes@.len() as int);
            }
            key_from_plaintext(data.as_slice())
        },
        None => Key::new(String::new(), String::new()),
    }
}

/// Recovers the key of a puzzle where that can be done without a panic:
/// `None` where the puzzle is no valid Base64, is shorter than a nonce, or
/// opens to a plaintext shorter than a tag.
pub fn try_recover_key(puzzle: &str) -> (k: Option<Key>)
    ensures
        k is Some <==> puzzle_recoverable(puzzle@),
        k matches Some(k) ==> k@ == spec_recover_key(puzzle@),
{
    let bytes = match base64_decode_text(puzzle) {
        Some(bytes) => bytes,
        None => return None,
    };
    if bytes.len() < NONCE_LEN {
        return None;
    }
    if !is_encodable_len(bytes.len()) {
        return None;
    }
    let nonce = slice_subrange(bytes.as_slice(), 0, NONCE_LEN);
    let sealed = slice_subrange(bytes.as_slice(), NONCE_LEN, bytes.len());
    assert(nonce@ =~= bytes@.take(12));
    assert(sealed@ =~= bytes@.skip(12));
    match find_puzzle_plaintext(nonce, sealed) {
        Some(data) => {
            if data.len() < TAG_LEN {
                return None;
            }
            proof {
                lemma_encodable_shorter(data@.len() as int, bytes@.len() as int);
            }
            Some(key_from_plaintext(data.as_slice()))
        },
        None => Some(Key::new(String::new(), String::new())),
    }
}

/// Makes a key and its puzzle from the given random bytes: the key is the
/// Base64 tag and key, the puzzle the Base64 of the nonce followed by tag and
/// key sealed under the key expanded from the seed (its last byte cut to two
/// bits).
pub fn generate_key_from(tag: &[u8], key: &[u8], nonce: &[u8], seed: &[u8]) -> (made: (Key, String))
    requires
        tag@.len() == TAG_LEN,
        key@.len() == KEY_LEN,
        nonce@.len() == NONCE_LEN,
        seed@.len() == SEED_LEN,
    ensures
        generated_from(tag@, key@, nonce@, seed@, made.0@, made.1@),
{
    let masked: [u8; 3] = [seed[0], seed[1], seed[2] & 3];
    assert(masked@ =~= spec_masked_seed(seed@));
    let puzzle_key = expand_key(masked);
    let mut plaintext = slice_to_vec(tag);
    let mut key_bytes = slice_to_vec(key);
    plaintext.append(&mut key_bytes);
    let mut sealed = aes128gcm_encrypt(puzzle_key.as_slice(), nonce, plaintext.as_slice());
    let ghost sealed_view = sealed@;
    let mut puzzle_bytes = slice_to_vec(nonce);
    puzzle_bytes.append(&mut sealed);
    let tag_text = base64_encode_bytes(tag);
    let key_text = base64_encode_bytes(key);
    let puzzle = base64_encode_bytes(puzzle_bytes.as_slice());
    assert(puzzle_bytes@ =~= nonce@ + spec_puzzle_sealed(tag@, key@, nonce@, seed@));
    proof {
        lemma_base64_encode_len(tag@);
        lemma_base64_encode_len(key@);
        lemma_base64_encode_len(puzzle_bytes@);
    }
    (Key::new(tag_text, key_text), puzzle)
}

/// Draws a random tag, key, nonce and seed, and makes the key and its puzzle
/// from them.
pub fn generate_key() -> (made: (Key, String))
    ensures
        is_generated(made.0@, made.1@),
{
    let tag = random_bytes(TAG_LEN);
    let key = random_bytes(KEY_LEN);
    let nonce = random_bytes(NONCE_LEN);
    let seed = random_bytes(SEED_LEN);
    let made = generate_key_from(tag.as_slice(), key.as_slice(), nonce.as_slice(), seed.as_slice());
    assert(generated_from(tag@, key@, nonce@, seed@, made.0@, made.1@));
    made
}

/// Generates the keys a user publishes: each is added to the key base, and
/// its puzzle, in order, is returned.
pub fn generate_keys(keybase: &mut Keybase) -> (puzzles: Vec<String>)
    ensures
        puzzles@.len() == NUM_KEYS,
        exists|keys: Seq<(Seq<char>, Seq<char>)>|
            {
                &&& keys.len() == NUM_KEYS
                &&& #[trigger] add_keys(old(keybase)@, keys) == final(keybase)@
                &&& forall|i: int| 0 <= i < NUM_KEYS ==> is_generated(keys[i], #[trigger] puzzles@[i]@)
            },
{
    let mut puzzles: Vec<String> = Vec::new();
    let ghost mut made: Seq<(Seq<char>, Seq<char>)> = Seq::empty();
    let mut i: usize = 0;
    while i < NUM_KEYS
        invariant
            i <= NUM_KEYS,
            made.len() == i,
            puzzles@.len() == i,
            add_keys(old(keybase)@, made) == keybase@,
            forall|j: int| 0 <= j < i ==> is_generated(made[j], #[trigger] puzzles@[j]@),
        decreases NUM_KEYS - i,
    {
        let (key, puzzle) = generate_key();
        let ghost before = made;
        proof {
            made = made.push(key@);
            assert(made.drop_last() =~= before);
        }
        keybase.add_key(key);
        puzzles.push(puzzle);
        i = i + 1;
    }
    assert(add_keys(old(keybase)@, made) == keybase@);
    puzzles
}

} // verus!
