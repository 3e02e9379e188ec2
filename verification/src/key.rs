//! A key (its Base64 tag and Base64 AES key) and the key base that maps
//! tags to keys.

use crate::primitives::{base64_decode, base64_encode, base64_encode_bytes, base64_char};
use vstd::prelude::*;

verus! {

/// A key: the Base64 tag that names it and the Base64 text of the AES key.
pub struct Key {
    tag: String,
    key: String,
}

impl View for Key {
    /// The tag's characters and the key's characters.
    type V = (Seq<char>, Seq<char>);

    closed spec fn view(&self) -> (Seq<char>, Seq<char>) {
        (self.tag@, self.key@)
    }
}

impl Key {
    /// A key with the given tag and key text.
    pub fn new(tag: String, key: String) -> (k: Key)
        ensures
            k@ == (tag@, key@),
    {
        Key { tag, key }
    }

    /// A copy of the key text.
    pub fn get_key(&self) -> (key: String)
        ensures
            key@ == self@.1,
    {
        self.key.clone()
    }

    /// A copy of the tag.
    pub fn get_tag(&self) -> (tag: String)
        ensures
            tag@ == self@.0,
    {
        self.tag.clone()
    }
}

/// The map from tags to keys that a list of entries describes, a later
/// entry for a tag standing over an earlier one.
pub open spec fn entries_map(entries: Seq<(Seq<char>, Seq<char>)>) -> Map<Seq<char>, Seq<char>>
    decreases entries.len(),
{
    if entries.len() == 0 {
        Map::empty()
    } else {
        entries_map(entries.drop_last()).insert(entries.last().0, entries.last().1)
    }
}

/// No tag occurs twice among the entries.
pub open spec fn tags_distinct(entries: Seq<(Seq<char>, Seq<char>)>) -> bool {
    forall|i: int, j: int|
        0 <= i < entries.len() && 0 <= j < entries.len() && i != j ==> #[trigger] entries[i].0
            != #[trigger] entries[j].0
}

/// A tag is in the map of a list of entries exactly when some entry has it.
proof fn lemma_entries_map_dom(entries: Seq<(Seq<char>, Seq<char>)>, tag: Seq<char>)
    ensures
        entries_map(entries).dom().contains(tag) <==> exists|i: int|
            0 <= i < entries.len() && #[trigger] entries[i].0 == tag,
    decreases entries.len(),
{
    if entries.len() > 0 {
        let prefix = entries.drop_last();
        lemma_entries_map_dom(prefix, tag);
        if entries_map(entries).dom().contains(tag) && tag != entries.last().0 {
            let i = choose|i: int| 0 <= i < prefix.len() && #[trigger] prefix[i].0 == tag;
            assert(entries[i].0 == tag);
        }
        if exists|i: int| 0 <= i < entries.len() && #[trigger] entries[i].0 == tag {
            let i = choose|i: int| 0 <= i < entries.len() && #[trigger] entries[i].0 == tag;
            if i < prefix.len() {
                assert(prefix[i].0 == tag);
            }
        }
    }
}

/// The map of a list of entries has finitely many tags.
proof fn lemma_entries_map_finite(entries: Seq<(Seq<char>, Seq<char>)>)
    ensures
        entries_map(entries).dom().finite(),
    decreases entries.len(),
{
    if entries.len() > 0 {
        lemma_entries_map_finite(entries.drop_last());
    }
}

/// With distinct tags, the map gives each entry's key for its tag.
proof fn lemma_entries_map_value(entries: Seq<(Seq<char>, Seq<char>)>, i: int)
    requires
        tags_distinct(entries),
        0 <= i < entries.len(),
    ensures
        entries_map(entries).dom().contains(entries[i].0),
        entries_map(entries)[entries[i].0] == entries[i].1,
    decreases entries.len(),
{
    let prefix = entries.drop_last();
    if i < entries.len() - 1 {
        assert(tags_distinct(prefix)) by {
            assert forall|a: int, b: int|
                0 <= a < prefix.len() && 0 <= b < prefix.len() && a != b implies #[trigger] prefix[a].0
                != #[trigger] prefix[b].0 by {
                assert(entries[a].0 != entries[b].0);
            }
        }
        lemma_entries_map_value(prefix, i);
        assert(entries[i].0 != entries[entries.len() - 1].0);
    }
}

/// Replacing the key of an entry whose tag is distinct from all others
/// changes the map at that tag alone.
proof fn lemma_entries_map_update(
    entries: Seq<(Seq<char>, Seq<char>)>,
    i: int,
    key: Seq<char>,
)
    requires
        tags_distinct(entries),
        0 <= i < entries.len(),
    ensures
        entries_map(entries.update(i, (entries[i].0, key))) =~= entries_map(entries).insert(
            entries[i].0,
            key,
        ),
    decreases entries.len(),
{
    let tag = entries[i].0;
    let updated = entries.update(i, (tag, key));
    let prefix = entries.drop_last();
    if i == entries.len() - 1 {
        assert(updated.drop_last() =~= prefix);
    } else {
        assert(updated.drop_last() =~= prefix.update(i, (tag, key)));
        assert(tags_distinct(prefix)) by {
            assert forall|a: int, b: int|
                0 <= a < prefix.len() && 0 <= b < prefix.len() && a != b implies #[trigger] prefix[a].0
                != #[trigger] prefix[b].0 by {
                assert(entries[a].0 != entries[b].0);
            }
        }
        lemma_entries_map_update(prefix, i, key);
        assert(entries[i].0 != entries[entries.len() - 1].0);
    }
}

/// The key base: tags mapped to keys, as a list of keys whose tags are
/// pairwise distinct.
pub struct Keybase {
    keys: Vec<Key>,
}

impl Keybase {
    /// The tag and key of every entry, in order.
    pub closed spec fn entries(&self) -> Seq<(Seq<char>, Seq<char>)> {
        self.keys@.map_values(|k: Key| k@)
    }

    /// The invariant of every key base: no tag occurs twice.
    #[verifier::type_invariant]
    closed spec fn wf(&self) -> bool {
        tags_distinct(self.entries())
    }

    /// The map from tags to keys.
    pub closed spec fn spec_map(&self) -> Map<Seq<char>, Seq<char>> {
        entries_map(self.entries())
    }
}

impl View for Keybase {
    type V = Map<Seq<char>, Seq<char>>;

    open spec fn view(&self) -> Map<Seq<char>, Seq<char>> {
        self.spec_map()
    }
}

/// The key base after a key is added: its tag now maps to its key text.
pub open spec fn spec_add_key(base: Map<Seq<char>, Seq<char>>, key: (Seq<char>, Seq<char>)) -> Map<
    Seq<char>,
    Seq<char>,
> {
    base.insert(key.0, key.1)
}

/// What a look-up of `tag` gives: the key with that tag, if the base has one.
pub open spec fn spec_lookup(base: Map<Seq<char>, Seq<char>>, tag: Seq<char>) -> Option<
    (Seq<char>, Seq<char>),
> {
    if base.dom().contains(tag) {
        Some((tag, base[tag]))
    } else {
        None
    }
}

/// The key view of an optional key.
pub open spec fn opt_key_view(k: Option<Key>) -> Option<(Seq<char>, Seq<char>)> {
    match k {
        Some(k) => Some(k@),
        None => None,
    }
}

impl Keybase {
    /// An empty key base.
    pub fn new() -> (base: Keybase)
        ensures
            base@ == Map::<Seq<char>, Seq<char>>::empty(),
            base@.dom().finite(),
    {
        let base = Keybase { keys: Vec::new() };
        assert(base.entries() =~= Seq::<(Seq<char>, Seq<char>)>::empty());
        base
    }

    /// Adds a key: its tag maps to its key text from now on, replacing any
    /// key the tag had before.
    pub fn add_key(&mut self, k: Key)
        ensures
            final(self)@ == spec_add_key(old(self)@, k@),
            final(self)@.dom().finite(),
            final(self)@.len() == old(self)@.len() + if old(self)@.dom().contains(k@.0) {
                0int
            } else {
                1int
            },
    {
        proof {
            use_type_invariant(&*self);
            lemma_entries_map_finite(self.entries());
        }
        let ghost before = self.entries();
        assert(old(self)@ == entries_map(before));
        let mut keys: Vec<Key> = Vec::new();
        std::mem::swap(&mut keys, &mut self.keys);
        assert(keys@.map_values(|k: Key| k@) == before);
        let len = keys.len();
        let mut i: usize = 0;
        while i < len
            invariant
                len == keys@.len(),
                i <= len,
                keys@.map_values(|k: Key| k@) == before,
                old(self)@ == entries_map(before),
                entries_map(before).dom().finite(),
                tags_distinct(before),
                forall|j: int| 0 <= j < i ==> #[trigger] before[j].0 != k@.0,
            decreases len - i,
        {
            if keys[i].tag == k.tag {
                let ghost idx = i as int;
                proof {
                    assert(before[idx] == keys@[idx]@);
                    assert(before[idx].0 == k@.0);
                    lemma_entries_map_update(before, idx, k@.1);
                    lemma_entries_map_value(before, idx);
                }
                keys.set(i, k);
                let ghost after = keys@.map_values(|k: Key| k@);
                assert(after =~= before.update(idx, (before[idx].0, k@.1)));
                assert(tags_distinct(after)) by {
                    assert forall|a: int, b: int|
                        0 <= a < after.len() && 0 <= b < after.len() && a != b implies #[trigger] after[a].0
                        != #[trigger] after[b].0 by {
                        assert(before[a].0 != before[b].0);
                    }
                }
                self.keys = keys;
                assert(self.entries() == after);
                assert(self@ == entries_map(before).insert(k@.0, k@.1));
                assert(self@.dom() =~= old(self)@.dom());
                return;
            }
            i = i + 1;
        }
        proof {
            lemma_entries_map_dom(before, k@.0);
        }
        keys.push(k);
        let ghost after = keys@.map_values(|k: Key| k@);
        assert(after =~= before.push(k@));
        assert(after.drop_last() =~= before);
        assert(tags_distinct(after)) by {
            assert forall|a: int, b: int|
                0 <= a < after.len() && 0 <= b < after.len() && a != b implies #[trigger] after[a].0
                != #[trigger] after[b].0 by {
                if a < before.len() && b < before.len() {
                    assert(before[a].0 != before[b].0);
                } else if a < before.len() {
                    assert(before[a].0 != k@.0);
                } else {
                    assert(before[b].0 != k@.0);
                }
            }
        }
        self.keys = keys;
        assert(self.entries() == after);
    }

    /// A copy of every key in the base, no tag twice, in the order they were
    /// first added.
    pub fn keys(&self) -> (keys: Vec<Key>)
        ensures
            keys@.map_values(|k: Key| k@) == self.entries(),
            tags_distinct(keys@.map_values(|k: Key| k@)),
            entries_map(keys@.map_values(|k: Key| k@)) == self@,
    {
        proof {
            use_type_invariant(self);
        }
        let mut keys: Vec<Key> = Vec::new();
        let len = self.keys.len();
        let mut i: usize = 0;
        while i < len
            invariant
                len == self.keys@.len(),
                i <= len,
                keys@.len() == i,
                forall|j: int| 0 <= j < i ==> #[trigger] keys@[j]@ == self.keys@[j]@,
            decreases len - i,
        {
            let k = Key::new(self.keys[i].get_tag(), self.keys[i].get_key());
            keys.push(k);
            i = i + 1;
        }
        assert(keys@.map_values(|k: Key| k@) =~= self.entries());
        keys
    }

    /// The key with the given tag, if the base has one.
    pub fn get_key(&self, tag: &String) -> (found: Option<Key>)
        ensures
            opt_key_view(found) == spec_lookup(self@, tag@),
    {
        proof {
            use_type_invariant(self);
        }
        let len = self.keys.len();
        let mut i: usize = 0;
        while i < len
            invariant
                len == self.keys@.len(),
                i <= len,
                tags_distinct(self.entries()),
                forall|j: int| 0 <= j < i ==> #[trigger] self.entries()[j].0 != tag@,
            decreases len - i,
        {
            if self.keys[i].tag == *tag {
                proof {
                    assert(self.entries()[i as int] == self.keys@[i as int]@);
                    lemma_entries_map_value(self.entries(), i as int);
                }
                return Some(Key { key: self.keys[i].key.clone(), tag: tag.clone() });
            }
            i = i + 1;
        }
        proof {
            lemma_entries_map_dom(self.entries(), tag@);
        }
        None
    }
}

/// Twelve zero bytes: the tag of the key that fake messages use.
pub open spec fn zero_tag() -> Seq<u8> {
    Seq::new(12, |i: int| 0u8)
}

/// Sixteen zero bytes: the AES key that fake messages use.
pub open spec fn zero_key() -> Seq<u8> {
    Seq::new(16, |i: int| 0u8)
}

/// The key base maps `AAAAAAAAAAAAAAAA`, the Base64 text of the zero tag,
/// to a Base64 text of the zero key.
pub open spec fn holds_zero_key(base: Map<Seq<char>, Seq<char>>) -> bool {
    &&& base.dom().contains("AAAAAAAAAAAAAAAA"@)
    &&& base64_decode(base["AAAAAAAAAAAAAAAA"@]) == Some(zero_key())
}

/// The Base64 text of `n` zero bytes: `A` for every six zero bits, and the
/// padding of a last group of one or two bytes.
pub proof fn lemma_base64_zeros(n: nat)
    ensures
        base64_encode(Seq::new(n, |i: int| 0u8)) == Seq::new(4 * (n / 3), |i: int| 'A') + if n
            % 3 == 0 {
            Seq::<char>::empty()
        } else if n % 3 == 1 {
            seq!['A', 'A', '=', '=']
        } else {
            seq!['A', 'A', 'A', '=']
        },
    decreases n,
{
    let zeros = Seq::new(n, |i: int| 0u8);
    assert(base64_char(0) == 'A');
    if n >= 3 {
        let rest = (n - 3) as nat;
        assert(zeros.skip(3) =~= Seq::new(rest, |i: int| 0u8));
        lemma_base64_zeros(rest);
        assert(4 * (n / 3) == 4 + 4 * (rest / 3));
        let tail = if n % 3 == 0 {
            Seq::<char>::empty()
        } else if n % 3 == 1 {
            seq!['A', 'A', '=', '=']
        } else {
            seq!['A', 'A', 'A', '=']
        };
        assert(seq![base64_char(0), base64_char(0), base64_char(0), base64_char(0)] + (Seq::new(
            4 * (rest / 3),
            |i: int| 'A',
        ) + tail) =~= Seq::new(4 * (n / 3), |i: int| 'A') + tail);
    } else if n == 0 {
        assert(base64_encode(zeros) =~= Seq::new(0, |i: int| 'A') + Seq::<char>::empty());
    } else if n == 1 {
        assert(base64_encode(zeros) =~= Seq::new(0, |i: int| 'A') + seq!['A', 'A', '=', '=']);
    } else {
        assert(base64_encode(zeros) =~= Seq::new(0, |i: int| 'A') + seq!['A', 'A', 'A', '=']);
    }
}

/// The Base64 texts of the zero tag and the zero key.
pub proof fn lemma_zero_key_texts()
    ensures
        base64_encode(zero_tag()) == "AAAAAAAAAAAAAAAA"@,
        base64_encode(zero_key()) == "AAAAAAAAAAAAAAAAAAAAAA=="@,
{
    reveal_strlit("AAAAAAAAAAAAAAAA");
    reveal_strlit("AAAAAAAAAAAAAAAAAAAAAA==");
    lemma_base64_zeros(12);
    lemma_base64_zeros(16);
    assert(Seq::new(16, |i: int| 'A') + Seq::<char>::empty() =~= "AAAAAAAAAAAAAAAA"@);
    assert(Seq::new(20, |i: int| 'A') + seq!['A', 'A', '=', '='] =~= "AAAAAAAAAAAAAAAAAAAAAA=="@);
}

/// The key base of a user who has no keys yet: it holds the all-zero key
/// (tag `AAAAAAAAAAAAAAAA`, the Base64 of twelve zero bytes; key
/// `AAAAAAAAAAAAAAAAAAAAAA==`, the Base64 of sixteen zero bytes) that fake
/// messages are encrypted with. The texts are made by encoding the zero
/// bytes, which also shows what they decode to.
pub fn initial_keybase() -> (base: Keybase)
    ensures
        base@ == spec_add_key(
            Map::empty(),
            ("AAAAAAAAAAAAAAAA"@, "AAAAAAAAAAAAAAAAAAAAAA=="@),
        ),
        holds_zero_key(base@),
        base64_decode("AAAAAAAAAAAAAAAA"@) == Some(zero_tag()),
        base64_decode("AAAAAAAAAAAAAAAAAAAAAA=="@) == Some(zero_key()),
{
    let tag = vec![0u8; 12];
    let key = vec![0u8; 16];
    assert(tag@ =~= zero_tag());
    assert(key@ =~= zero_key());
    proof {
        lemma_zero_key_texts();
    }
    let mut base = Keybase::new();
    base.add_key(Key::new(base64_encode_bytes(tag.as_slice()), base64_encode_bytes(key.as_slice())));
    base
}

/// After a key is added, looking up its tag gives that key.
pub proof fn lemma_lookup_after_add(base: Map<Seq<char>, Seq<char>>, key: (Seq<char>, Seq<char>))
    ensures
        spec_lookup(spec_add_key(base, key), key.0) == Some(key),
{
}

/// Adding a key leaves the look-up of every other tag as it was.
pub proof fn lemma_lookup_other_after_add(
    base: Map<Seq<char>, Seq<char>>,
    key: (Seq<char>, Seq<char>),
    tag: Seq<char>,
)
    requires
        tag != key.0,
    ensures
        spec_lookup(spec_add_key(base, key), tag) == spec_lookup(base, tag),
{
}

/// Adding the same key twice leaves the key base as adding it once.
pub proof fn lemma_add_twice(base: Map<Seq<char>, Seq<char>>, key: (Seq<char>, Seq<char>))
    ensures
        spec_add_key(spec_add_key(base, key), key) == spec_add_key(base, key),
{
    assert(spec_add_key(spec_add_key(base, key), key) =~= spec_add_key(base, key));
}

/// A key added later for the same tag replaces the earlier one.
pub proof fn lemma_add_replaces(
    base: Map<Seq<char>, Seq<char>>,
    first: (Seq<char>, Seq<char>),
    second: (Seq<char>, Seq<char>),
)
    requires
        first.0 == second.0,
    ensures
        spec_add_key(spec_add_key(base, first), second) == spec_add_key(base, second),
{
    assert(spec_add_key(spec_add_key(base, first), second) =~= spec_add_key(base, second));
}

} // verus!
