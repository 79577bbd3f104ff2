//! Group keys and the table that finds the group of a row.
//!
//! Keys are compared and hashed in borrowed form, so that a row of a known group allocates
//! nothing; only the key of a new group is copied, its strings into one shared arena.

use crate::compression::dictionary::append_bytes;
use crate::text;
use std::hash::{BuildHasherDefault, Hash, Hasher};
use vstd::prelude::*;
use vstd::slice::slice_subrange;
use vstd::utf8::*;

verus! {

/// One component of a group key, as a mathematical value.
pub enum KeyPart {
    Null,
    Int(i64),
    Text(Seq<char>),
}

/// All group key strings, packed one after the other.
pub struct StringArena {
    buf: Vec<u8>,
}

/// The text that stands in an arena at `off`, `len` bytes long.
pub open spec fn arena_text(bytes: Seq<u8>, off: u32, len: u32) -> Seq<char> {
    text::text_or_empty(bytes.subrange(off as int, off + len))
}

impl View for StringArena {
    type V = Seq<u8>;

    closed spec fn view(&self) -> Seq<u8> {
        self.buf@
    }
}

impl StringArena {
    /// An arena without strings.
    pub fn new() -> (a: Self)
        ensures
            a@ == Seq::<u8>::empty(),
    {
        StringArena { buf: Vec::new() }
    }

    /// Appends a string; returns the low 32 bits of its offset and of its length in bytes.
    pub fn alloc_str(&mut self, s: &str) -> (r: (u32, u32))
        ensures
            final(self)@ == old(self)@ + encode_utf8(s@),
            r.0 == old(self)@.len() as u32,
            r.1 == encode_utf8(s@).len() as u32,
    {
        let off: usize = self.buf.len();
        let bytes = s.as_bytes();
        let len: usize = bytes.len();
        append_bytes(&mut self.buf, bytes);
        (off as u32, len as u32)
    }

    /// The string at `off`, `len` bytes long; empty where the bytes are not UTF-8.
    pub fn get(&self, off: u32, len: u32) -> (s: &str)
        requires
            off + len <= self@.len(),
        ensures
            s@ == arena_text(self@, off, len),
    {
        let end: usize = self.buf.len();
        let from: usize = off as usize;
        text::from_utf8_or_empty(
            slice_subrange(self.buf.as_slice(), from, from + len as usize),
        )
    }
}

/// A string that was put into an arena is read back as it was, whatever follows it.
pub proof fn law_arena_roundtrip(before: Seq<u8>, s: Seq<char>, after: Seq<u8>)
    requires
        before.len() + encode_utf8(s).len() <= u32::MAX,
    ensures
        arena_text(
            before + encode_utf8(s) + after,
            before.len() as u32,
            encode_utf8(s).len() as u32,
        ) == s,
{
    let all = before + encode_utf8(s) + after;
    let n = before.len() as int;
    assert(all.subrange(n, n + encode_utf8(s).len()) =~= encode_utf8(s));
    text::lemma_decode_unique(encode_utf8(s), s);
}

/// A group key component; a string is an offset and a length in an arena.
#[derive(Clone, Copy, PartialEq, Eq, Structural, Debug)]
pub enum GroupKeyVal {
    Null,
    Int(i64),
    Str(u32, u32),
}

/// Whether the strings that a component refers to lie in the arena.
pub open spec fn val_in(v: GroupKeyVal, arena: Seq<u8>) -> bool {
    v matches GroupKeyVal::Str(off, len) ==> off + len <= arena.len()
}

/// What a component stands for.
pub open spec fn val_part(v: GroupKeyVal, arena: Seq<u8>) -> KeyPart {
    match v {
        GroupKeyVal::Null => KeyPart::Null,
        GroupKeyVal::Int(i) => KeyPart::Int(i),
        GroupKeyVal::Str(off, len) => KeyPart::Text(arena_text(arena, off, len)),
    }
}

/// Whether all components lie in the arena.
pub open spec fn vals_in(vals: Seq<GroupKeyVal>, arena: Seq<u8>) -> bool {
    forall|i: int| 0 <= i < vals.len() ==> val_in(#[trigger] vals[i], arena)
}

/// What a key stands for.
pub open spec fn val_parts(vals: Seq<GroupKeyVal>, arena: Seq<u8>) -> Seq<KeyPart> {
    vals.map_values(|v: GroupKeyVal| val_part(v, arena))
}

/// An owned group key. A key of one component needs no allocation of its own.
pub enum GroupKey {
    Single(GroupKeyVal),
    Multi(Vec<GroupKeyVal>),
}

/// `std::slice::from_ref`: a slice of length one over the referenced value.
pub assume_specification<T>[ std::slice::from_ref::<T> ](s: &T) -> (r: &[T])
    ensures
        r@ == seq![*s],
;

impl View for GroupKey {
    type V = Seq<GroupKeyVal>;

    open spec fn view(&self) -> Seq<GroupKeyVal> {
        match self {
            GroupKey::Single(v) => seq![*v],
            GroupKey::Multi(v) => v@,
        }
    }
}

impl GroupKey {
    /// The components of the key.
    pub fn as_slice(&self) -> (r: &[GroupKeyVal])
        ensures
            r@ == self@,
    {
        match self {
            GroupKey::Single(v) => std::slice::from_ref(v),
            GroupKey::Multi(v) => v.as_slice(),
        }
    }
}

/// A group key component that borrows its string.
#[derive(Clone, Copy)]
pub enum GroupKeyRef<'a> {
    Null,
    Int(i64),
    Str(&'a str),
}

/// What a borrowed component stands for.
pub open spec fn ref_part(r: GroupKeyRef) -> KeyPart {
    match r {
        GroupKeyRef::Null => KeyPart::Null,
        GroupKeyRef::Int(i) => KeyPart::Int(i),
        GroupKeyRef::Str(s) => KeyPart::Text(s@),
    }
}

/// What a borrowed key stands for.
pub open spec fn ref_parts(key: Seq<GroupKeyRef>) -> Seq<KeyPart> {
    key.map_values(|r: GroupKeyRef| ref_part(r))
}

/// The bytes that the string of a component takes in an arena.
pub open spec fn part_bytes(p: KeyPart) -> nat {
    match p {
        KeyPart::Text(s) => encode_utf8(s).len(),
        _ => 0,
    }
}

/// The bytes that the strings of a key take in an arena.
pub open spec fn parts_bytes(parts: Seq<KeyPart>) -> nat
    decreases parts.len(),
{
    if parts.len() == 0 {
        0
    } else {
        parts_bytes(parts.drop_last()) + part_bytes(parts.last())
    }
}

/// The bytes that the strings of all keys take in an arena.
pub open spec fn keys_bytes(keys: Seq<Seq<KeyPart>>) -> nat
    decreases keys.len(),
{
    if keys.len() == 0 {
        0
    } else {
        keys_bytes(keys.drop_last()) + parts_bytes(keys.last())
    }
}

/// What lies in an arena stays there, with the same meaning, when the arena grows.
proof fn lemma_val_stable(v: GroupKeyVal, arena: Seq<u8>, grown: Seq<u8>)
    requires
        val_in(v, arena),
        arena.is_prefix_of(grown),
    ensures
        val_in(v, grown),
        val_part(v, grown) == val_part(v, arena),
{
    if let GroupKeyVal::Str(off, len) = v {
        assert(grown.subrange(off as int, off + len) =~= arena.subrange(off as int, off + len));
    }
}

/// The same for whole keys.
proof fn lemma_vals_stable(vals: Seq<GroupKeyVal>, arena: Seq<u8>, grown: Seq<u8>)
    requires
        vals_in(vals, arena),
        arena.is_prefix_of(grown),
    ensures
        vals_in(vals, grown),
        val_parts(vals, grown) == val_parts(vals, arena),
{
    assert forall|i: int| 0 <= i < vals.len() implies val_in(#[trigger] vals[i], grown) && val_part(
        vals[i],
        grown,
    ) == val_part(vals[i], arena) by {
        lemma_val_stable(vals[i], arena, grown);
    }
    assert(val_parts(vals, grown) =~= val_parts(vals, arena));
}

impl<'a> GroupKeyRef<'a> {
    /// The component for a string.
    pub fn from_str(s: &'a str) -> (r: Self)
        ensures
            ref_part(r) == KeyPart::Text(s@),
    {
        GroupKeyRef::Str(s)
    }

    /// Copies the component, its string into the arena.
    pub fn resolve(&self, arena: &mut StringArena) -> (v: GroupKeyVal)
        requires
            old(arena)@.len() + part_bytes(ref_part(*self)) <= u32::MAX,
        ensures
            final(arena)@.len() == old(arena)@.len() + part_bytes(ref_part(*self)),
            old(arena)@.is_prefix_of(final(arena)@),
            val_in(v, final(arena)@),
            val_part(v, final(arena)@) == ref_part(*self),
    {
        match self {
            GroupKeyRef::Null => GroupKeyVal::Null,
            GroupKeyRef::Int(v) => GroupKeyVal::Int(*v),
            GroupKeyRef::Str(s) => {
                let ghost before = arena@;
                let (off, len) = arena.alloc_str(s);
                proof {
                    law_arena_roundtrip(before, s@, Seq::empty());
                    assert(before + encode_utf8(s@) + Seq::<u8>::empty() =~= arena@);
                }
                GroupKeyVal::Str(off, len)
            },
        }
    }

    /// Whether an owned component stands for the same value.
    pub fn matches_owned(&self, owned: &GroupKeyVal, arena: &StringArena) -> (r: bool)
        requires
            val_in(*owned, arena@),
        ensures
            r == (ref_part(*self) == val_part(*owned, arena@)),
    {
        match (self, owned) {
            (GroupKeyRef::Null, GroupKeyVal::Null) => true,
            (GroupKeyRef::Int(a), GroupKeyVal::Int(b)) => *a == *b,
            (GroupKeyRef::Str(s), GroupKeyVal::Str(off, len)) => text::str_eq(
                s,
                arena.get(*off, *len),
            ),
            _ => false,
        }
    }
}

/// Whether a stored key stands for the same values as a borrowed one.
pub fn keys_match(stored: &GroupKey, probe: &[GroupKeyRef], arena: &StringArena) -> (r: bool)
    requires
        vals_in(stored@, arena@),
    ensures
        r == matching(*stored, probe@, arena@),
{
    let s = stored.as_slice();
    if s.len() != probe.len() {
        assert(val_parts(s@, arena@).len() != ref_parts(probe@).len());
        return false;
    }
    let mut i: usize = 0;
    while i < s.len()
        invariant
            i <= s@.len(),
            s@ == stored@,
            s@.len() == probe@.len(),
            vals_in(s@, arena@),
            forall|k: int| 0 <= k < i ==> val_part(s@[k], arena@) == ref_part(probe@[k]),
        decreases s@.len() - i,
    {
        if !probe[i].matches_owned(&s[i], arena) {
            assert(val_parts(s@, arena@)[i as int] != ref_parts(probe@)[i as int]);
            return false;
        }
        i = i + 1;
    }
    assert(val_parts(s@, arena@) =~= ref_parts(probe@));
    true
}

// ---------------------------------------------------------------------------
// Hashing
// ---------------------------------------------------------------------------

/// The state of an `ahash` hasher.
#[verifier::external_type_specification]
#[verifier::external_body]
pub struct ExAHasher(ahash::AHasher);

/// What a hasher was made with: its keys, and the variant of the algorithm.
pub uninterp spec fn hasher_seed(h: ahash::AHasher) -> Seq<u64>;

/// The values that a hasher has been given, in order.
pub uninterp spec fn hasher_fed(h: ahash::AHasher) -> Seq<Seq<int>>;

/// The hash that a hasher with this seed gives after these values.
pub uninterp spec fn ahash_digest(seed: Seq<u64>, fed: Seq<Seq<int>>) -> u64;

/// A byte, as a value given to a hasher.
pub open spec fn fed_u8(v: u8) -> Seq<int> {
    seq![8, v as int]
}

/// A signed 64-bit number, as a value given to a hasher.
pub open spec fn fed_i64(v: i64) -> Seq<int> {
    seq![64, v as int]
}

/// A text, as a value given to a hasher.
pub open spec fn fed_str(s: Seq<char>) -> Seq<int> {
    seq![0int] + s.map_values(|c: char| c as int)
}

/// `ahash::AHasher::default`: a hasher that has been given nothing. Its keys may be chosen once
/// per process, so nothing is claimed of them.
#[verifier::external_body]
fn new_hasher() -> (h: ahash::AHasher)
    ensures
        hasher_fed(h) == Seq::<Seq<int>>::empty(),
{
    ahash::AHasher::default()
}

/// `Clone` of `ahash::AHasher`: a hasher with the same seed that has been given the same
/// values.
#[verifier::external_body]
fn clone_hasher(h: &ahash::AHasher) -> (r: ahash::AHasher)
    ensures
        hasher_seed(r) == hasher_seed(*h),
        hasher_fed(r) == hasher_fed(*h),
{
    h.clone()
}

/// `Hash::hash` of a byte: gives the byte to the hasher.
#[verifier::external_body]
fn hash_u8(h: &mut ahash::AHasher, v: u8)
    ensures
        hasher_seed(*final(h)) == hasher_seed(*old(h)),
        hasher_fed(*final(h)) == hasher_fed(*old(h)).push(fed_u8(v)),
{
    v.hash(h)
}

/// `Hash::hash` of a signed 64-bit number: gives the number to the hasher.
#[verifier::external_body]
fn hash_i64(h: &mut ahash::AHasher, v: i64)
    ensures
        hasher_seed(*final(h)) == hasher_seed(*old(h)),
        hasher_fed(*final(h)) == hasher_fed(*old(h)).push(fed_i64(v)),
{
    v.hash(h)
}

/// `Hash::hash` of a text: gives the text to the hasher.
#[verifier::external_body]
fn hash_str(h: &mut ahash::AHasher, s: &str)
    ensures
        hasher_seed(*final(h)) == hasher_seed(*old(h)),
        hasher_fed(*final(h)) == hasher_fed(*old(h)).push(fed_str(s@)),
{
    s.hash(h)
}

/// `Hasher::finish` of `ahash::AHasher`: the hash is determined by the seed and by the values
/// given, in their order.
#[verifier::external_body]
fn finish_hasher(h: &ahash::AHasher) -> (r: u64)
    ensures
        r == ahash_digest(hasher_seed(*h), hasher_fed(*h)),
{
    h.finish()
}

/// What hashing a component gives to the hasher: a discriminant, then the value.
pub open spec fn part_fed(p: KeyPart) -> Seq<Seq<int>> {
    match p {
        KeyPart::Null => seq![fed_u8(0)],
        KeyPart::Int(v) => seq![fed_u8(1), fed_i64(v)],
        KeyPart::Text(s) => seq![fed_u8(2), fed_str(s)],
    }
}

/// What hashing a key gives to the hasher.
pub open spec fn parts_fed(parts: Seq<KeyPart>) -> Seq<Seq<int>>
    decreases parts.len(),
{
    if parts.len() == 0 {
        Seq::empty()
    } else {
        parts_fed(parts.drop_last()) + part_fed(parts.last())
    }
}

/// The hash of a key under a seed.
pub open spec fn key_hash(seed: Seq<u64>, parts: Seq<KeyPart>) -> u64 {
    ahash_digest(seed, parts_fed(parts))
}

/// The hash of a key by a copy of a hasher, whatever that was given before.
pub open spec fn hash_from(base: ahash::AHasher, parts: Seq<KeyPart>) -> u64 {
    ahash_digest(hasher_seed(base), hasher_fed(base) + parts_fed(parts))
}

/// The hash of an owned key under a seed.
pub open spec fn owned_hash(seed: Seq<u64>, key: GroupKey, arena: Seq<u8>) -> u64 {
    key_hash(seed, val_parts(key@, arena))
}

/// The hash of a borrowed key under a seed.
pub open spec fn borrowed_hash(seed: Seq<u64>, key: Seq<GroupKeyRef>) -> u64 {
    key_hash(seed, ref_parts(key))
}

/// Whether an owned key matches a borrowed one: they stand for the same values.
pub open spec fn matching(stored: GroupKey, probe: Seq<GroupKeyRef>, arena: Seq<u8>) -> bool {
    val_parts(stored@, arena) == ref_parts(probe)
}

/// Keys that match hash alike, however they are held, by any hasher and under any seed.
pub proof fn law_matching_keys_hash_alike(
    base: ahash::AHasher,
    seed: Seq<u64>,
    stored: GroupKey,
    probe: Seq<GroupKeyRef>,
    arena: Seq<u8>,
)
    requires
        matching(stored, probe, arena),
    ensures
        hash_from(base, val_parts(stored@, arena)) == hash_from(base, ref_parts(probe)),
        owned_hash(seed, stored, arena) == borrowed_hash(seed, probe),
{
}

/// A key that was copied into an arena matches what it was copied from, and they hash alike, also
/// after the arena has grown.
pub proof fn law_copied_keys_hash_alike(
    seed: Seq<u64>,
    stored: GroupKey,
    probe: Seq<GroupKeyRef>,
    arena: Seq<u8>,
    grown: Seq<u8>,
)
    requires
        vals_in(stored@, arena),
        matching(stored, probe, arena),
        arena.is_prefix_of(grown),
    ensures
        matching(stored, probe, grown),
        owned_hash(seed, stored, grown) == borrowed_hash(seed, probe),
{
    lemma_vals_stable(stored@, arena, grown);
}

/// Hashes a borrowed component with its discriminant.
fn hash_ref_component(h: &mut ahash::AHasher, val: &GroupKeyRef)
    ensures
        hasher_seed(*final(h)) == hasher_seed(*old(h)),
        hasher_fed(*final(h)) == hasher_fed(*old(h)) + part_fed(ref_part(*val)),
{
    match val {
        GroupKeyRef::Null => hash_u8(h, 0),
        GroupKeyRef::Int(v) => {
            hash_u8(h, 1);
            hash_i64(h, *v);
        },
        GroupKeyRef::Str(s) => {
            hash_u8(h, 2);
            hash_str(h, s);
        },
    }
    assert(hasher_fed(*h) =~= hasher_fed(*old(h)) + part_fed(ref_part(*val)));
}

/// The hash of a borrowed key, by a copy of a hasher.
pub fn hash_group_key_ref(base: &ahash::AHasher, key: &[GroupKeyRef]) -> (r: u64)
    ensures
        r == hash_from(*base, ref_parts(key@)),
        hasher_fed(*base) == Seq::<Seq<int>>::empty() ==> r == borrowed_hash(
            hasher_seed(*base),
            key@,
        ),
{
    let mut h = clone_hasher(base);
    let ghost parts = ref_parts(key@);
    let mut i: usize = 0;
    while i < key.len()
        invariant
            i <= key@.len(),
            parts == ref_parts(key@),
            hasher_seed(h) == hasher_seed(*base),
            hasher_fed(h) == hasher_fed(*base) + parts_fed(parts.take(i as int)),
        decreases key@.len() - i,
    {
        hash_ref_component(&mut h, &key[i]);
        proof {
            assert(parts.take(i + 1).drop_last() =~= parts.take(i as int));
            assert(parts.take(i + 1).last() == ref_part(key@[i as int]));
            assert(hasher_fed(h) =~= hasher_fed(*base) + parts_fed(parts.take(i + 1)));
        }
        i = i + 1;
    }
    assert(parts.take(key@.len() as int) =~= parts);
    assert(Seq::<Seq<int>>::empty() + parts_fed(parts) =~= parts_fed(parts));
    finish_hasher(&h)
}

/// Hashes an owned component with its discriminant.
fn hash_key_component(h: &mut ahash::AHasher, val: &GroupKeyVal, arena: &StringArena)
    requires
        val_in(*val, arena@),
    ensures
        hasher_seed(*final(h)) == hasher_seed(*old(h)),
        hasher_fed(*final(h)) == hasher_fed(*old(h)) + part_fed(val_part(*val, arena@)),
{
    match val {
        GroupKeyVal::Null => hash_u8(h, 0),
        GroupKeyVal::Int(v) => {
            hash_u8(h, 1);
            hash_i64(h, *v);
        },
        GroupKeyVal::Str(off, len) => {
            hash_u8(h, 2);
            hash_str(h, arena.get(*off, *len));
        },
    }
    assert(hasher_fed(*h) =~= hasher_fed(*old(h)) + part_fed(val_part(*val, arena@)));
}

/// The hash of an owned key, by a copy of a hasher. It is that of a borrowed key that stands
/// for the same values.
pub fn hash_group_key(base: &ahash::AHasher, key: &GroupKey, arena: &StringArena) -> (r: u64)
    requires
        vals_in(key@, arena@),
    ensures
        r == hash_from(*base, val_parts(key@, arena@)),
        hasher_fed(*base) == Seq::<Seq<int>>::empty() ==> r == owned_hash(
            hasher_seed(*base),
            *key,
            arena@,
        ),
{
    let vals = key.as_slice();
    let mut h = clone_hasher(base);
    let ghost parts = val_parts(key@, arena@);
    let mut i: usize = 0;
    while i < vals.len()
        invariant
            i <= vals@.len(),
            vals@ == key@,
            vals_in(key@, arena@),
            parts == val_parts(key@, arena@),
            hasher_seed(h) == hasher_seed(*base),
            hasher_fed(h) == hasher_fed(*base) + parts_fed(parts.take(i as int)),
        decreases vals@.len() - i,
    {
        hash_key_component(&mut h, &vals[i], arena);
        proof {
            assert(parts.take(i + 1).drop_last() =~= parts.take(i as int));
            assert(parts.take(i + 1).last() == val_part(key@[i as int], arena@));
            assert(hasher_fed(h) =~= hasher_fed(*base) + parts_fed(parts.take(i + 1)));
        }
        i = i + 1;
    }
    assert(parts.take(key@.len() as int) =~= parts);
    assert(Seq::<Seq<int>>::empty() + parts_fed(parts) =~= parts_fed(parts));
    finish_hasher(&h)
}

// ---------------------------------------------------------------------------
// The table
// ---------------------------------------------------------------------------

/// A `hashbrown` map of group numbers. Keys are hashed and compared through the number, so that
/// the map itself holds no strings.
#[verifier::external_body]
pub struct GroupIndex {
    map: hashbrown::HashMap<u32, (), BuildHasherDefault<ahash::AHasher>>,
}

/// The group numbers that an index holds, each with the hash that it was put in under.
pub uninterp spec fn index_entries(index: GroupIndex) -> Set<(u64, u32)>;

/// Whether every group number in an index is that of a key and stands under the hash of that key,
/// and every key lies in the arena.
pub open spec fn index_refers(
    entries: Set<(u64, u32)>,
    seed: Seq<u64>,
    keys: Seq<GroupKey>,
    arena: Seq<u8>,
) -> bool {
    &&& forall|e: (u64, u32)| #[trigger]
        entries.contains(e) ==> e.1 < keys.len() && e.0 == key_hash(
            seed,
            val_parts(keys[e.1 as int]@, arena),
        )
    &&& forall|i: int| 0 <= i < keys.len() ==> vals_in(#[trigger] keys[i]@, arena)
}

/// Whether the key of a group stands for the same values as a borrowed one.
fn entry_matches(
    group: &u32,
    keys: &Vec<GroupKey>,
    probe: &[GroupKeyRef],
    arena: &StringArena,
) -> (r: bool)
    requires
        *group < keys@.len(),
        vals_in(keys@[*group as int]@, arena@),
    ensures
        r == (val_parts(keys@[*group as int]@, arena@) == ref_parts(probe@)),
{
    keys_match(&keys[*group as usize], probe, arena)
}

/// The hash of the key of a group.
fn entry_hash(
    group: &u32,
    base: &ahash::AHasher,
    keys: &Vec<GroupKey>,
    arena: &StringArena,
) -> (r: u64)
    requires
        hasher_fed(*base) == Seq::<Seq<int>>::empty(),
        *group < keys@.len(),
        vals_in(keys@[*group as int]@, arena@),
    ensures
        r == owned_hash(hasher_seed(*base), keys@[*group as int], arena@),
{
    hash_group_key(base, &keys[*group as usize], arena)
}

impl GroupIndex {
    /// `hashbrown::HashMap::with_hasher`: an empty map.
    #[verifier::external_body]
    fn new() -> (r: Self)
        ensures
            index_entries(r) == Set::<(u64, u32)>::empty(),
    {
        GroupIndex { map: hashbrown::HashMap::with_hasher(BuildHasherDefault::default()) }
    }

    /// `hashbrown::HashMap::raw_entry` and `from_hash`: looks for a group whose key matches the
    /// borrowed one. A group that is found is in the map and matches; if none is found, no group
    /// under this hash does.
    #[verifier::external_body]
    fn find(
        &self,
        hash: u64,
        keys: &Vec<GroupKey>,
        probe: &[GroupKeyRef],
        arena: &StringArena,
    ) -> (r: Option<u32>)
        requires
            forall|e: (u64, u32)| #[trigger]
                index_entries(*self).contains(e) ==> e.1 < keys@.len() && vals_in(
                    keys@[e.1 as int]@,
                    arena@,
                ),
        ensures
            r matches Some(g) ==> {
                &&& exists|h: u64| #[trigger] index_entries(*self).contains((h, g))
                &&& val_parts(keys@[g as int]@, arena@) == ref_parts(probe@)
            },
            r is None ==> forall|i: u32| #[trigger]
                index_entries(*self).contains((hash, i)) ==> val_parts(keys@[i as int]@, arena@)
                    != ref_parts(probe@),
    {
        let found = self.map.raw_entry().from_hash(hash, |g| entry_matches(g, keys, probe, arena));
        found.map(|e| *e.0)
    }

    /// `hashbrown::HashMap::raw_entry_mut`, `from_hash` and `insert_with_hasher`: looks for a
    /// group whose key matches the borrowed one. If there is one, the map stays as it is and the
    /// number of a matching group is returned. Otherwise no group under this hash matches, and
    /// `fresh` is put in under the hash. Where the map grows, it moves each group by the hash of
    /// its key.
    #[verifier::external_body]
    fn find_or_insert(
        &mut self,
        hash: u64,
        fresh: u32,
        base: &ahash::AHasher,
        keys: &Vec<GroupKey>,
        probe: &[GroupKeyRef],
        arena: &StringArena,
    ) -> (r: u32)
        requires
            hasher_fed(*base) == Seq::<Seq<int>>::empty(),
            index_refers(index_entries(*old(self)), hasher_seed(*base), keys@, arena@),
            keys@.len() <= fresh,
        ensures
            r != fresh ==> {
                &&& index_entries(*final(self)) == index_entries(*old(self))
                &&& exists|h: u64| #[trigger] index_entries(*old(self)).contains((h, r))
                &&& val_parts(keys@[r as int]@, arena@) == ref_parts(probe@)
            },
            r == fresh ==> {
                &&& index_entries(*final(self)) == index_entries(*old(self)).insert((hash, fresh))
                &&& forall|i: u32| #[trigger]
                    index_entries(*old(self)).contains((hash, i)) ==> val_parts(
                        keys@[i as int]@,
                        arena@,
                    ) != ref_parts(probe@)
            },
    {
        match self.map.raw_entry_mut().from_hash(hash, |g| entry_matches(g, keys, probe, arena)) {
            hashbrown::hash_map::RawEntryMut::Occupied(e) => *e.key(),
            hashbrown::hash_map::RawEntryMut::Vacant(e) => {
                *e.insert_with_hasher(hash, fresh, (), |g| entry_hash(g, base, keys, arena)).0
            },
        }
    }
}

/// The groups seen so far, numbered in order of first occurrence.
pub struct GroupTable {
    hasher: ahash::AHasher,
    index: GroupIndex,
    keys: Vec<GroupKey>,
    arena: StringArena,
}

impl View for GroupTable {
    type V = Seq<Seq<KeyPart>>;

    closed spec fn view(&self) -> Seq<Seq<KeyPart>> {
        self.keys@.map_values(|k: GroupKey| val_parts(k@, self.arena@))
    }
}

impl GroupTable {
    /// The index holds every key once, under its hash, and no two keys are equal.
    pub closed spec fn wf(&self) -> bool {
        &&& hasher_fed(self.hasher) == Seq::<Seq<int>>::empty()
        &&& self.keys@.len() <= u32::MAX
        &&& index_refers(
            index_entries(self.index),
            hasher_seed(self.hasher),
            self.keys@,
            self.arena@,
        )
        &&& forall|i: u32|
            i < self.keys@.len() ==> #[trigger] index_entries(self.index).contains(
                (key_hash(hasher_seed(self.hasher), self@[i as int]), i),
            )
        &&& self@.no_duplicates()
        &&& self.arena@.len() == keys_bytes(self@)
    }

    /// No two groups have the same key, and the strings of all keys take as many bytes as the
    /// arena holds.
    pub proof fn lemma_keys_distinct(&self)
        requires
            self.wf(),
        ensures
            self@.no_duplicates(),
            self.arena_bytes().len() == keys_bytes(self@),
    {
    }

    /// A table without groups.
    pub fn new() -> (t: Self)
        ensures
            t.wf(),
            t@ == Seq::<Seq<KeyPart>>::empty(),
    {
        let t = GroupTable {
            hasher: new_hasher(),
            index: GroupIndex::new(),
            keys: Vec::new(),
            arena: StringArena::new(),
        };
        assert(t@ =~= Seq::<Seq<KeyPart>>::empty());
        t
    }

    /// The number of groups.
    pub fn len(&self) -> (n: usize)
        ensures
            n == self@.len(),
    {
        self.keys.len()
    }

    /// The components of the key of group `i`.
    pub fn key(&self, i: usize) -> (vals: &[GroupKeyVal])
        requires
            self.wf(),
            i < self@.len(),
        ensures
            vals_in(vals@, self.arena_bytes()),
            val_parts(vals@, self.arena_bytes()) == self@[i as int],
    {
        self.keys[i].as_slice()
    }

    /// What the arena of the table holds.
    pub closed spec fn arena_bytes(&self) -> Seq<u8> {
        self.arena@
    }

    /// The number of bytes that the strings of all keys take.
    pub fn text_bytes(&self) -> (n: usize)
        requires
            self.wf(),
        ensures
            n == keys_bytes(self@),
    {
        self.arena.buf.len()
    }

    /// The text of a string component.
    pub fn key_text(&self, off: u32, len: u32) -> (s: &str)
        requires
            off + len <= self.arena_bytes().len(),
        ensures
            s@ == arena_text(self.arena_bytes(), off, len),
    {
        self.arena.get(off, len)
    }

    /// Whether there is a group with this key.
    pub fn contains(&self, key: &[GroupKeyRef]) -> (r: bool)
        requires
            self.wf(),
        ensures
            r == self@.contains(ref_parts(key@)),
    {
        let ghost parts = ref_parts(key@);
        let ghost seed = hasher_seed(self.hasher);
        let hash: u64 = hash_group_key_ref(&self.hasher, key);
        match self.index.find(hash, &self.keys, key, &self.arena) {
            Some(g) => {
                assert(self@[g as int] == parts);
                true
            },
            None => {
                assert forall|i: int| 0 <= i < self@.len() implies self@[i] != parts by {
                    if self@[i] == parts {
                        assert(index_entries(self.index).contains(
                            (key_hash(seed, self@[i]), i as u32),
                        ));
                    }
                }
                false
            },
        }
    }

    /// The number of the group with this key; a new group is added where there is none.
    pub fn find_or_insert(&mut self, key: &[GroupKeyRef]) -> (r: usize)
        requires
            old(self).wf(),
            !old(self)@.contains(ref_parts(key@)) ==> old(self)@.len() < u32::MAX && keys_bytes(
                old(self)@,
            ) + parts_bytes(ref_parts(key@)) <= u32::MAX,
        ensures
            final(self).wf(),
            final(self)@ == if old(self)@.contains(ref_parts(key@)) {
                old(self)@
            } else {
                old(self)@.push(ref_parts(key@))
            },
            r < final(self)@.len(),
            final(self)@[r as int] == ref_parts(key@),
    {
        let ghost parts = ref_parts(key@);
        let ghost before = self@;
        let ghost seed = hasher_seed(self.hasher);
        let hash: u64 = hash_group_key_ref(&self.hasher, key);
        let fresh: u32 = self.keys.len() as u32;
        let group: u32 = self.index.find_or_insert(
            hash,
            fresh,
            &self.hasher,
            &self.keys,
            key,
            &self.arena,
        );
        if group != fresh {
            proof {
                assert(before[group as int] == parts);
            }
            return group as usize;
        }
        proof {
            assert forall|i: int| 0 <= i < before.len() implies before[i] != parts by {
                if before[i] == parts {
                    assert(index_entries(old(self).index).contains((key_hash(seed, before[i]), i as u32)));
                }
            }
        }
        let ghost entries = index_entries(self.index);
        let ghost old_arena = self.arena@;
        let ghost old_keys = self.keys@;
        let owned = resolve_key(key, &mut self.arena);
        self.keys.push(owned);
        proof {
            assert forall|i: int| 0 <= i < old_keys.len() implies vals_in(
                #[trigger] old_keys[i]@,
                self.arena@,
            ) && val_parts(old_keys[i]@, self.arena@) == before[i] by {
                lemma_vals_stable(old_keys[i]@, old_arena, self.arena@);
            }
            assert(self@ =~= before.push(parts));
            assert(self@.drop_last() =~= before);
            assert forall|i: int| 0 <= i < self.keys@.len() implies vals_in(
                #[trigger] self.keys@[i]@,
                self.arena@,
            ) by {
                if i < old_keys.len() {
                    assert(self.keys@[i] == old_keys[i]);
                }
            }
            assert forall|e: (u64, u32)| #[trigger] entries.contains(e) implies e.1
                < self.keys@.len() && e.0 == key_hash(
                seed,
                val_parts(self.keys@[e.1 as int]@, self.arena@),
            ) by {
                if e.1 < old_keys.len() {
                    assert(self.keys@[e.1 as int] == old_keys[e.1 as int]);
                    assert(index_entries(old(self).index).contains(e));
                }
            }
            assert forall|i: u32| i < self.keys@.len() implies #[trigger] entries.contains(
                (key_hash(seed, self@[i as int]), i),
            ) by {
                if i < old_keys.len() {
                    assert(self@[i as int] == before[i as int]);
                    assert(index_entries(old(self).index).contains((key_hash(seed, before[i as int]), i)));
                }
            }
        }
        fresh as usize
    }
}

/// Copies a borrowed key, its strings into the arena.
fn resolve_key(key: &[GroupKeyRef], arena: &mut StringArena) -> (owned: GroupKey)
    requires
        old(arena)@.len() + parts_bytes(ref_parts(key@)) <= u32::MAX,
    ensures
        final(arena)@.len() == old(arena)@.len() + parts_bytes(ref_parts(key@)),
        old(arena)@.is_prefix_of(final(arena)@),
        vals_in(owned@, final(arena)@),
        val_parts(owned@, final(arena)@) == ref_parts(key@),
{
    let ghost parts = ref_parts(key@);
    if key.len() == 1 {
        proof {
            assert(parts.drop_last() =~= Seq::<KeyPart>::empty());
            assert(parts_bytes(parts.drop_last()) == 0);
            assert(parts.last() == ref_part(key@[0]));
        }
        let v = key[0].resolve(arena);
        let owned = GroupKey::Single(v);
        assert(val_parts(owned@, arena@) =~= parts);
        return owned;
    }
    let ghost before = arena@;
    let mut vals: Vec<GroupKeyVal> = Vec::new();
    let mut i: usize = 0;
    assert(parts.take(0) =~= Seq::<KeyPart>::empty());
    while i < key.len()
        invariant
            i <= key@.len(),
            parts == ref_parts(key@),
            vals@.len() == i,
            before.len() + parts_bytes(parts) <= u32::MAX,
            arena@.len() == before.len() + parts_bytes(parts.take(i as int)),
            before.is_prefix_of(arena@),
            vals_in(vals@, arena@),
            val_parts(vals@, arena@) == parts.take(i as int),
        decreases key@.len() - i,
    {
        let ghost now = arena@;
        let ghost done = vals@;
        proof {
            assert(parts.take(i + 1).drop_last() =~= parts.take(i as int));
            assert(parts.take(i + 1).last() == ref_part(key@[i as int]));
            lemma_parts_bytes_mono(parts, (i + 1) as nat);
        }
        let v = key[i].resolve(arena);
        vals.push(v);
        proof {
            lemma_vals_stable(done, now, arena@);
            assert(val_parts(vals@, arena@) =~= parts.take(i + 1));
        }
        i = i + 1;
    }
    assert(parts.take(key@.len() as int) =~= parts);
    GroupKey::Multi(vals)
}

/// Fewer components take no more bytes.
pub proof fn lemma_parts_bytes_mono(parts: Seq<KeyPart>, k: nat)
    requires
        k <= parts.len(),
    ensures
        parts_bytes(parts.take(k as int)) <= parts_bytes(parts),
    decreases parts.len(),
{
    if k == parts.len() {
        assert(parts.take(k as int) =~= parts);
    } else {
        lemma_parts_bytes_mono(parts.drop_last(), k);
        assert(parts.drop_last().take(k as int) =~= parts.take(k as int));
    }
}

/// The components of keys are told apart by what they give to a hasher: different components give
/// different values.
pub proof fn law_components_hash_apart(a: KeyPart, b: KeyPart)
    requires
        part_fed(a) == part_fed(b),
    ensures
        a == b,
{
    let x = part_fed(a);
    let y = part_fed(b);
    assert(x[0][1] == y[0][1]);
    assert(x.len() == y.len());
    if x.len() == 2 {
        assert(x[1] == y[1]);
        if let KeyPart::Int(v) = a {
            assert(x[1][1] == v as int);
            assert(y[1][1] == y[1][1]);
        }
        if let KeyPart::Text(s) = a {
            if let KeyPart::Text(t) = b {
                assert(x[1] == fed_str(s) && y[1] == fed_str(t));
                assert(fed_str(s).len() == s.len() + 1 && fed_str(t).len() == t.len() + 1);
                assert forall|i: int| 0 <= i < s.len() implies s[i] == t[i] by {
                    assert(fed_str(s)[i + 1] == s[i] as int);
                    assert(fed_str(t)[i + 1] == t[i] as int);
                }
                assert(s =~= t);
            }
        }
    }
}

/// The texts of keys take as many bytes as their encodings; numbers and nulls take none.
pub proof fn law_key_bytes(
    keys: Seq<Seq<KeyPart>>,
    key: Seq<KeyPart>,
    part: KeyPart,
)
    ensures
        keys_bytes(Seq::empty()) == 0,
        keys_bytes(keys.push(key)) == keys_bytes(keys) + parts_bytes(key),
        parts_bytes(Seq::empty()) == 0,
        parts_bytes(key.push(part)) == parts_bytes(key) + match part {
            KeyPart::Text(s) => encode_utf8(s).len(),
            _ => 0,
        },
{
    assert(keys.push(key).drop_last() =~= keys);
    assert(key.push(part).drop_last() =~= key);
}

} // verus!
