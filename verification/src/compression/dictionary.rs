//! Dictionary encoding for low-cardinality text columns.
//!
//! The encoded form holds the distinct strings once, in order of first occurrence,
//! followed by one index per value:
//!
//! - 4 bytes: number of dictionary entries (little-endian);
//! - per entry: 4 bytes of length (little-endian), then the UTF-8 bytes;
//! - per value: the index of its entry as a variable-length integer of 7-bit groups,
//!   least significant first, with the high bit set on every byte but the last.

use crate::text;
use vstd::hash_map::StringHashMap;
use vstd::hash_set::StringHashSet;
use vstd::prelude::*;
use vstd::slice::slice_subrange;
use vstd::utf8::*;

verus! {

/// Largest number of distinct strings that a dictionary is used for.
pub const MAX_DISTINCT: usize = 65535;

/// 2^32, the number of values of a 32-bit field.
pub const TWO_32: u64 = 0x1_0000_0000;

// ---------------------------------------------------------------------------
// Variable-length integers
// ---------------------------------------------------------------------------

/// The encoding of `v` in 7-bit groups, least significant first.
pub open spec fn varint(v: nat) -> Seq<u8>
    decreases v,
{
    if v < 128 {
        seq![v as u8]
    } else {
        seq![(v % 128 + 128) as u8] + varint(v / 128)
    }
}

/// How many bytes a variable-length integer at the start of `buf` takes: all up to the
/// first one with a clear high bit, or all there are.
pub open spec fn varint_len(buf: Seq<u8>) -> nat
    decreases buf.len(),
{
    if buf.len() == 0 {
        0
    } else if buf[0] < 128 {
        1
    } else {
        1 + varint_len(buf.drop_first())
    }
}

/// 128 to the power `n`.
pub open spec fn place(n: nat) -> nat
    decreases n,
{
    if n == 0 {
        1
    } else {
        128 * place((n - 1) as nat)
    }
}

/// The number whose 7-bit groups are the low bits of `bytes`, least significant first.
pub open spec fn varint_value(bytes: Seq<u8>) -> nat
    decreases bytes.len(),
{
    if bytes.len() == 0 {
        0
    } else {
        varint_value(bytes.drop_last()) + (bytes.last() % 128) as nat * place(
            (bytes.len() - 1) as nat,
        )
    }
}

/// Appends the variable-length encoding of `v`.
pub fn write_varint(buf: &mut Vec<u8>, v: u32)
    ensures
        final(buf)@ == old(buf)@ + varint(v as nat),
{
    let mut v: u32 = v;
    let ghost start = buf@;
    let ghost whole = v as nat;
    loop
        invariant_except_break
            start + varint(whole) == buf@ + varint(v as nat),
        ensures
            buf@ == start + varint(whole),
        decreases v,
    {
        let byte: u8 = (v & 0x7F) as u8;
        let rest: u32 = v >> 7;
        assert((v & 0x7F) < 128 && (v & 0x7F) == v % 128 && rest == v / 128) by (bit_vector)
            requires
                rest == v >> 7,
        ;
        if rest == 0 {
            buf.push(byte);
            assert(buf@ =~= start + varint(whole));
            break;
        }
        assert((byte | 0x80u8) == byte + 128) by (bit_vector)
            requires
                byte < 128,
        ;
        let ghost before = buf@;
        buf.push(byte | 0x80);
        assert(buf@ + varint(rest as nat) =~= before + varint(v as nat));
        v = rest;
    }
}

/// A prefix of `n` groups stays below `128^n`.
proof fn lemma_varint_value_bound(bytes: Seq<u8>)
    ensures
        varint_value(bytes) < place(bytes.len()),
        place(bytes.len()) >= 1,
    decreases bytes.len(),
{
    if bytes.len() > 0 {
        lemma_varint_value_bound(bytes.drop_last());
        let p = place((bytes.len() - 1) as nat);
        let d = (bytes.last() % 128) as nat;
        assert(d * p <= 127 * p) by (nonlinear_arith)
            requires
                d <= 127,
        ;
    }
}

/// While fewer than `varint_len(buf)` bytes have been read, every one of them had its
/// high bit set; the first one without it is the last.
proof fn lemma_varint_len_step(buf: Seq<u8>, i: nat)
    requires
        i < buf.len(),
        forall|k: int| 0 <= k < i ==> buf[k] >= 128,
    ensures
        varint_len(buf) > i,
        buf[i as int] < 128 ==> varint_len(buf) == i + 1,
    decreases i,
{
    if i > 0 {
        let rest = buf.drop_first();
        assert forall|k: int| 0 <= k < i - 1 implies rest[k] >= 128 by {
            assert(rest[k] == buf[k + 1]);
        }
        assert(buf[0] >= 128);
        lemma_varint_len_step(rest, (i - 1) as nat);
    }
}

/// Bytes that all have the high bit set are all part of the integer.
proof fn lemma_varint_len_all(buf: Seq<u8>)
    requires
        forall|k: int| 0 <= k < buf.len() ==> buf[k] >= 128,
    ensures
        varint_len(buf) == buf.len(),
    decreases buf.len(),
{
    if buf.len() > 0 {
        let rest = buf.drop_first();
        assert forall|k: int| 0 <= k < rest.len() implies rest[k] >= 128 by {
            assert(rest[k] == buf[k + 1]);
        }
        lemma_varint_len_all(rest);
    }
}

/// Reads the variable-length integer at the start of `buf`: its value, of which a fifth
/// byte contributes the lowest four bits only, and the number of bytes read.
pub fn read_varint(buf: &[u8]) -> (r: (u32, usize))
    requires
        varint_len(buf@) <= 5,
    ensures
        r.1 == varint_len(buf@),
        r.1 <= buf@.len(),
        r.0 == varint_value(buf@.take(varint_len(buf@) as int)) % (TWO_32 as nat),
{
    let mut result: u32 = 0;
    let mut shift: u32 = 0;
    let mut i: usize = 0;
    while i < buf.len()
        invariant
            i <= buf@.len(),
            varint_len(buf@) <= 5,
            shift == 7 * i,
            i <= 5,
            forall|k: int| 0 <= k < i ==> buf@[k] >= 128,
            result == varint_value(buf@.take(i as int)) % (TWO_32 as nat),
        decreases buf@.len() - i,
    {
        proof {
            lemma_varint_len_step(buf@, i as nat);
        }
        let byte: u8 = buf[i];
        let group: u32 = (byte & 0x7F) as u32;
        let ghost before = result;
        result = result | (group << shift);
        proof {
            lemma_group_added(buf@.take(i as int), byte, before, group, shift);
            assert(buf@.take(i + 1).drop_last() =~= buf@.take(i as int));
            assert(buf@.take(i + 1).last() == byte);
            assert(result == varint_value(buf@.take(i + 1)) % (TWO_32 as nat));
            assert(byte & 0x80 == 0 <==> byte < 128) by (bit_vector);
        }
        if byte & 0x80 == 0 {
            return (result, i + 1);
        }
        shift = shift + 7;
        i = i + 1;
    }
    proof {
        lemma_varint_len_all(buf@);
    }
    (result, buf.len())
}

/// Setting the next group in `before` adds it at its place.
proof fn lemma_group_added(read: Seq<u8>, byte: u8, before: u32, group: u32, shift: u32)
    requires
        read.len() < 5,
        shift == 7 * read.len(),
        group == (byte & 0x7F) as u32,
        before == varint_value(read) % (TWO_32 as nat),
    ensures
        (before | (group << shift)) == (varint_value(read) + (byte % 128) as nat * place(
            read.len(),
        )) % (TWO_32 as nat),
{
    lemma_varint_value_bound(read);
    reveal_with_fuel(place, 6);
    assert(place(0) == 1 && place(1) == 128 && place(2) == 16384 && place(3) == 2097152 && place(4)
        == 268435456);
    assert((byte & 0x7F) == byte % 128) by (bit_vector);
    assert(group < 128);
    assert(before == varint_value(read));
    let power: u64 = place(read.len()) as u64;
    assert((before | (group << shift)) as u64 == ((before as u64) + (group as u64) * power) % 0x1_0000_0000)
        by (bit_vector)
        requires
            group < 128,
            before < power,
            (shift == 0 && power == 1) || (shift == 7 && power == 128) || (shift == 14 && power
                == 16384) || (shift == 21 && power == 2097152) || (shift == 28 && power
                == 268435456),
    ;
}

// ---------------------------------------------------------------------------
// Fixed-width integers
// ---------------------------------------------------------------------------

/// The low 32 bits of `n`, least significant byte first.
pub open spec fn le32(n: nat) -> Seq<u8> {
    seq![
        (n % 256) as u8,
        (n / 256 % 256) as u8,
        (n / 65536 % 256) as u8,
        (n / 16777216 % 256) as u8,
    ]
}

/// The number that the four bytes at `at` hold, least significant first.
pub open spec fn le32_at(data: Seq<u8>, at: int) -> nat {
    (data[at] + 256 * data[at + 1] + 65536 * data[at + 2] + 16777216 * data[at + 3]) as nat
}

/// Appends the low 32 bits of `n`, least significant byte first.
fn write_le32(buf: &mut Vec<u8>, n: usize)
    ensures
        final(buf)@ == old(buf)@ + le32(n as nat),
{
    let ghost start = buf@;
    buf.push((n % 256) as u8);
    buf.push((n / 256 % 256) as u8);
    buf.push((n / 65536 % 256) as u8);
    buf.push((n / 16777216 % 256) as u8);
    assert(buf@ =~= start + le32(n as nat));
}

/// Reads the four bytes at `at`, least significant first.
fn read_le32(data: &[u8], at: usize) -> (n: u32)
    requires
        at + 4 <= data@.len(),
    ensures
        n == le32_at(data@, at as int),
{
    let len: usize = data.len();
    assert(data@.len() == len);
    (data[at] as u32) + 256 * (data[at + 1] as u32) + 65536 * (data[at + 2] as u32) + 16777216 * (
    data[at + 3] as u32)
}

/// Writing a number below 2^32 and reading it gives it back.
proof fn lemma_le32_roundtrip(data: Seq<u8>, at: int, n: nat)
    requires
        0 <= at,
        at + 4 <= data.len(),
        data.subrange(at, at + 4) == le32(n),
        n < TWO_32,
    ensures
        le32_at(data, at) == n,
{
    let s = data.subrange(at, at + 4);
    assert(s[0] == data[at] && s[1] == data[at + 1] && s[2] == data[at + 2] && s[3] == data[at
        + 3]);
    assert(n % 256 + 256 * (n / 256 % 256) + 65536 * (n / 65536 % 256) + 16777216 * (n / 16777216
        % 256) == n);
}

// ---------------------------------------------------------------------------
// Encoding
// ---------------------------------------------------------------------------

/// The texts of a sequence of string slices.
pub open spec fn texts(values: Seq<&str>) -> Seq<Seq<char>> {
    values.map_values(|v: &str| v@)
}

/// The distinct values, in order of first occurrence.
pub open spec fn first_occurrences(values: Seq<Seq<char>>) -> Seq<Seq<char>>
    decreases values.len(),
{
    if values.len() == 0 {
        Seq::empty()
    } else {
        let earlier = first_occurrences(values.drop_last());
        if earlier.contains(values.last()) {
            earlier
        } else {
            earlier.push(values.last())
        }
    }
}

/// One dictionary entry: the length of its UTF-8 form, then that form.
pub open spec fn entry_bytes(text: Seq<char>) -> Seq<u8> {
    le32(encode_utf8(text).len()) + encode_utf8(text)
}

/// All dictionary entries, one after the other.
pub open spec fn entries_bytes(dict: Seq<Seq<char>>) -> Seq<u8>
    decreases dict.len(),
{
    if dict.len() == 0 {
        Seq::empty()
    } else {
        entries_bytes(dict.drop_last()) + entry_bytes(dict.last())
    }
}

/// The index of `value` in the dictionary, as a 32-bit field holds it.
pub open spec fn index_field(dict: Seq<Seq<char>>, value: Seq<char>) -> nat {
    (dict.index_of(value) % (TWO_32 as int)) as nat
}

/// The index of every value, one after the other.
pub open spec fn indices_bytes(dict: Seq<Seq<char>>, values: Seq<Seq<char>>) -> Seq<u8>
    decreases values.len(),
{
    if values.len() == 0 {
        Seq::empty()
    } else {
        indices_bytes(dict, values.drop_last()) + varint(index_field(dict, values.last()))
    }
}

/// The encoded form of a column.
pub open spec fn encoded(values: Seq<Seq<char>>) -> Seq<u8> {
    let dict = first_occurrences(values);
    le32(dict.len()) + entries_bytes(dict) + indices_bytes(dict, values)
}

/// The number of distinct values.
pub open spec fn cardinality(values: Seq<Seq<char>>) -> nat {
    values.to_set().len()
}

/// Whether dictionary encoding suits a column: it is empty, or it has at most
/// `MAX_DISTINCT` distinct values and no more than half as many as rows (one is always
/// few enough).
pub open spec fn suits_dictionary(values: Seq<Seq<char>>) -> bool {
    ||| values.len() == 0
    ||| cardinality(values) <= MAX_DISTINCT && (cardinality(values) <= values.len() / 2
        || cardinality(values) <= 1)
}

/// Dictionary entries are exactly the values, without repetition.
pub proof fn lemma_first_occurrences(values: Seq<Seq<char>>)
    ensures
        first_occurrences(values).no_duplicates(),
        forall|v: Seq<char>|
            #![trigger first_occurrences(values).contains(v)]
            #![trigger values.contains(v)]
            first_occurrences(values).contains(v) <==> values.contains(v),
        first_occurrences(values).len() <= values.len(),
    decreases values.len(),
{
    if values.len() > 0 {
        let front = values.drop_last();
        let earlier = first_occurrences(front);
        lemma_first_occurrences(front);
        let all = first_occurrences(values);
        assert forall|v: Seq<char>| all.contains(v) <==> values.contains(v) by {
            if values.contains(v) {
                let k = values.index_of(v);
                if k < front.len() {
                    assert(front[k] == v);
                    assert(front.contains(v));
                    assert(earlier.contains(v));
                }
                if earlier.contains(v) {
                    assert(all[earlier.index_of(v)] == v);
                } else {
                    assert(v == values.last());
                    assert(all.last() == v);
                }
            }
            if all.contains(v) {
                let k = all.index_of(v);
                if k < earlier.len() {
                    assert(earlier[k] == v);
                    assert(earlier.contains(v));
                    let j = front.index_of(v);
                    assert(values[j] == v);
                } else {
                    assert(values[values.len() - 1] == v);
                }
            }
        }
    }
}

/// Whether dictionary encoding is suitable for the given values.
pub fn should_use_dictionary(values: &[&str]) -> (r: bool)
    ensures
        r == suits_dictionary(texts(values@)),
{
    if values.is_empty() {
        return true;
    }
    let ghost all = texts(values@);
    let mut uniq: StringHashSet = StringHashSet::new();
    let mut i: usize = 0;
    proof {
        assert(all.take(0).to_set() =~= Set::<Seq<char>>::empty());
    }
    while i < values.len()
        invariant
            i <= values@.len(),
            all == texts(values@),
            uniq@ == all.take(i as int).to_set(),
            uniq@.len() <= MAX_DISTINCT,
        decreases values@.len() - i,
    {
        proof {
            assert(all.take(i + 1).drop_last() =~= all.take(i as int));
            assert(all.take(i + 1).last() == values@[i as int]@);
            assert(all.take(i as int).to_set().insert(values@[i as int]@) =~= all.take(i
                + 1).to_set()) by {
                let next = all.take(i + 1);
                let now = all.take(i as int);
                assert forall|v: Seq<char>| next.contains(v) <==> now.contains(v) || v
                    == values@[i as int]@ by {
                    if next.contains(v) {
                        let k = next.index_of(v);
                        if k < i {
                            assert(now[k] == v);
                        }
                    }
                    if now.contains(v) {
                        assert(next[now.index_of(v)] == v);
                    }
                    assert(next[i as int] == values@[i as int]@);
                }
            }
        }
        uniq.insert(values[i].to_string());
        if uniq.len() > MAX_DISTINCT {
            proof {
                let seen = all.take(i + 1).to_set();
                assert(seen.subset_of(all.to_set())) by {
                    assert forall|v: Seq<char>| seen.contains(v) implies all.to_set().contains(
                        v,
                    ) by {
                        let k = all.take(i + 1).index_of(v);
                        assert(all[k] == v);
                    }
                }
                vstd::seq_lib::seq_to_set_is_finite(all);
                vstd::set_lib::lemma_len_subset(seen, all.to_set());
            }
            return false;
        }
        i = i + 1;
    }
    assert(all.take(values@.len() as int) =~= all);
    let cardinality: usize = uniq.len();
    cardinality <= values.len() / 2 || cardinality <= 1
}

/// Collects the distinct values in order of first occurrence, with the index field of each.
fn build_dictionary<'a>(values: &[&'a str]) -> (r: (Vec<&'a str>, StringHashMap<u32>))
    ensures
        texts(r.0@) == first_occurrences(texts(values@)),
        forall|v: Seq<char>|
            first_occurrences(texts(values@)).contains(v) ==> #[trigger] r.1@.contains_key(v)
                && r.1@[v] == index_field(first_occurrences(texts(values@)), v),
{
    let ghost all = texts(values@);
    let mut dict: StringHashMap<u32> = StringHashMap::new();
    let mut entries: Vec<&'a str> = Vec::new();
    let mut i: usize = 0;
    assert(texts(entries@) =~= first_occurrences(all.take(0)));
    while i < values.len()
        invariant
            i <= values@.len(),
            all == texts(values@),
            texts(entries@) == first_occurrences(all.take(i as int)),
            forall|v: Seq<char>|
                first_occurrences(all.take(i as int)).contains(v) <==> #[trigger] dict@.contains_key(
                    v,
                ),
            forall|v: Seq<char>| #[trigger]
                dict@.contains_key(v) ==> dict@[v] == index_field(
                    first_occurrences(all.take(i as int)),
                    v,
                ),
        decreases values@.len() - i,
    {
        let v: &'a str = values[i];
        let ghost now = first_occurrences(all.take(i as int));
        let ghost next = first_occurrences(all.take(i + 1));
        proof {
            assert(all.take(i + 1).drop_last() =~= all.take(i as int));
            assert(all.take(i + 1).last() == v@);
            lemma_first_occurrences(all.take(i as int));
            lemma_first_occurrences(all.take(i + 1));
        }
        if !dict.contains_key(v) {
            let n: usize = entries.len();
            let idx: u32 = n as u32;
            assert((n as u32) as u64 == (n as u64) % 0x1_0000_0000u64) by (bit_vector);
            let ghost before = dict@;
            dict.insert(v.to_string(), idx);
            entries.push(v);
            proof {
                assert(next == now.push(v@));
                assert(texts(entries@) =~= next);
                assert forall|w: Seq<char>| next.contains(w) <==> #[trigger] dict@.contains_key(w) by {
                    if next.contains(w) && w != v@ {
                        let k = next.index_of(w);
                        assert(now[k] == w);
                    }
                    if now.contains(w) {
                        assert(next[now.index_of(w)] == w);
                    }
                    assert(next[now.len() as int] == v@);
                }
                assert forall|w: Seq<char>| #[trigger] dict@.contains_key(w) implies dict@[w]
                    == index_field(next, w) by {
                    if w == v@ {
                        assert(next[now.len() as int] == w);
                        assert(next.index_of(w) == now.len());
                    } else {
                        assert(before.contains_key(w));
                        let k = now.index_of(w);
                        assert(next[k] == w);
                        assert(next.index_of(w) == k);
                    }
                }
            }
        }
        i = i + 1;
    }
    assert(all.take(values@.len() as int) =~= all);
    (entries, dict)
}

/// Encodes a text column with a dictionary.
pub fn encode(values: &[&str]) -> (buf: Vec<u8>)
    ensures
        buf@ == encoded(texts(values@)),
{
    let (entries, dict) = build_dictionary(values);
    let ghost all = texts(values@);
    let ghost words = first_occurrences(all);
    let mut buf: Vec<u8> = Vec::new();
    write_le32(&mut buf, entries.len());
    assert(buf@ =~= le32(words.len()) + entries_bytes(words.take(0)));
    let mut i: usize = 0;
    while i < entries.len()
        invariant
            i <= entries@.len(),
            texts(entries@) == words,
            buf@ == le32(words.len()) + entries_bytes(words.take(i as int)),
        decreases entries@.len() - i,
    {
        let bytes = entries[i].as_bytes();
        write_le32(&mut buf, bytes.len());
        append_bytes(&mut buf, bytes);
        proof {
            assert(words.take(i + 1).drop_last() =~= words.take(i as int));
            assert(words.take(i + 1).last() == entries@[i as int]@);
            assert(buf@ =~= le32(words.len()) + entries_bytes(words.take(i + 1)));
        }
        i = i + 1;
    }
    assert(words.take(entries@.len() as int) =~= words);
    let ghost head = buf@;
    assert(buf@ =~= head + indices_bytes(words, all.take(0)));
    let mut j: usize = 0;
    while j < values.len()
        invariant
            j <= values@.len(),
            all == texts(values@),
            words == first_occurrences(all),
            buf@ == head + indices_bytes(words, all.take(j as int)),
            forall|v: Seq<char>|
                words.contains(v) ==> #[trigger] dict@.contains_key(v) && dict@[v] == index_field(
                    words,
                    v,
                ),
        decreases values@.len() - j,
    {
        let v = values[j];
        proof {
            lemma_first_occurrences(all);
            assert(all[j as int] == v@);
            assert(all.contains(v@));
            assert(words.contains(v@));
            assert(dict@.contains_key(v@));
            assert(all.take(j + 1).drop_last() =~= all.take(j as int));
            assert(all.take(j + 1).last() == v@);
        }
        let ghost before = buf@;
        match dict.get(v) {
            Some(idx) => {
                write_varint(&mut buf, *idx);
            },
            None => {},
        }
        assert(buf@ =~= head + indices_bytes(words, all.take(j + 1)));
        j = j + 1;
    }
    assert(all.take(values@.len() as int) =~= all);
    buf
}

/// Appends a copy of `bytes`.
pub fn append_bytes(buf: &mut Vec<u8>, bytes: &[u8])
    ensures
        final(buf)@ == old(buf)@ + bytes@,
{
    let ghost start = buf@;
    buf.extend_from_slice(bytes);
    assert(buf@ =~= start + bytes@);
}

// ---------------------------------------------------------------------------
// Decoding
// ---------------------------------------------------------------------------

/// The first `n` dictionary entries of encoded data and the offset behind them, or `None`
/// where an entry runs past the end or is not UTF-8.
pub open spec fn parse_entries(data: Seq<u8>, n: nat) -> Option<(Seq<Seq<char>>, int)>
    decreases n,
{
    if n == 0 {
        Some((Seq::empty(), 4))
    } else {
        match parse_entries(data, (n - 1) as nat) {
            None => None,
            Some((dict, at)) => {
                let len = le32_at(data, at);
                if at + 4 + len <= data.len() && valid_utf8(
                    data.subrange(at + 4, at + 4 + len),
                ) {
                    Some(
                        (
                            dict.push(decode_utf8(data.subrange(at + 4, at + 4 + len))),
                            at + 4 + len,
                        ),
                    )
                } else {
                    None
                }
            },
        }
    }
}

/// The first `n` indices behind the dictionary, which ends at `start`, and the offset
/// behind them, or `None` where an index takes more than five bytes.
pub open spec fn parse_indices(data: Seq<u8>, start: int, n: nat) -> Option<(Seq<u32>, int)>
    decreases n,
{
    if n == 0 {
        Some((Seq::empty(), start))
    } else {
        match parse_indices(data, start, (n - 1) as nat) {
            None => None,
            Some((indices, at)) => {
                let rest = data.subrange(at, data.len() as int);
                let len = varint_len(rest);
                if len <= 5 {
                    Some(
                        (
                            indices.push((varint_value(rest.take(len as int)) % TWO_32 as nat) as u32),
                            at + len,
                        ),
                    )
                } else {
                    None
                }
            },
        }
    }
}

/// The dictionary and the `count` indices that encoded data holds, or `None` where the
/// data is malformed.
pub open spec fn parse(data: Seq<u8>, count: nat) -> Option<(Seq<Seq<char>>, Seq<u32>)> {
    if data.len() < 4 {
        None
    } else {
        match parse_entries(data, le32_at(data, 0)) {
            None => None,
            Some((dict, start)) => match parse_indices(data, start, count) {
                None => None,
                Some((indices, _)) => Some((dict, indices)),
            },
        }
    }
}

/// Whether `count` values can be read: the data is well formed (nothing is read of it for
/// no values).
pub open spec fn well_formed(data: Seq<u8>, count: nat) -> bool {
    count > 0 ==> parse(data, count) is Some
}

/// Whether, in addition, every index stands for a dictionary entry.
pub open spec fn resolvable(data: Seq<u8>, count: nat) -> bool {
    count > 0 ==> {
        &&& parse(data, count) matches Some((dict, indices))
        &&& forall|i: int| 0 <= i < indices.len() ==> (#[trigger] indices[i]) < dict.len()
    }
}

/// The dictionary that is read for `count` values.
pub open spec fn parsed_dict(data: Seq<u8>, count: nat) -> Seq<Seq<char>> {
    if count == 0 {
        Seq::empty()
    } else {
        (parse(data, count)->0).0
    }
}

/// The indices that are read for `count` values.
pub open spec fn parsed_indices(data: Seq<u8>, count: nat) -> Seq<u32> {
    if count == 0 {
        Seq::empty()
    } else {
        (parse(data, count)->0).1
    }
}

/// The values that encoded data stands for.
pub open spec fn decoded(data: Seq<u8>, count: nat) -> Seq<Seq<char>> {
    parsed_indices(data, count).map_values(|i: u32| parsed_dict(data, count)[i as int])
}

/// If `n` entries can be read, so can fewer; offsets stay within the data.
proof fn lemma_parse_entries_prefix(data: Seq<u8>, n: nat, k: nat)
    requires
        data.len() >= 4,
        parse_entries(data, n) is Some,
        k <= n,
    ensures
        parse_entries(data, k) is Some,
        (parse_entries(data, k)->0).0.len() == k,
        4 <= (parse_entries(data, k)->0).1 <= data.len(),
    decreases n,
{
    if k < n {
        lemma_parse_entries_prefix(data, (n - 1) as nat, k);
    } else if n > 0 {
        lemma_parse_entries_prefix(data, (n - 1) as nat, (n - 1) as nat);
    }
}

/// A variable-length integer does not read past the end.
proof fn lemma_varint_len_bound(buf: Seq<u8>)
    ensures
        varint_len(buf) <= buf.len(),
    decreases buf.len(),
{
    if buf.len() > 0 {
        lemma_varint_len_bound(buf.drop_first());
    }
}

/// If `n` indices can be read, so can fewer; offsets stay within the data.
proof fn lemma_parse_indices_prefix(data: Seq<u8>, start: int, n: nat, k: nat)
    requires
        0 <= start <= data.len(),
        parse_indices(data, start, n) is Some,
        k <= n,
    ensures
        parse_indices(data, start, k) is Some,
        (parse_indices(data, start, k)->0).0.len() == k,
        start <= (parse_indices(data, start, k)->0).1 <= data.len(),
    decreases n,
{
    if k < n {
        lemma_parse_indices_prefix(data, start, (n - 1) as nat, k);
    } else if n > 0 {
        lemma_parse_indices_prefix(data, start, (n - 1) as nat, (n - 1) as nat);
        let at = (parse_indices(data, start, (n - 1) as nat)->0).1;
        lemma_varint_len_bound(data.subrange(at, data.len() as int));
    }
}

/// Where fewer entries cannot be read, more cannot.
proof fn lemma_parse_entries_stuck(data: Seq<u8>, k: nat, n: nat)
    requires
        k <= n,
        parse_entries(data, k) is None,
    ensures
        parse_entries(data, n) is None,
    decreases n,
{
    if k < n {
        lemma_parse_entries_stuck(data, k, (n - 1) as nat);
    }
}

/// Where fewer indices cannot be read, more cannot.
proof fn lemma_parse_indices_stuck(data: Seq<u8>, start: int, k: nat, n: nat)
    requires
        k <= n,
        parse_indices(data, start, k) is None,
    ensures
        parse_indices(data, start, n) is None,
    decreases n,
{
    if k < n {
        lemma_parse_indices_stuck(data, start, k, (n - 1) as nat);
    }
}

/// Whether the dictionary can be read; if so, the offset behind it.
fn measure_entries(data: &[u8]) -> (r: Option<usize>)
    requires
        data@.len() >= 4,
    ensures
        r is Some <==> parse_entries(data@, le32_at(data@, 0)) is Some,
        r matches Some(at) ==> {
            &&& at == (parse_entries(data@, le32_at(data@, 0))->0).1
            &&& at <= data@.len()
        },
{
    let size: usize = read_le32(data, 0) as usize;
    let len: usize = data.len();
    let mut at: usize = 4;
    let mut i: usize = 0;
    while i < size
        invariant
            i <= size,
            size == le32_at(data@, 0),
            data@.len() == len,
            4 <= at <= len,
            parse_entries(data@, i as nat) is Some,
            (parse_entries(data@, i as nat)->0).1 == at,
        decreases size - i,
    {
        if len - at < 4 {
            proof {
                assert(parse_entries(data@, (i + 1) as nat) is None);
                lemma_parse_entries_stuck(data@, (i + 1) as nat, size as nat);
            }
            return None;
        }
        let n: usize = read_le32(data, at) as usize;
        if len - at - 4 < n || text::from_utf8(slice_subrange(data, at + 4, at + 4 + n)).is_none() {
            proof {
                assert(parse_entries(data@, (i + 1) as nat) is None);
                lemma_parse_entries_stuck(data@, (i + 1) as nat, size as nat);
            }
            return None;
        }
        at = at + 4 + n;
        i = i + 1;
    }
    Some(at)
}

/// Whether a variable-length integer takes at most five bytes.
fn is_short(buf: &[u8]) -> (r: bool)
    ensures
        r == (varint_len(buf@) <= 5),
{
    let mut i: usize = 0;
    while i < buf.len()
        invariant
            i <= buf@.len(),
            i <= 5,
            forall|k: int| 0 <= k < i ==> buf@[k] >= 128,
        decreases buf@.len() - i,
    {
        proof {
            lemma_varint_len_step(buf@, i as nat);
        }
        if i == 5 {
            return false;
        }
        if buf[i] < 128 {
            return true;
        }
        i = i + 1;
    }
    proof {
        lemma_varint_len_all(buf@);
    }
    true
}

/// Whether the dictionary and the indices of `count` values can be read from encoded data.
pub fn is_well_formed(data: &[u8], count: usize) -> (r: bool)
    ensures
        r == well_formed(data@, count as nat),
{
    if count == 0 {
        return true;
    }
    let len: usize = data.len();
    if len < 4 {
        return false;
    }
    let start: usize = match measure_entries(data) {
        Some(start) => start,
        None => {
            return false;
        },
    };
    let mut at: usize = start;
    let mut i: usize = 0;
    while i < count
        invariant
            i <= count,
            data@.len() == len,
            len >= 4,
            at <= len,
            count > 0,
            parse_entries(data@, le32_at(data@, 0)) is Some,
            (parse_entries(data@, le32_at(data@, 0))->0).1 == start,
            parse_indices(data@, start as int, i as nat) is Some,
            (parse_indices(data@, start as int, i as nat)->0).1 == at,
        decreases count - i,
    {
        let rest = slice_subrange(data, at, len);
        if !is_short(rest) {
            proof {
                lemma_parse_indices_stuck(data@, start as int, (i + 1) as nat, count as nat);
            }
            return false;
        }
        let (_, consumed): (u32, usize) = read_varint(rest);
        at = at + consumed;
        i = i + 1;
    }
    true
}

/// Whether `count` values can be read from encoded data.
pub fn is_resolvable(data: &[u8], count: usize) -> (r: bool)
    ensures
        r == resolvable(data@, count as nat),
{
    if !is_well_formed(data, count) {
        return false;
    }
    let (dict, indices) = decode_dict_and_indices(data, count);
    let mut i: usize = 0;
    while i < indices.len()
        invariant
            i <= indices@.len(),
            well_formed(data@, count as nat),
            texts(dict@) == parsed_dict(data@, count as nat),
            indices@ == parsed_indices(data@, count as nat),
            indices@.len() == count,
            forall|k: int| 0 <= k < i ==> (#[trigger] indices@[k]) < dict@.len(),
        decreases indices@.len() - i,
    {
        if indices[i] as usize >= dict.len() {
            assert(texts(dict@).len() == dict@.len());
            assert(!(parsed_indices(data@, count as nat)[i as int] < dict@.len()));
            return false;
        }
        i = i + 1;
    }
    assert(texts(dict@).len() == dict@.len());
    true
}

/// Reads the dictionary: its entries, borrowed from the data, and the offset behind it.
fn read_entries<'a>(data: &'a [u8]) -> (r: (Vec<&'a str>, usize))
    requires
        data@.len() >= 4,
        parse_entries(data@, le32_at(data@, 0)) is Some,
    ensures
        parse_entries(data@, le32_at(data@, 0)) == Some((texts(r.0@), r.1 as int)),
        r.1 <= data@.len(),
{
    let size: usize = read_le32(data, 0) as usize;
    let len: usize = data.len();
    let mut at: usize = 4;
    let mut dict: Vec<&'a str> = Vec::new();
    let mut i: usize = 0;
    assert(texts(dict@) =~= Seq::<Seq<char>>::empty());
    while i < size
        invariant
            i <= size,
            size == le32_at(data@, 0),
            data@.len() >= 4,
            data@.len() == len,
            at <= len,
            parse_entries(data@, size as nat) is Some,
            parse_entries(data@, i as nat) == Some((texts(dict@), at as int)),
        decreases size - i,
    {
        proof {
            lemma_parse_entries_prefix(data@, size as nat, (i + 1) as nat);
        }
        let n: usize = read_le32(data, at) as usize;
        let slice = slice_subrange(data, at + 4, at + 4 + n);
        let ghost before = texts(dict@);
        match text::from_utf8(slice) {
            Some(s) => {
                dict.push(s);
                assert(texts(dict@) =~= before.push(s@));
            },
            None => {},
        }
        at = at + 4 + n;
        i = i + 1;
    }
    (dict, at)
}

/// Reads `count` indices from `start` on.
fn read_indices(data: &[u8], start: usize, count: usize) -> (indices: Vec<u32>)
    requires
        start <= data@.len(),
        parse_indices(data@, start as int, count as nat) is Some,
    ensures
        (parse_indices(data@, start as int, count as nat)->0).0 == indices@,
        indices@.len() == count,
{
    let len: usize = data.len();
    let mut at: usize = start;
    let mut indices: Vec<u32> = Vec::new();
    let mut i: usize = 0;
    while i < count
        invariant
            i <= count,
            start <= data@.len(),
            data@.len() == len,
            at <= len,
            indices@.len() == i,
            parse_indices(data@, start as int, count as nat) is Some,
            parse_indices(data@, start as int, i as nat) == Some((indices@, at as int)),
        decreases count - i,
    {
        proof {
            lemma_parse_indices_prefix(data@, start as int, count as nat, (i + 1) as nat);
        }
        let (idx, consumed): (u32, usize) = read_varint(slice_subrange(data, at, len));
        at = at + consumed;
        indices.push(idx);
        i = i + 1;
    }
    indices
}

/// Decodes to the dictionary entries and the index of every row, so that a predicate can be
/// tried on the entries alone.
pub fn decode_dict_and_indices<'a>(data: &'a [u8], count: usize) -> (r: (Vec<&'a str>, Vec<u32>))
    requires
        well_formed(data@, count as nat),
    ensures
        texts(r.0@) == parsed_dict(data@, count as nat),
        r.1@ == parsed_indices(data@, count as nat),
        r.1@.len() == count,
{
    if count == 0 {
        let dict: Vec<&'a str> = Vec::new();
        assert(texts(dict@) =~= Seq::<Seq<char>>::empty());
        return (dict, Vec::new());
    }
    let (dict, start) = read_entries(data);
    let indices = read_indices(data, start, count);
    (dict, indices)
}

/// Decodes to string slices that are borrowed from the data.
pub fn decode_to_slices<'a>(data: &'a [u8], count: usize) -> (values: Vec<&'a str>)
    requires
        resolvable(data@, count as nat),
    ensures
        texts(values@) == decoded(data@, count as nat),
        values@.len() == count,
{
    let (dict, indices) = decode_dict_and_indices(data, count);
    let mut values: Vec<&'a str> = Vec::new();
    let mut i: usize = 0;
    while i < indices.len()
        invariant
            i <= indices@.len(),
            values@.len() == i,
            texts(dict@) == parsed_dict(data@, count as nat),
            forall|k: int| 0 <= k < indices@.len() ==> (#[trigger] indices@[k]) < dict@.len(),
            forall|k: int| 0 <= k < i ==> (#[trigger] values@[k])@ == dict@[indices@[k] as int]@,
        decreases indices@.len() - i,
    {
        values.push(dict[indices[i] as usize]);
        i = i + 1;
    }
    proof {
        assert forall|k: int| 0 <= k < count implies texts(values@)[k] == decoded(
            data@,
            count as nat,
        )[k] by {
            assert(values@[k]@ == dict@[indices@[k] as int]@);
            assert(texts(dict@)[indices@[k] as int] == dict@[indices@[k] as int]@);
        }
        assert(texts(values@) =~= decoded(data@, count as nat));
    }
    values
}

/// Decodes to owned strings.
pub fn decode(data: &[u8], count: usize) -> (values: Vec<String>)
    requires
        resolvable(data@, count as nat),
    ensures
        text::views(values@) == decoded(data@, count as nat),
        values@.len() == count,
{
    let slices = decode_to_slices(data, count);
    let mut values: Vec<String> = Vec::new();
    let mut i: usize = 0;
    while i < slices.len()
        invariant
            i <= slices@.len(),
            values@.len() == i,
            forall|k: int| 0 <= k < i ==> (#[trigger] values@[k])@ == slices@[k]@,
        decreases slices@.len() - i,
    {
        values.push(slices[i].to_string());
        i = i + 1;
    }
    assert(text::views(values@) =~= texts(slices@));
    values
}

// ---------------------------------------------------------------------------
// Laws
// ---------------------------------------------------------------------------

/// Prepending a group shifts the value of the others by one place.
proof fn lemma_varint_value_front(b: u8, rest: Seq<u8>)
    ensures
        varint_value(seq![b] + rest) == (b % 128) as nat + 128 * varint_value(rest),
    decreases rest.len(),
{
    let all = seq![b] + rest;
    if rest.len() == 0 {
        assert(all.drop_last() =~= Seq::<u8>::empty());
        assert(all.last() == b);
        assert(varint_value(all.drop_last()) == 0);
        assert(varint_value(rest) == 0);
        assert(place(0) == 1);
        assert((b % 128) as nat * place(0) == (b % 128) as nat) by (nonlinear_arith)
            requires
                place(0) == 1,
        ;
    } else {
        lemma_varint_value_front(b, rest.drop_last());
        assert(all.drop_last() =~= seq![b] + rest.drop_last());
        let d = (rest.last() % 128) as nat;
        let p = place((rest.len() - 1) as nat);
        assert(place(rest.len()) == 128 * p);
        assert(d * (128 * p) == 128 * (d * p)) by (nonlinear_arith);
        assert(all.last() == rest.last());
        assert(varint_value(all) == varint_value(all.drop_last()) + d * place(rest.len()));
        assert(varint_value(rest) == varint_value(rest.drop_last()) + d * p);
    }
}

/// What is read behind a written variable-length integer is that integer: exactly its bytes,
/// and exactly its value.
pub proof fn law_varint_roundtrip(v: nat, tail: Seq<u8>)
    ensures
        varint_len(varint(v) + tail) == varint(v).len(),
        varint_value((varint(v) + tail).take(varint(v).len() as int)) == v,
        varint(v).len() >= 1,
        v < TWO_32 ==> varint(v).len() <= 5,
    decreases v,
{
    lemma_varint_short(v);
    let all = varint(v) + tail;
    if v < 128 {
        assert(all.take(1) =~= seq![v as u8]);
        lemma_varint_value_front(v as u8, Seq::empty());
        assert(seq![v as u8] + Seq::<u8>::empty() =~= seq![v as u8]);
    } else {
        let b = (v % 128 + 128) as u8;
        law_varint_roundtrip(v / 128, tail);
        let inner = varint(v / 128) + tail;
        assert(all.drop_first() =~= inner);
        let n = varint(v / 128).len() as int;
        assert(all.take(n + 1) =~= seq![b] + inner.take(n));
        lemma_varint_value_front(b, inner.take(n));
    }
}

/// A number below 2^32 takes at most five groups.
proof fn lemma_varint_short(v: nat)
    ensures
        v < TWO_32 ==> varint(v).len() <= 5,
        v < 128 ==> varint(v).len() == 1,
{
    reveal_with_fuel(varint, 6);
}

/// Encoding fewer entries gives a prefix.
proof fn lemma_entries_prefix(dict: Seq<Seq<char>>, k: nat)
    requires
        k <= dict.len(),
    ensures
        entries_bytes(dict.take(k as int)).len() <= entries_bytes(dict).len(),
        entries_bytes(dict).take(entries_bytes(dict.take(k as int)).len() as int) == entries_bytes(
            dict.take(k as int),
        ),
    decreases dict.len(),
{
    if k == dict.len() {
        assert(dict.take(k as int) =~= dict);
        assert(entries_bytes(dict).take(entries_bytes(dict).len() as int) =~= entries_bytes(dict));
    } else {
        let front = dict.drop_last();
        lemma_entries_prefix(front, k);
        assert(front.take(k as int) =~= dict.take(k as int));
        let n = entries_bytes(dict.take(k as int)).len() as int;
        assert(entries_bytes(dict).take(n) =~= entries_bytes(front).take(n));
    }
}

/// Encoding fewer indices gives a prefix.
proof fn lemma_indices_prefix(dict: Seq<Seq<char>>, values: Seq<Seq<char>>, k: nat)
    requires
        k <= values.len(),
    ensures
        indices_bytes(dict, values.take(k as int)).len() <= indices_bytes(dict, values).len(),
        indices_bytes(dict, values).take(indices_bytes(dict, values.take(k as int)).len() as int)
            == indices_bytes(dict, values.take(k as int)),
    decreases values.len(),
{
    if k == values.len() {
        assert(values.take(k as int) =~= values);
        let all = indices_bytes(dict, values);
        assert(all.take(all.len() as int) =~= all);
    } else {
        let front = values.drop_last();
        lemma_indices_prefix(dict, front, k);
        assert(front.take(k as int) =~= values.take(k as int));
        let n = indices_bytes(dict, values.take(k as int)).len() as int;
        assert(indices_bytes(dict, values).take(n) =~= indices_bytes(dict, front).take(n));
    }
}

/// The middle of three concatenated parts.
proof fn lemma_middle(a: Seq<u8>, b: Seq<u8>, c: Seq<u8>)
    ensures
        (a + b + c).subrange(a.len() as int, (a.len() + b.len()) as int) == b,
{
    assert((a + b + c).subrange(a.len() as int, (a.len() + b.len()) as int) =~= b);
}

/// Where entry `j` stands in an encoded dictionary.
#[verifier::spinoff_prover]
proof fn lemma_entry_at(dict: Seq<Seq<char>>, tail: Seq<u8>, j: nat)
    requires
        j < dict.len(),
    ensures
        ({
            let data = le32(dict.len()) + entries_bytes(dict) + tail;
            let bytes = encode_utf8(dict[j as int]);
            let at = 4 + entries_bytes(dict.take(j as int)).len() as int;
            &&& at + 4 + bytes.len() <= data.len()
            &&& data.subrange(at, at + 4) == le32(bytes.len())
            &&& data.subrange(at + 4, at + 4 + bytes.len()) == bytes
            &&& entries_bytes(dict.take((j + 1) as int)).len() == entries_bytes(dict.take(j as int)).len()
                + 4 + bytes.len()
        }),
{
    let data = le32(dict.len()) + entries_bytes(dict) + tail;
    let word = dict[j as int];
    let bytes = encode_utf8(word);
    let before = entries_bytes(dict.take(j as int));
    let upto = entries_bytes(dict.take((j + 1) as int));
    lemma_entries_prefix(dict, j + 1);
    assert(dict.take((j + 1) as int).drop_last() =~= dict.take(j as int));
    assert(dict.take((j + 1) as int).last() == word);
    assert(upto == before + entry_bytes(word));
    let behind = entries_bytes(dict).subrange(upto.len() as int, entries_bytes(dict).len() as int);
    assert(entries_bytes(dict) =~= upto + behind);
    let lead = le32(dict.len()) + before;
    assert(data =~= lead + le32(bytes.len()) + (bytes + behind + tail));
    lemma_middle(lead, le32(bytes.len()), bytes + behind + tail);
    assert(data =~= (lead + le32(bytes.len())) + bytes + (behind + tail));
    lemma_middle(lead + le32(bytes.len()), bytes, behind + tail);
}

/// Reading back the first `k` entries of an encoded dictionary.
proof fn lemma_parse_encoded_entries(dict: Seq<Seq<char>>, tail: Seq<u8>, k: nat)
    requires
        k <= dict.len(),
        forall|i: int| 0 <= i < dict.len() ==> encode_utf8(#[trigger] dict[i]).len() < TWO_32,
    ensures
        parse_entries(le32(dict.len()) + entries_bytes(dict) + tail, k) == Some(
            (dict.take(k as int), 4 + entries_bytes(dict.take(k as int)).len() as int),
        ),
    decreases k,
{
    let data = le32(dict.len()) + entries_bytes(dict) + tail;
    if k == 0 {
        assert(dict.take(0) =~= Seq::<Seq<char>>::empty());
    } else {
        let j = (k - 1) as nat;
        lemma_parse_encoded_entries(dict, tail, j);
        lemma_entry_at(dict, tail, j);
        let word = dict[j as int];
        let at = 4 + entries_bytes(dict.take(j as int)).len() as int;
        lemma_le32_roundtrip(data, at, encode_utf8(word).len());
        encode_utf8_valid_utf8(word);
        encode_utf8_decode_utf8(word);
        assert(dict.take(j as int).push(word) =~= dict.take(k as int));
    }
}

/// The index of every value.
pub open spec fn index_fields(dict: Seq<Seq<char>>, values: Seq<Seq<char>>) -> Seq<u32> {
    values.map_values(|v: Seq<char>| index_field(dict, v) as u32)
}

/// Reading back the first `k` indices of encoded values.
proof fn lemma_parse_encoded_indices(
    head: Seq<u8>,
    dict: Seq<Seq<char>>,
    values: Seq<Seq<char>>,
    k: nat,
)
    requires
        k <= values.len(),
    ensures
        parse_indices(head + indices_bytes(dict, values), head.len() as int, k) == Some(
            (
                index_fields(dict, values.take(k as int)),
                head.len() + indices_bytes(dict, values.take(k as int)).len() as int,
            ),
        ),
    decreases k,
{
    let data = head + indices_bytes(dict, values);
    if k == 0 {
        assert(index_fields(dict, values.take(0)) =~= Seq::<u32>::empty());
        assert(values.take(0) =~= Seq::<Seq<char>>::empty());
    } else {
        let j = (k - 1) as nat;
        lemma_parse_encoded_indices(head, dict, values, j);
        lemma_indices_prefix(dict, values, k);
        let field = index_field(dict, values[j as int]);
        let at = head.len() + indices_bytes(dict, values.take(j as int)).len() as int;
        let upto = indices_bytes(dict, values.take(k as int));
        assert(values.take(k as int).drop_last() =~= values.take(j as int));
        assert(values.take(k as int).last() == values[j as int]);
        let rest = data.subrange(at, data.len() as int);
        let n = varint(field).len() as int;
        let tail = rest.subrange(n, rest.len() as int);
        assert(data.subrange(head.len() as int, head.len() + upto.len() as int) =~= upto) by {
            assert(data.subrange(head.len() as int, head.len() + upto.len() as int) =~= indices_bytes(
                dict,
                values,
            ).take(upto.len() as int));
        }
        assert forall|i: int| 0 <= i < n implies rest[i] == varint(field)[i] by {
            let off = at - head.len() + i;
            assert(data.subrange(head.len() as int, head.len() + upto.len() as int)[off] == upto[off]);
        }
        assert(rest =~= varint(field) + tail);
        law_varint_roundtrip(field, tail);
        assert(index_fields(dict, values.take(j as int)).push(field as u32) =~= index_fields(
            dict,
            values.take(k as int),
        ));
    }
}

/// Decoding what was encoded gives the values back: the data of a column whose strings and
/// whose dictionary fit 32-bit lengths is readable, its dictionary holds the distinct values in
/// order of first occurrence, and its decoded values are the encoded ones. Where fewer values are
/// asked for, they are the first ones.
pub proof fn law_roundtrip(values: Seq<Seq<char>>, count: nat)
    requires
        first_occurrences(values).len() < TWO_32,
        forall|i: int| 0 <= i < values.len() ==> encode_utf8(#[trigger] values[i]).len() < TWO_32,
        count <= values.len(),
    ensures
        resolvable(encoded(values), count),
        count > 0 ==> parsed_dict(encoded(values), count) == first_occurrences(values),
        decoded(encoded(values), count) == values.take(count as int),
{
    let dict = first_occurrences(values);
    lemma_first_occurrences(values);
    assert forall|i: int| 0 <= i < dict.len() implies encode_utf8(#[trigger] dict[i]).len()
        < TWO_32 by {
        assert(dict.contains(dict[i]));
        let k = values.index_of(dict[i]);
        assert(values[k] == dict[i]);
    }
    let tail = indices_bytes(dict, values);
    let head = le32(dict.len()) + entries_bytes(dict);
    let data = encoded(values);
    let first = values.take(count as int);
    lemma_parse_encoded_entries(dict, tail, dict.len());
    assert(dict.take(dict.len() as int) =~= dict);
    lemma_parse_encoded_indices(head, dict, values, count);
    assert(data.subrange(0, 4) =~= le32(dict.len()));
    lemma_le32_roundtrip(data, 0, dict.len());
    if count > 0 {
        let indices = index_fields(dict, first);
        assert(parse(data, count) == Some((dict, indices)));
        assert forall|i: int| 0 <= i < count implies indices[i] < dict.len()
            && dict[indices[i] as int] == first[i] by {
            assert(values.contains(values[i]));
            assert(dict.contains(values[i]));
            let k = dict.index_of(values[i]);
            assert(index_field(dict, values[i]) == k);
        }
    }
    assert(decoded(data, count) =~= first);
}

/// The owned strings, the borrowed slices and the dictionary looked up by index are three
/// readings of the same values.
pub proof fn law_readings_agree(data: Seq<u8>, count: nat, i: int)
    requires
        resolvable(data, count),
        0 <= i < decoded(data, count).len(),
    ensures
        decoded(data, count)[i] == parsed_dict(data, count)[parsed_indices(data, count)[i] as int],
        parsed_indices(data, count)[i] < parsed_dict(data, count).len(),
{
}

/// A variable-length integer holds seven bits a byte, the lowest first; every byte but the last has
/// its high bit set.
pub proof fn law_varint_format(v: nat)
    ensures
        v < 128 ==> varint(v).len() == 1 && varint(v)[0] == v,
        v >= 128 ==> varint(v).len() == varint(v / 128).len() + 1 && varint(v)[0] == 128 + v % 128
            && varint(v).drop_first() == varint(v / 128),
        forall|i: int| 0 <= i < varint(v).len() - 1 ==> (#[trigger] varint(v)[i]) >= 128,
        varint(v).last() < 128,
    decreases v,
{
    if v >= 128 {
        law_varint_format(v / 128);
        let rest = varint(v / 128);
        assert(varint(v).drop_first() =~= rest);
        assert forall|i: int| 0 <= i < varint(v).len() - 1 implies (#[trigger] varint(v)[i])
            >= 128 by {
            if i > 0 {
                assert(varint(v)[i] == rest[i - 1]);
            }
        }
        assert(varint(v).last() == rest.last());
    }
}

/// A 32-bit number is held in four bytes, the lowest first, and read back from them wherever they
/// stand.
pub proof fn law_le32(n: nat, before: Seq<u8>, after: Seq<u8>)
    requires
        n < 0x1_0000_0000,
    ensures
        le32(n).len() == 4,
        le32(n)[0] == n % 256,
        le32(n)[3] == n / 16777216,
        le32(n)[0] + 256 * le32(n)[1] + 65536 * le32(n)[2] + 16777216 * le32(n)[3] == n,
        le32_at(before + le32(n) + after, before.len() as int) == n,
{
    let data = before + le32(n) + after;
    let at = before.len() as int;
    assert(data[at] == le32(n)[0] && data[at + 1] == le32(n)[1]);
    assert(data[at + 2] == le32(n)[2] && data[at + 3] == le32(n)[3]);
}

/// The dictionary holds every value once, in the order in which the values first occur.
pub proof fn law_dictionary_order(values: Seq<Seq<char>>, i: int, j: int)
    requires
        0 <= i < j < first_occurrences(values).len(),
    ensures
        first_occurrences(values).no_duplicates(),
        values.contains(first_occurrences(values)[i]),
        exists|p: int|
            0 <= p < values.len() && #[trigger] values[p] == first_occurrences(values)[i] && forall|
                q: int,
            |
                0 <= q < values.len() && #[trigger] values[q] == first_occurrences(values)[j] ==> p
                    < q,
    decreases values.len(),
{
    lemma_first_occurrences(values);
    let dict = first_occurrences(values);
    assert(dict.contains(dict[i]));
    let front = values.drop_last();
    let earlier = first_occurrences(front);
    lemma_first_occurrences(front);
    if j < earlier.len() {
        law_dictionary_order(front, i, j);
        assert(dict[i] == earlier[i] && dict[j] == earlier[j]);
        let p = choose|p: int|
            0 <= p < front.len() && #[trigger] front[p] == earlier[i] && forall|q: int|
                0 <= q < front.len() && #[trigger] front[q] == earlier[j] ==> p < q;
        assert(values[p] == dict[i]);
        assert forall|q: int| 0 <= q < values.len() && #[trigger] values[q] == dict[j] implies p
            < q by {
            if q < front.len() {
                assert(front[q] == earlier[j]);
            }
        }
    } else {
        assert(dict[j] == values.last() && !earlier.contains(dict[j]));
        assert(dict[i] == earlier[i]);
        assert(earlier.contains(dict[i]) && front.contains(dict[i]));
        let p = front.index_of(dict[i]);
        assert(values[p] == dict[i]);
        assert forall|q: int| 0 <= q < values.len() && #[trigger] values[q] == dict[j] implies p
            < q by {
            if q < front.len() {
                assert(front[q] == dict[j]);
                assert(front.contains(dict[j]));
            }
        }
    }
}

/// A dictionary suits a column with few different values: one that is empty or repeats one value;
/// one of at most 65535 different values that has at least twice as many rows, and so any column put
/// twice; never one with more different values, nor one of several values with fewer rows.
pub proof fn law_suitable_columns(values: Seq<Seq<char>>)
    ensures
        values.len() == 0 ==> suits_dictionary(values),
        values.to_set().len() == 1 ==> suits_dictionary(values),
        values.len() > 0 && values.to_set().len() > 65535 ==> !suits_dictionary(values),
        values.to_set().len() <= 65535 && values.len() >= 2 * values.to_set().len()
            ==> suits_dictionary(values),
        values.to_set().len() > 1 && values.len() < 2 * values.to_set().len() ==> !suits_dictionary(
            values,
        ),
        values.to_set().len() <= 65535 ==> suits_dictionary(values + values),
{
    let twice = values + values;
    assert(twice.to_set() =~= values.to_set()) by {
        assert forall|v: Seq<char>| twice.to_set().contains(v) <==> values.to_set().contains(v) by {
            if values.contains(v) {
                let i = values.index_of(v);
                assert(twice[i] == v);
            }
            if twice.contains(v) {
                let i = twice.index_of(v);
                if i < values.len() {
                    assert(values[i] == v);
                } else {
                    assert(values[i - values.len()] == v);
                }
            }
        }
    }
    lemma_first_occurrences(values);
    vstd::seq_lib::seq_to_set_is_finite(values);
    values.lemma_cardinality_of_set();
}

/// A value that has occurred before adds only its place in the dictionary to the encoded form: the
/// number of the values that occurred first before it.
pub proof fn law_repeated_value(values: Seq<Seq<char>>, value: Seq<char>)
    requires
        values.contains(value),
        first_occurrences(values).len() <= 0x1_0000_0000,
    ensures
        ({
            let dict = first_occurrences(values);
            &&& encoded(values.push(value)) == encoded(values) + varint(
                dict.index_of(value) as nat,
            )
            &&& 0 <= dict.index_of(value) < dict.len()
            &&& dict[dict.index_of(value)] == value
        }),
{
    lemma_first_occurrences(values);
    let dict = first_occurrences(values);
    let more = values.push(value);
    assert(dict.contains(value));
    assert(more.drop_last() =~= values);
    assert(first_occurrences(more) == dict);
    let i = dict.index_of(value);
    assert(index_field(dict, value) == i);
    assert(encoded(more) =~= encoded(values) + varint(i as nat));
}

/// The encoded form begins with the number of dictionary entries, then come the entries, each with
/// the length of its text in front; a single text is its entry and the index zero.
pub proof fn law_encoded_layout(values: Seq<Seq<char>>, value: Seq<char>)
    requires
        first_occurrences(values).len() < 0x1_0000_0000,
        encode_utf8(value).len() < 0x1_0000_0000,
    ensures
        le32_at(encoded(values), 0) == first_occurrences(values).len(),
        encoded(Seq::empty()) == le32(0),
        encoded(seq![value]) == le32(1) + (le32(encode_utf8(value).len()) + encode_utf8(value))
            + seq![0u8],
{
    let dict = first_occurrences(values);
    let rest = entries_bytes(dict) + indices_bytes(dict, values);
    let none = Seq::<u8>::empty();
    law_le32(dict.len(), none, rest);
    assert(encoded(values) =~= none + le32(dict.len()) + rest);
    let empty = Seq::<Seq<char>>::empty();
    assert(first_occurrences(empty) =~= empty);
    assert(encoded(empty) =~= le32(0));
    let one = seq![value];
    assert(one.drop_last() =~= empty);
    assert(first_occurrences(one) =~= one);
    assert(entries_bytes(empty) =~= none);
    assert(entries_bytes(one) =~= entry_bytes(value));
    assert(one[0] == value && one.contains(value));
    assert(one.index_of(value) == 0);
    assert(indices_bytes(one, empty) =~= none);
    assert(indices_bytes(one, one) =~= seq![0u8]);
}

} // verus!
