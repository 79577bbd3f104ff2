//! Operations on UTF-8 text: comparison, search, and conversion from bytes.
//!
//! A string is modelled by its sequence of characters; its bytes are the UTF-8
//! encoding of that sequence.

use std::cmp::Ordering;
use vstd::prelude::*;
use vstd::utf8::*;

verus! {

/// Whether `needle` occurs in `hay` as a run of consecutive bytes that starts at `at`.
pub open spec fn occurs_at(hay: Seq<u8>, needle: Seq<u8>, at: int) -> bool {
    &&& 0 <= at
    &&& at + needle.len() <= hay.len()
    &&& hay.subrange(at, at + needle.len()) == needle
}

/// Whether the text `needle` is a substring of the text `hay`.
pub open spec fn contains_text(hay: Seq<char>, needle: Seq<char>) -> bool {
    exists|at: int| occurs_at(encode_utf8(hay), encode_utf8(needle), at)
}

/// Whether the text `hay` begins with the text `needle`.
pub open spec fn starts_with_text(hay: Seq<char>, needle: Seq<char>) -> bool {
    occurs_at(encode_utf8(hay), encode_utf8(needle), 0)
}

/// Whether the text `hay` ends with the text `needle`.
pub open spec fn ends_with_text(hay: Seq<char>, needle: Seq<char>) -> bool {
    occurs_at(
        encode_utf8(hay),
        encode_utf8(needle),
        encode_utf8(hay).len() - encode_utf8(needle).len(),
    )
}

/// Two texts with the same UTF-8 encoding are the same text.
pub proof fn lemma_encode_injective(a: Seq<char>, b: Seq<char>)
    requires
        encode_utf8(a) == encode_utf8(b),
    ensures
        a == b,
{
    encode_utf8_decode_utf8(a);
    encode_utf8_decode_utf8(b);
}

/// The text that a byte sequence encodes is the only one with that encoding.
pub proof fn lemma_decode_unique(bytes: Seq<u8>, text: Seq<char>)
    requires
        encode_utf8(text) == bytes,
    ensures
        valid_utf8(bytes),
        decode_utf8(bytes) == text,
{
    encode_utf8_decode_utf8(text);
    encode_utf8_valid_utf8(text);
}

/// `std::str::from_utf8`: the text that `bytes` encode, or `None` when they are not
/// well-formed UTF-8.
#[verifier::external_body]
fn std_from_utf8(bytes: &[u8]) -> (r: Option<&str>)
    ensures
        r is Some <==> valid_utf8(bytes@),
        r matches Some(s) ==> encode_utf8(s@) == bytes@,
{
    std::str::from_utf8(bytes).ok()
}

/// The text that `bytes` encode, or `None` when they are not well-formed UTF-8.
pub fn from_utf8(bytes: &[u8]) -> (r: Option<&str>)
    ensures
        r is Some <==> valid_utf8(bytes@),
        r matches Some(s) ==> s@ == decode_utf8(bytes@) && encode_utf8(s@) == bytes@,
{
    let r = std_from_utf8(bytes);
    proof {
        if let Some(s) = r {
            lemma_decode_unique(bytes@, s@);
        }
    }
    r
}

/// The text that `bytes` encode, or the empty text when they are not well-formed UTF-8.
pub open spec fn text_or_empty(bytes: Seq<u8>) -> Seq<char> {
    if valid_utf8(bytes) {
        decode_utf8(bytes)
    } else {
        Seq::empty()
    }
}

/// The text that `bytes` encode, or the empty text when they are not well-formed UTF-8.
pub fn from_utf8_or_empty(bytes: &[u8]) -> (r: &str)
    ensures
        r@ == text_or_empty(bytes@),
{
    match from_utf8(bytes) {
        Some(s) => s,
        None => {
            let empty = "";
            proof {
                reveal_strlit("");
            }
            assert(empty@ =~= Seq::<char>::empty());
            empty
        },
    }
}

/// What `String::from_utf8_lossy` makes of a byte sequence: well-formed runs are
/// decoded, each ill-formed one becomes U+FFFD.
pub uninterp spec fn utf8_lossy(bytes: Seq<u8>) -> Seq<char>;

/// `String::from_utf8_lossy`, owned. Its result is a function of the bytes, and for
/// well-formed UTF-8 it is the text that they encode.
#[verifier::external_body]
fn std_from_utf8_lossy(bytes: &[u8]) -> (r: String)
    ensures
        r@ == utf8_lossy(bytes@),
        valid_utf8(bytes@) ==> encode_utf8(r@) == bytes@,
{
    String::from_utf8_lossy(bytes).into_owned()
}

/// The text that `bytes` encode, with what is not well-formed UTF-8 replaced.
pub open spec fn lossy_text(bytes: Seq<u8>) -> Seq<char> {
    if valid_utf8(bytes) {
        decode_utf8(bytes)
    } else {
        utf8_lossy(bytes)
    }
}

/// Decodes `bytes`, replacing what is not well-formed UTF-8.
pub fn from_utf8_lossy(bytes: &[u8]) -> (r: String)
    ensures
        r@ == lossy_text(bytes@),
{
    let r = std_from_utf8_lossy(bytes);
    proof {
        if valid_utf8(bytes@) {
            lemma_decode_unique(bytes@, r@);
        }
    }
    r
}

/// Whether `needle` stands in `hay` at byte `at`.
fn bytes_at(hay: &[u8], needle: &[u8], at: usize) -> (r: bool)
    requires
        at + needle@.len() <= hay@.len(),
    ensures
        r == occurs_at(hay@, needle@, at as int),
{
    let end: usize = hay.len();
    let mut i: usize = 0;
    while i < needle.len()
        invariant
            i <= needle@.len(),
            at + needle@.len() <= hay@.len(),
            hay@.len() == end,
            forall|k: int| 0 <= k < i ==> hay@[at + k] == needle@[k],
        decreases needle@.len() - i,
    {
        if hay[at + i] != needle[i] {
            assert(hay@.subrange(at as int, at + needle@.len())[i as int] != needle@[i as int]);
            return false;
        }
        i = i + 1;
    }
    assert(hay@.subrange(at as int, at + needle@.len()) =~= needle@);
    true
}

/// Whether two byte strings are equal.
pub fn bytes_eq(a: &[u8], b: &[u8]) -> (r: bool)
    ensures
        r == (a@ == b@),
{
    if a.len() != b.len() {
        return false;
    }
    let r = bytes_at(a, b, 0);
    assert(a@.subrange(0, b@.len() as int) =~= a@);
    r
}

/// Whether two texts are equal.
pub fn str_eq(a: &str, b: &str) -> (r: bool)
    ensures
        r == (a@ == b@),
{
    let r = bytes_eq(a.as_bytes(), b.as_bytes());
    proof {
        if r {
            lemma_encode_injective(a@, b@);
        }
    }
    r
}

/// Whether `text` begins with `prefix`.
pub fn starts_with(text: &str, prefix: &str) -> (r: bool)
    ensures
        r == starts_with_text(text@, prefix@),
{
    let t = text.as_bytes();
    let p = prefix.as_bytes();
    p.len() <= t.len() && bytes_at(t, p, 0)
}

/// Whether `text` ends with `suffix`.
pub fn ends_with(text: &str, suffix: &str) -> (r: bool)
    ensures
        r == ends_with_text(text@, suffix@),
{
    let t = text.as_bytes();
    let s = suffix.as_bytes();
    s.len() <= t.len() && bytes_at(t, s, t.len() - s.len())
}

/// Whether `needle` is a substring of `text`.
pub fn contains(text: &str, needle: &str) -> (r: bool)
    ensures
        r == contains_text(text@, needle@),
{
    let t = text.as_bytes();
    let n = needle.as_bytes();
    if n.len() > t.len() {
        return false;
    }
    let last: usize = t.len() - n.len();
    let mut at: usize = 0;
    while at < last
        invariant
            n@.len() <= t@.len(),
            last == t@.len() - n@.len(),
            t@ == encode_utf8(text@),
            n@ == encode_utf8(needle@),
            at <= last,
            forall|k: int| 0 <= k < at ==> !occurs_at(t@, n@, k),
        decreases last - at,
    {
        if bytes_at(t, n, at) {
            return true;
        }
        at = at + 1;
    }
    bytes_at(t, n, last)
}

/// Whether `a` comes before `b` in the order that compares the first byte in which
/// they differ, and puts a proper prefix first.
pub open spec fn bytes_less(a: Seq<u8>, b: Seq<u8>) -> bool {
    exists|k: int|
        {
            &&& 0 <= k <= a.len()
            &&& k < b.len()
            &&& #[trigger] a.subrange(0, k) == b.subrange(0, k)
            &&& k == a.len() || a[k] < b[k]
        }
}

/// The number of leading bytes in which `a` and `b` agree.
fn common_prefix(a: &[u8], b: &[u8]) -> (n: usize)
    ensures
        n <= a@.len(),
        n <= b@.len(),
        a@.subrange(0, n as int) == b@.subrange(0, n as int),
        n < a@.len() && n < b@.len() ==> a@[n as int] != b@[n as int],
{
    let mut i: usize = 0;
    while i < a.len() && i < b.len() && a[i] == b[i]
        invariant
            i <= a@.len(),
            i <= b@.len(),
            forall|k: int| 0 <= k < i ==> a@[k] == b@[k],
        decreases a@.len() - i,
    {
        i = i + 1;
    }
    assert(a@.subrange(0, i as int) =~= b@.subrange(0, i as int));
    i
}

/// Compares two byte strings lexicographically.
pub fn compare_bytes(a: &[u8], b: &[u8]) -> (r: Ordering)
    ensures
        r == Ordering::Equal <==> a@ == b@,
        r == Ordering::Less <==> bytes_less(a@, b@),
        r == Ordering::Greater <==> bytes_less(b@, a@),
{
    let n: usize = common_prefix(a, b);
    proof {
        lemma_prefix_decides(a@, b@, n);
    }
    if n == a.len() && n == b.len() {
        Ordering::Equal
    } else if n == a.len() || (n < b.len() && a[n] < b[n]) {
        Ordering::Less
    } else {
        Ordering::Greater
    }
}

/// The byte after the common prefix decides the order.
proof fn lemma_prefix_decides(a: Seq<u8>, b: Seq<u8>, n: usize)
    requires
        n <= a.len(),
        n <= b.len(),
        a.subrange(0, n as int) == b.subrange(0, n as int),
        n < a.len() && n < b.len() ==> a[n as int] != b[n as int],
    ensures
        a == b <==> n == a.len() && n == b.len(),
        bytes_less(a, b) <==> n < b.len() && (n == a.len() || a[n as int] < b[n as int]),
        bytes_less(b, a) <==> n < a.len() && (n == b.len() || b[n as int] < a[n as int]),
{
    let i = n as int;
    if n == a.len() && n == b.len() {
        assert(a =~= a.subrange(0, i));
        assert(b =~= b.subrange(0, i));
    }
    assert forall|k: int| 0 <= k < i implies a[k] == b[k] by {
        assert(a[k] == a.subrange(0, i)[k]);
        assert(b[k] == b.subrange(0, i)[k]);
    }
    if n < a.len() && n < b.len() {
        assert forall|k: int| i < k <= a.len() && k <= b.len() implies a.subrange(0, k)
            != b.subrange(0, k) by {
            assert(a.subrange(0, k)[i] != b.subrange(0, k)[i]);
        }
    }
}

/// Whether `names` holds `name`.
pub fn contains_name(names: &Vec<String>, name: &str) -> (r: bool)
    ensures
        r == views(names@).contains(name@),
{
    let mut i: usize = 0;
    while i < names.len()
        invariant
            i <= names@.len(),
            forall|k: int| 0 <= k < i ==> views(names@)[k] != name@,
        decreases names@.len() - i,
    {
        if str_eq(names[i].as_str(), name) {
            assert(views(names@)[i as int] == name@);
            return true;
        }
        i = i + 1;
    }
    false
}

/// The texts that a sequence of strings holds.
pub open spec fn views(names: Seq<String>) -> Seq<Seq<char>> {
    names.map_values(|s: String| s@)
}

/// What `str::to_lowercase` makes of a text.
pub uninterp spec fn lowercased(s: Seq<char>) -> Seq<char>;

/// An ASCII character with the letters `A` to `Z` mapped to `a` to `z`.
pub open spec fn ascii_lower(c: char) -> char {
    if 'A' <= c <= 'Z' {
        (c as u32 + 32) as char
    } else {
        c
    }
}

/// `str::to_lowercase`. Its result is a function of the text, and in a text of ASCII characters
/// only the letters `A` to `Z` change.
#[verifier::external_body]
fn std_to_lowercase(s: &str) -> (r: String)
    ensures
        r@ == lowercased(s@),
        is_ascii_chars(s@) ==> r@ == s@.map_values(|c: char| ascii_lower(c)),
{
    s.to_lowercase()
}

/// The text in lower case.
pub open spec fn lower_text(s: Seq<char>) -> Seq<char> {
    if is_ascii_chars(s) {
        s.map_values(|c: char| ascii_lower(c))
    } else {
        lowercased(s)
    }
}

/// Puts a text in lower case.
pub fn to_lowercase(s: &str) -> (r: String)
    ensures
        r@ == lower_text(s@),
{
    std_to_lowercase(s)
}

/// A text without upper-case letters is its own lower case.
pub proof fn lemma_lower_text_fixed(s: Seq<char>)
    requires
        is_ascii_chars(s),
        forall|i: int| 0 <= i < s.len() ==> !('A' <= #[trigger] s[i] <= 'Z'),
    ensures
        lower_text(s) == s,
{
    assert(lower_text(s) =~= s);
}

/// A text of ASCII characters that lacks one of the characters of `needle` does not hold
/// `needle`.
pub proof fn lemma_lacks_character(hay: Seq<char>, needle: Seq<char>, i: int)
    requires
        is_ascii_chars(hay),
        is_ascii_chars(needle),
        0 <= i < needle.len(),
        !hay.contains(needle[i]),
    ensures
        !contains_text(hay, needle),
{
    is_ascii_chars_encode_utf8(hay);
    is_ascii_chars_encode_utf8(needle);
    let h = encode_utf8(hay);
    let n = encode_utf8(needle);
    assert forall|at: int| !occurs_at(h, n, at) by {
        if occurs_at(h, n, at) {
            assert(h.subrange(at, at + n.len())[i] == n[i]);
            assert(hay[at + i] == needle[i]);
        }
    }
}

/// A text of ASCII characters begins with `needle` where its first characters are those of
/// `needle`, and then holds it.
pub proof fn lemma_has_prefix(hay: Seq<char>, needle: Seq<char>)
    requires
        is_ascii_chars(hay),
        is_ascii_chars(needle),
        needle.len() <= hay.len(),
        hay.take(needle.len() as int) == needle,
    ensures
        contains_text(hay, needle),
{
    is_ascii_chars_encode_utf8(hay);
    is_ascii_chars_encode_utf8(needle);
    let h = encode_utf8(hay);
    let n = encode_utf8(needle);
    assert forall|k: int| 0 <= k < n.len() implies h[k] == n[k] by {
        assert(hay.take(needle.len() as int)[k] == needle[k]);
    }
    assert(h.subrange(0, n.len() as int) =~= n);
    assert(occurs_at(h, n, 0));
}

/// The encoding of two texts in a row is that of the first followed by that of the second.
pub proof fn lemma_encode_concat(a: Seq<char>, b: Seq<char>)
    ensures
        encode_utf8(a + b) == encode_utf8(a) + encode_utf8(b),
    decreases a.len(),
{
    if a.len() == 0 {
        assert(a + b =~= b);
        assert(encode_utf8(a) + encode_utf8(b) =~= encode_utf8(b));
    } else {
        lemma_encode_concat(a.drop_first(), b);
        assert((a + b).drop_first() =~= a.drop_first() + b);
        assert((a + b)[0] == a[0]);
        assert(encode_utf8(a + b) =~= encode_utf8(a) + encode_utf8(b));
    }
}

/// Where the bytes of `needle` occur in those of `hay`, `hay` is a text, `needle`, and a text.
proof fn lemma_occurrence_splits(hay: Seq<char>, needle: Seq<char>, at: int) -> (r: (
    Seq<char>,
    Seq<char>,
))
    requires
        needle.len() > 0,
        occurs_at(encode_utf8(hay), encode_utf8(needle), at),
    ensures
        hay == r.0 + needle + r.1,
        encode_utf8(r.0).len() == at,
{
    let h = encode_utf8(hay);
    let n = encode_utf8(needle);
    encode_utf8_valid_utf8(hay);
    encode_utf8_valid_utf8(needle);
    encode_utf8_decode_utf8(needle);
    assert(n.len() > 0) by {
        if n.len() == 0 {
            let none = Seq::<char>::empty();
            assert(n =~= encode_utf8(none));
            lemma_encode_injective(needle, none);
        }
    }
    assert(h.subrange(at, at + n.len())[0] == n[0]);
    is_char_boundary_start_end_of_seq(n);
    is_char_boundary_iff_not_is_continuation_byte(n, 0);
    is_char_boundary_iff_not_is_continuation_byte(h, at);
    valid_utf8_split(h, at);
    let first = h.subrange(0, at);
    let tail = h.subrange(at, h.len() as int);
    assert(tail.subrange(0, n.len() as int) =~= n);
    let last = tail.subrange(n.len() as int, tail.len() as int);
    if !valid_utf8(last) {
        partial_valid_partial_invalid_utf8(tail, n.len() as int);
    }
    let front = decode_utf8(first);
    let rest = decode_utf8(last);
    decode_utf8_encode_utf8(first);
    decode_utf8_encode_utf8(last);
    lemma_encode_concat(front, needle);
    lemma_encode_concat(front + needle, rest);
    assert(h =~= first + n + last);
    lemma_encode_injective(hay, front + needle + rest);
    (front, rest)
}

/// A text holds another exactly if it is some text, the other, and some text; it begins with
/// another exactly if it is the other and some text; and it ends with another exactly if it is
/// some text and the other.
pub proof fn law_substrings(hay: Seq<char>, needle: Seq<char>)
    ensures
        contains_text(hay, needle) <==> exists|front: Seq<char>, rest: Seq<char>|
            hay == #[trigger] (front + needle + rest),
        starts_with_text(hay, needle) <==> exists|rest: Seq<char>|
            hay == #[trigger] (needle + rest),
        ends_with_text(hay, needle) <==> exists|front: Seq<char>|
            hay == #[trigger] (front + needle),
{
    let h = encode_utf8(hay);
    let n = encode_utf8(needle);
    let none = Seq::<char>::empty();
    if exists|front: Seq<char>, rest: Seq<char>| hay == #[trigger] (front + needle + rest) {
        let (front, rest) = choose|front: Seq<char>, rest: Seq<char>|
            hay == #[trigger] (front + needle + rest);
        lemma_encode_concat(front, needle);
        lemma_encode_concat(front + needle, rest);
        let at = encode_utf8(front).len() as int;
        assert(h.subrange(at, at + n.len()) =~= n);
        assert(occurs_at(h, n, at));
    }
    if exists|rest: Seq<char>| hay == #[trigger] (needle + rest) {
        let rest = choose|rest: Seq<char>| hay == #[trigger] (needle + rest);
        lemma_encode_concat(needle, rest);
        assert(h.subrange(0, n.len() as int) =~= n);
    }
    if exists|front: Seq<char>| hay == #[trigger] (front + needle) {
        let front = choose|front: Seq<char>| hay == #[trigger] (front + needle);
        lemma_encode_concat(front, needle);
        let at = encode_utf8(front).len() as int;
        assert(h.subrange(at, at + n.len()) =~= n);
    }
    if needle.len() == 0 {
        assert(hay =~= needle + hay);
        assert(hay =~= hay + needle);
        assert(hay =~= hay + needle + needle);
    } else {
        if contains_text(hay, needle) {
            let at = choose|at: int| occurs_at(h, n, at);
            let (front, rest) = lemma_occurrence_splits(hay, needle, at);
            assert(hay == front + needle + rest);
        }
        if starts_with_text(hay, needle) {
            let (front, rest) = lemma_occurrence_splits(hay, needle, 0);
            assert(encode_utf8(front) =~= encode_utf8(none));
            lemma_encode_injective(front, none);
            assert(hay =~= needle + rest);
        }
        if ends_with_text(hay, needle) {
            let (front, rest) = lemma_occurrence_splits(hay, needle, h.len() - n.len());
            lemma_encode_concat(front, needle);
            lemma_encode_concat(front + needle, rest);
            assert(encode_utf8(rest) =~= encode_utf8(none));
            lemma_encode_injective(rest, none);
            assert(hay =~= front + needle);
        }
    }
}

/// The order of bytes is decided by the first byte in which two sequences differ, a sequence comes
/// before all that continue it, and nothing comes before itself.
pub proof fn law_byte_order(
    common: Seq<u8>,
    x: u8,
    y: u8,
    a: Seq<u8>,
    b: Seq<u8>,
)
    ensures
        x != y ==> (bytes_less(common + seq![x] + a, common + seq![y] + b) <==> x < y),
        bytes_less(common, common + seq![x] + a),
        !bytes_less(common + seq![x] + a, common),
        !bytes_less(common, common),
{
    let p = common + seq![x] + a;
    let q = common + seq![y] + b;
    let n = common.len() as int;
    assert(p.subrange(0, n) =~= common && q.subrange(0, n) =~= common);
    assert(common.subrange(0, n) =~= common);
    assert(p[n] == x && q[n] == y);
    if x > y && bytes_less(p, q) {
        let k = choose|k: int|
            {
                &&& 0 <= k <= p.len()
                &&& k < q.len()
                &&& #[trigger] p.subrange(0, k) == q.subrange(0, k)
                &&& k == p.len() || p[k] < q[k]
            };
        if k < n {
            assert(p[k] == common[k] && q[k] == common[k]);
        } else if k > n {
            assert(p.subrange(0, k)[n] == q.subrange(0, k)[n]);
        }
    }
}

/// The lower case of an ASCII text has a character for each of the text: letters lose their case,
/// whatever it was, and all else stays. Any other text is turned to lower case by the standard
/// library.
pub proof fn law_lower_text(s: Seq<char>, other: Seq<char>)
    requires
        is_ascii_chars(s),
        !is_ascii_chars(other),
    ensures
        lower_text(other) == lowercased(other),
        lower_text(s).len() == s.len(),
        forall|i: int|
            0 <= i < s.len() ==> {
                let c = #[trigger] s[i] as int;
                let low = lower_text(s)[i] as int;
                &&& !(65 <= low <= 90)
                &&& low == c || 65 <= c <= 90 && low == c + 32
            },
{
}

/// Bytes that encode a text are read as that text; all others are read as no text, or as the standard
/// library replaces what is no text in them.
pub proof fn law_text_of_bytes(s: Seq<char>, bytes: Seq<u8>)
    ensures
        text_or_empty(encode_utf8(s)) == s,
        lossy_text(encode_utf8(s)) == s,
        !valid_utf8(bytes) ==> text_or_empty(bytes).len() == 0,
        !valid_utf8(bytes) ==> lossy_text(bytes) == utf8_lossy(bytes),
{
    encode_utf8_valid_utf8(s);
    encode_utf8_decode_utf8(s);
}

} // verus!
