//! Decimal text of integers.

use vstd::prelude::*;
use vstd::string::*;
use vstd::utf8::*;

verus! {

/// The character of a decimal digit.
pub open spec fn digit(d: int) -> char {
    (48 + d) as char
}

/// The decimal digits of a natural number, without leading zeros.
pub open spec fn digits(n: nat) -> Seq<char>
    decreases n,
{
    if n < 10 {
        seq![digit(n as int)]
    } else {
        digits(n / 10).push(digit((n % 10) as int))
    }
}

/// The decimal text of an integer.
pub open spec fn decimal(n: int) -> Seq<char> {
    if n < 0 {
        seq!['-'] + digits((-n) as nat)
    } else {
        digits(n as nat)
    }
}

/// The text of a single digit.
fn digit_str(d: u8) -> (s: &'static str)
    requires
        d < 10,
    ensures
        s@ == seq![digit(d as int)],
{
    proof {
        reveal_strlit("0");
        reveal_strlit("1");
        reveal_strlit("2");
        reveal_strlit("3");
        reveal_strlit("4");
        reveal_strlit("5");
        reveal_strlit("6");
        reveal_strlit("7");
        reveal_strlit("8");
        reveal_strlit("9");
    }
    let s = match d {
        0 => "0",
        1 => "1",
        2 => "2",
        3 => "3",
        4 => "4",
        5 => "5",
        6 => "6",
        7 => "7",
        8 => "8",
        _ => "9",
    };
    assert(s@ =~= seq![digit(d as int)]);
    s
}

/// Appends the decimal digits of `n`.
fn append_digits(buf: &mut String, n: u128)
    ensures
        final(buf)@ == old(buf)@ + digits(n as nat),
    decreases n,
{
    let ghost start = buf@;
    if n >= 10 {
        append_digits(buf, n / 10);
    }
    buf.append(digit_str((n % 10) as u8));
    assert(buf@ =~= start + digits(n as nat));
}

/// The decimal text of `v`.
pub fn to_decimal(v: i128) -> (s: String)
    ensures
        s@ == decimal(v as int),
{
    let mut s = String::new();
    if v < 0 {
        let sign = "-";
        proof {
            reveal_strlit("-");
        }
        s.append(sign);
        assert(s@ =~= seq!['-']);
        let magnitude: u128 = if v == i128::MIN {
            170141183460469231731687303715884105728
        } else {
            (-v) as u128
        };
        append_digits(&mut s, magnitude);
    } else {
        append_digits(&mut s, v as u128);
        assert(s@ =~= decimal(v as int));
    }
    s
}

/// Whether a byte is an ASCII digit.
pub open spec fn is_digit(b: u8) -> bool {
    48 <= b <= 57
}

/// Whether all bytes are ASCII digits.
pub open spec fn all_digits(s: Seq<u8>) -> bool {
    forall|i: int| 0 <= i < s.len() ==> is_digit(#[trigger] s[i])
}

/// The number whose decimal digits are given.
pub open spec fn digits_value(s: Seq<u8>) -> int
    decreases s.len(),
{
    if s.len() == 0 {
        0
    } else {
        digits_value(s.drop_last()) * 10 + (s.last() - 48)
    }
}

/// Whether a text starts with a sign.
pub open spec fn signed_text(s: Seq<u8>) -> bool {
    s.len() > 0 && (s[0] == 45 || s[0] == 43)
}

/// The digits behind the sign, if there is one.
pub open spec fn behind_sign(s: Seq<u8>) -> Seq<u8> {
    if signed_text(s) {
        s.drop_first()
    } else {
        s
    }
}

/// The integer that a text denotes: an optional sign, then at least one digit and nothing else.
pub open spec fn denoted(s: Seq<u8>) -> Option<int> {
    let body = behind_sign(s);
    if body.len() == 0 || !all_digits(body) {
        None
    } else if s[0] == 45 {
        Some(-digits_value(body))
    } else {
        Some(digits_value(body))
    }
}

/// The 128-bit integer that a text denotes, or `None` where it denotes none or one that does not
/// fit.
pub open spec fn parsed_i128(s: Seq<u8>) -> Option<int> {
    match denoted(s) {
        Some(v) => if i128::MIN <= v <= i128::MAX {
            Some(v)
        } else {
            None
        },
        None => None,
    }
}

/// Parses the decimal text of a 128-bit integer.
pub fn parse_i128(s: &str) -> (r: Option<i128>)
    ensures
        match r {
            Some(v) => parsed_i128(encode_utf8(s@)) == Some(v as int),
            None => parsed_i128(encode_utf8(s@)) is None,
        },
{
    let bytes = s.as_bytes();
    let ghost all = bytes@;
    let len: usize = bytes.len();
    if len == 0 {
        return None;
    }
    let negative: bool = bytes[0] == 45;
    let start: usize = if bytes[0] == 45 || bytes[0] == 43 {
        1
    } else {
        0
    };
    let ghost body = behind_sign(all);
    assert(body.len() == len - start);
    assert(forall|k: int| 0 <= k < body.len() ==> body[k] == all[k + start]);
    if start == len {
        return None;
    }
    // The value is built up negated, so that the least integer is within reach.
    let mut acc: i128 = 0;
    let mut overflow: bool = false;
    let mut i: usize = start;
    while i < len
        invariant
            start <= i <= len,
            len == bytes@.len(),
            all == bytes@,
            all == encode_utf8(s@),
            acc <= 0,
            body == behind_sign(all),
            body.len() == len - start,
            body.len() > 0,
            forall|k: int| 0 <= k < body.len() ==> body[k] == all[k + start],
            forall|k: int| 0 <= k < i - start ==> is_digit(#[trigger] body[k]),
            overflow ==> digits_value(body.take(i - start)) > -i128::MIN,
            !overflow ==> acc == -digits_value(body.take(i - start)),
        decreases len - i,
    {
        let b: u8 = bytes[i];
        assert(body[i - start] == b);
        if b < 48 || b > 57 {
            assert(!is_digit(body[i - start]));
            assert(!all_digits(body));
            return None;
        }
        let d: i128 = (b - 48) as i128;
        proof {
            let next = body.take(i - start + 1);
            assert(next.drop_last() =~= body.take(i - start));
            assert(next.last() == b);
            assert(digits_value(next) == digits_value(body.take(i - start)) * 10 + d);
        }
        if overflow || acc < -17014118346046923173168730371588410572 || (acc
            == -17014118346046923173168730371588410572 && d > 8) {
            overflow = true;
        } else {
            acc = acc * 10 - d;
        }
        i = i + 1;
    }
    assert(body.take(len - start) =~= body);
    assert(all_digits(body));
    if overflow {
        None
    } else if negative {
        Some(acc)
    } else if acc == i128::MIN {
        None
    } else {
        Some(-acc)
    }
}

/// The digits of a number are ASCII digits and denote it.
proof fn lemma_digits_denote(n: nat)
    ensures
        digits(n).len() > 0,
        all_digits(encode_utf8(digits(n))),
        encode_utf8(digits(n)).len() == digits(n).len(),
        is_ascii_chars(digits(n)),
        digits_value(encode_utf8(digits(n))) == n,
    decreases n,
{
    let s = digits(n);
    if n >= 10 {
        lemma_digits_denote(n / 10);
    }
    assert forall|i: int| 0 <= i < s.len() implies 48 <= (#[trigger] s[i]) as u32 <= 57 by {
        lemma_digits_range(n, i);
    }
    is_ascii_chars_encode_utf8(s);
    let b = encode_utf8(s);
    assert forall|i: int| 0 <= i < b.len() implies is_digit(#[trigger] b[i]) by {
        assert(b[i] == s[i] as u8);
        assert(48 <= s[i] as u32 <= 57);
    }
    if n < 10 {
        assert(b.drop_last() =~= Seq::<u8>::empty());
        assert(b.last() == s[0] as u8);
        assert(digits_value(b.drop_last()) == 0);
    } else {
        let front = digits(n / 10);
        is_ascii_chars_encode_utf8(front);
        assert(b.drop_last() =~= encode_utf8(front)) by {
            assert forall|i: int| 0 <= i < front.len() implies b.drop_last()[i] == encode_utf8(
                front,
            )[i] by {
                assert(s[i] == front[i]);
            }
        }
        assert(b.last() == s.last() as u8);
    }
}

/// Every character of the digits of a number is a digit.
proof fn lemma_digits_range(n: nat, i: int)
    requires
        0 <= i < digits(n).len(),
    ensures
        48 <= digits(n)[i] as u32 <= 57,
    decreases n,
{
    if n >= 10 && i < digits(n / 10).len() {
        lemma_digits_range(n / 10, i);
    }
}

/// Parsing the decimal text of a 128-bit integer gives the integer back.
pub proof fn law_decimal_roundtrip(v: int)
    requires
        i128::MIN <= v <= i128::MAX,
    ensures
        parsed_i128(encode_utf8(decimal(v))) == Some(v),
{
    let text = decimal(v);
    let bytes = encode_utf8(text);
    if v < 0 {
        let body = digits((-v) as nat);
        lemma_digits_denote((-v) as nat);
        assert(is_ascii_chars(text)) by {
            assert forall|i: int| 0 <= i < text.len() implies (#[trigger] text[i] as u32) < 128 by {
                if i > 0 {
                    lemma_digits_range((-v) as nat, i - 1);
                }
            }
        }
        is_ascii_chars_encode_utf8(text);
        is_ascii_chars_encode_utf8(body);
        assert(bytes[0] == 45);
        assert(bytes.drop_first() =~= encode_utf8(body));
    } else {
        lemma_digits_denote(v as nat);
        lemma_digits_range(v as nat, 0);
        is_ascii_chars_encode_utf8(text);
        assert(bytes[0] == text[0] as u8);
    }
}

/// The decimal text of a number is that of its tenth and its last digit; a number below ten is its
/// digit, and a negative number is the text of its magnitude behind a minus sign.
pub proof fn law_decimal_text(n: int, d: int)
    requires
        n > 0,
        0 <= d < 10,
    ensures
        decimal(d).len() == 1 && decimal(d)[0] as int == 48 + d,
        decimal(10 * n + d).len() == decimal(n).len() + 1,
        decimal(10 * n + d).drop_last() == decimal(n),
        decimal(10 * n + d).last() as int == 48 + d,
        decimal(-n).len() == decimal(n).len() + 1,
        decimal(-n)[0] as int == 45,
        decimal(-n).drop_first() == decimal(n),
{
    let m = (10 * n + d) as nat;
    assert(m / 10 == n && m % 10 == d);
    assert(digits(m) == digits(n as nat).push(digit(d)));
    assert(decimal(10 * n + d).drop_last() =~= decimal(n));
    assert(decimal(-n).drop_first() =~= decimal(n));
}

/// A further digit makes a text denote ten times as much and the digit; a sign in front of digits
/// makes the number negative or keeps it. Nothing but digits may follow, and at least one must.
pub proof fn law_denoted_number(s: Seq<u8>, d: u8, other: u8)
    requires
        s.len() > 0,
        all_digits(s),
        48 <= d <= 57,
        !(48 <= other <= 57),
    ensures
        denoted(seq![d]) == Some(d - 48),
        denoted(s) matches Some(v) && {
            &&& denoted(s.push(d)) == Some(10 * v + (d - 48))
            &&& denoted(seq![45u8] + s) == Some(-v)
            &&& denoted(seq![43u8] + s) == Some(v)
        },
        denoted(s.push(other)) is None,
        denoted(Seq::empty()) is None,
        denoted(seq![45u8]) is None && denoted(seq![43u8]) is None,
{
    assert(!signed_text(s)) by {
        assert(is_digit(s[0]));
    }
    let more = s.push(d);
    assert(more.drop_last() =~= s);
    assert(all_digits(more)) by {
        assert forall|i: int| 0 <= i < more.len() implies is_digit(#[trigger] more[i]) by {
            if i < s.len() {
                assert(is_digit(s[i]));
            }
        }
    }
    let one = seq![d];
    assert(one.drop_last() =~= Seq::<u8>::empty());
    reveal_with_fuel(digits_value, 2);
    assert((seq![45u8] + s).drop_first() =~= s);
    assert((seq![43u8] + s).drop_first() =~= s);
    let bad = s.push(other);
    assert(bad[0] == s[0] && !signed_text(bad));
    assert(!is_digit(bad[s.len() as int]));
    assert(!all_digits(bad));
}

/// A number is parsed as what it denotes if it fits in 128 bits, and not at all otherwise.
pub proof fn law_parsed_in_range(s: Seq<u8>)
    ensures
        parsed_i128(s) matches Some(v) ==> denoted(s) == Some(v)
            && -0x8000_0000_0000_0000_0000_0000_0000_0000 <= v
            <= 0x7fff_ffff_ffff_ffff_ffff_ffff_ffff_ffff,
        parsed_i128(s) is None ==> (denoted(s) matches Some(v) ==> !(
        -0x8000_0000_0000_0000_0000_0000_0000_0000 <= v
            <= 0x7fff_ffff_ffff_ffff_ffff_ffff_ffff_ffff)),
{
}

} // verus!
