//! Decimal and hexadecimal numbers as text.

use vstd::prelude::*;
use vstd::utf8::is_ascii_chars;

verus! {

/// The character for a digit below sixteen.
pub open spec fn digit_char(d: nat) -> char {
    if d < 10 {
        (48 + d) as char
    } else {
        (87 + d) as char
    }
}

pub open spec fn is_digit(c: char) -> bool {
    '0' <= c && c <= '9'
}

/// The value of a decimal digit.
pub open spec fn digit_value(c: char) -> nat {
    (c as u32 - 48) as nat
}

pub open spec fn all_digits(s: Seq<char>) -> bool {
    forall|i: int| 0 <= i < s.len() ==> is_digit(#[trigger] s[i])
}

/// The shortest decimal text for `n`.
pub open spec fn dec(n: nat) -> Seq<char>
    decreases n,
{
    if n < 10 {
        seq![digit_char(n)]
    } else {
        dec(n / 10).push(digit_char(n % 10))
    }
}

/// The number that these decimal digits spell.
pub open spec fn dec_value(s: Seq<char>) -> nat
    decreases s.len(),
{
    if s.len() == 0 {
        0
    } else {
        dec_value(s.drop_last()) * 10 + digit_value(s.last())
    }
}

/// The number that plain digits spell, if it is at most `max`.
pub open spec fn plain_nat(s: Seq<char>, max: nat) -> Option<nat> {
    if s.len() > 0 && all_digits(s) && dec_value(s) <= max {
        Some(dec_value(s))
    } else {
        None
    }
}

/// The number that a text spells: digits, with at most a `+` before them.
pub open spec fn parse_nat(s: Seq<char>) -> Option<nat> {
    let digits = if s.len() > 0 && s[0] == '+' {
        s.drop_first()
    } else {
        s
    };
    if digits.len() > 0 && all_digits(digits) {
        Some(dec_value(digits))
    } else {
        None
    }
}

/// The number that a text spells, if it is at most `max`.
pub open spec fn parse_nat_upto(s: Seq<char>, max: nat) -> Option<nat> {
    match parse_nat(s) {
        Some(n) => if n <= max {
            Some(n)
        } else {
            None
        },
        None => None,
    }
}

/// The integer that a text spells: digits, with at most a `+` or a `-` before them.
pub open spec fn parse_int(s: Seq<char>) -> Option<int> {
    if s.len() > 0 && s[0] == '-' {
        let digits = s.drop_first();
        if digits.len() > 0 && all_digits(digits) {
            Some(-dec_value(digits))
        } else {
            None
        }
    } else {
        match parse_nat(s) {
            Some(n) => Some(n as int),
            None => None,
        }
    }
}

/// The integer that a text spells, if an `i64` holds it.
pub open spec fn parse_i64(s: Seq<char>) -> Option<int> {
    match parse_int(s) {
        Some(n) => if i64::MIN <= n <= i64::MAX {
            Some(n)
        } else {
            None
        },
        None => None,
    }
}

/// Decimal text consists of digits and spells its number.
pub proof fn lemma_dec(n: nat)
    ensures
        dec(n).len() > 0,
        all_digits(dec(n)),
        dec_value(dec(n)) == n,
    decreases n,
{
    if n < 10 {
        reveal_with_fuel(dec_value, 2);
        assert(dec(n).drop_last() =~= Seq::empty());
    } else {
        lemma_dec(n / 10);
        assert(dec(n).drop_last() =~= dec(n / 10));
    }
}

/// Parsing decimal text gives the number back.
pub proof fn lemma_parse_dec(n: nat)
    ensures
        parse_nat(dec(n)) == Some(n),
        parse_int(dec(n)) == Some(n as int),
{
    lemma_dec(n);
    assert(is_digit(dec(n)[0]));
}

/// A longer run of digits never spells a smaller number.
pub proof fn lemma_dec_value_grows(s: Seq<char>, i: int)
    requires
        0 <= i <= s.len(),
    ensures
        dec_value(s.take(i)) <= dec_value(s),
    decreases s.len() - i,
{
    if i < s.len() {
        lemma_dec_value_grows(s, i + 1);
        assert(s.take(i + 1).drop_last() =~= s.take(i));
    } else {
        assert(s.take(i) =~= s);
    }
}

/// The number that the digits from `start` on spell, if it is at most `max`.
fn digits_from(s: &[char], start: usize, max: u64) -> (value: Option<u64>)
    requires
        start <= s@.len(),
    ensures
        match value {
            Some(n) => s@.skip(start as int).len() > 0 && all_digits(s@.skip(start as int)) && n == dec_value(
                s@.skip(start as int),
            ) && n <= max,
            None => !(s@.skip(start as int).len() > 0 && all_digits(s@.skip(start as int)) && dec_value(
                s@.skip(start as int),
            ) <= max),
        },
{
    let ghost digits = s@.skip(start as int);
    if start == s.len() {
        return None;
    }
    let mut value: u64 = 0;
    let mut i: usize = start;
    assert(digits.take(0) =~= Seq::empty());
    while i < s.len()
        invariant
            start <= i <= s@.len(),
            digits == s@.skip(start as int),
            value <= max,
            value == dec_value(digits.take(i - start)),
            forall|j: int| 0 <= j < i - start ==> is_digit(#[trigger] digits[j]),
        decreases s@.len() - i,
    {
        let c = s[i];
        proof {
            assert(digits[i - start] == c);
            assert(digits.take(i - start + 1).drop_last() =~= digits.take(i - start));
        }
        if c < '0' || '9' < c {
            return None;
        }
        let next: u128 = value as u128 * 10 + (c as u8 - 48) as u128;
        assert(next == dec_value(digits.take(i - start + 1)));
        if next > max as u128 {
            proof {
                lemma_dec_value_grows(digits, i - start + 1);
            }
            return None;
        }
        value = next as u64;
        i = i + 1;
    }
    assert(digits.take(i - start) =~= digits);
    Some(value)
}

/// Parses plain digits that spell a number of at most `max`.
pub fn parse_plain(s: &[char], max: u64) -> (value: Option<u64>)
    ensures
        match value {
            Some(n) => plain_nat(s@, max as nat) == Some(n as nat),
            None => plain_nat(s@, max as nat) is None,
        },
        value is Some ==> value->0 <= max,
{
    assert(s@.skip(0) =~= s@);
    digits_from(s, 0, max)
}

/// Parses an unsigned number of at most `max`.
pub fn parse_unsigned(s: &[char], max: u64) -> (value: Option<u64>)
    ensures
        match value {
            Some(n) => parse_nat_upto(s@, max as nat) == Some(n as nat),
            None => parse_nat_upto(s@, max as nat) is None,
        },
        value is Some ==> value->0 <= max,
{
    assert(s@.skip(0) =~= s@);
    if s.len() > 0 && s[0] == '+' {
        assert(s@.skip(1) =~= s@.drop_first());
        digits_from(s, 1, max)
    } else {
        digits_from(s, 0, max)
    }
}

/// Parses an integer that an `i64` holds.
pub fn parse_signed(s: &[char]) -> (value: Option<i64>)
    ensures
        match value {
            Some(n) => parse_i64(s@) == Some(n as int),
            None => parse_i64(s@) is None,
        },
{
    if s.len() > 0 && s[0] == '-' {
        assert(s@.skip(1) =~= s@.drop_first());
        match digits_from(s, 1, 0x8000_0000_0000_0000) {
            Some(n) => Some((-(n as i128)) as i64),
            None => None,
        }
    } else {
        match parse_unsigned(s, 0x7fff_ffff_ffff_ffff) {
            Some(n) => Some(n as i64),
            None => None,
        }
    }
}

/// The shortest decimal text for `n`.
pub fn dec_text(n: u64) -> (text: String)
    ensures
        text@ == dec(n as nat),
    decreases n,
{
    let mut text = if n < 10 {
        String::new()
    } else {
        dec_text(n / 10)
    };
    text.push(((n % 10) as u8 + 48) as char);
    proof {
        if n < 10 {
            assert(text@ =~= dec(n as nat));
        }
    }
    text
}

/// Two hexadecimal digits for each byte.
pub open spec fn hex_bytes(bytes: Seq<u8>) -> Seq<char>
    decreases bytes.len(),
{
    if bytes.len() == 0 {
        Seq::empty()
    } else {
        hex_bytes(bytes.drop_last()) + seq![
            digit_char((bytes.last() / 16) as nat),
            digit_char((bytes.last() % 16) as nat),
        ]
    }
}

/// Hexadecimal text is ASCII, on one line.
pub proof fn lemma_hex_bytes(bytes: Seq<u8>)
    ensures
        hex_bytes(bytes).len() == 2 * bytes.len(),
        is_ascii_chars(hex_bytes(bytes)),
        !hex_bytes(bytes).contains('\n'),
    decreases bytes.len(),
{
    if bytes.len() > 0 {
        lemma_hex_bytes(bytes.drop_last());
    }
}

/// The character for a digit below sixteen.
pub fn digit_to_char(d: u8) -> (c: char)
    requires
        d < 16,
    ensures
        c == digit_char(d as nat),
{
    if d < 10 {
        (48 + d) as char
    } else {
        (87 + d) as char
    }
}

/// Two hexadecimal digits for each byte.
pub fn hex_text(bytes: &[u8]) -> (text: String)
    ensures
        text@ == hex_bytes(bytes@),
{
    let mut text = String::new();
    let mut i: usize = 0;
    assert(bytes@.take(0) =~= Seq::empty());
    while i < bytes.len()
        invariant
            i <= bytes@.len(),
            text@ == hex_bytes(bytes@.take(i as int)),
        decreases bytes@.len() - i,
    {
        assert(bytes@.take(i + 1).drop_last() =~= bytes@.take(i as int));
        text.push(digit_to_char(bytes[i] / 16));
        text.push(digit_to_char(bytes[i] % 16));
        i = i + 1;
        assert(text@ =~= hex_bytes(bytes@.take(i as int)));
    }
    assert(bytes@.take(i as int) =~= bytes@);
    text
}

/// The value of a hexadecimal digit of either case.
pub open spec fn hex_digit(c: char) -> Option<nat> {
    if '0' <= c && c <= '9' {
        Some((c as u32 - 48) as nat)
    } else if 'a' <= c && c <= 'f' {
        Some((c as u32 - 87) as nat)
    } else if 'A' <= c && c <= 'F' {
        Some((c as u32 - 55) as nat)
    } else {
        None
    }
}

pub open spec fn all_hex(s: Seq<char>) -> bool {
    forall|i: int| 0 <= i < s.len() ==> hex_digit(#[trigger] s[i]) is Some
}

/// The number that hexadecimal digits spell.
pub open spec fn hex_value(s: Seq<char>) -> nat
    decreases s.len(),
{
    if s.len() == 0 {
        0
    } else {
        hex_value(s.drop_last()) * 16 + hex_digit(s.last())->0
    }
}

/// The shortest hexadecimal text for `n`.
pub open spec fn hex(n: nat) -> Seq<char>
    decreases n,
{
    if n < 16 {
        seq![digit_char(n)]
    } else {
        hex(n / 16).push(digit_char(n % 16))
    }
}

pub proof fn lemma_hex(n: nat)
    ensures
        hex(n).len() > 0,
        all_hex(hex(n)),
        hex_value(hex(n)) == n,
    decreases n,
{
    if n < 16 {
        reveal_with_fuel(hex_value, 2);
        assert(hex(n).drop_last() =~= Seq::empty());
    } else {
        lemma_hex(n / 16);
        assert(hex(n).drop_last() =~= hex(n / 16));
    }
}

/// The value of a hexadecimal digit of either case.
pub fn hex_digit_of(c: char) -> (d: Option<u16>)
    ensures
        match d {
            Some(d) => hex_digit(c) == Some(d as nat) && d < 16,
            None => hex_digit(c) is None,
        },
{
    if '0' <= c && c <= '9' {
        Some((c as u8 - 48) as u16)
    } else if 'a' <= c && c <= 'f' {
        Some((c as u8 - 87) as u16)
    } else if 'A' <= c && c <= 'F' {
        Some((c as u8 - 55) as u16)
    } else {
        None
    }
}

/// Decimal text has no needless zero in front.
pub proof fn decimal_text_is_shortest(n: nat)
    ensures
        dec(n).len() > 1 ==> dec(n)[0] != '0',
        n == 0 ==> dec(n) == seq!['0'],
    decreases n,
{
    lemma_dec(n);
    if n >= 10 {
        decimal_text_is_shortest(n / 10);
        lemma_dec(n / 10);
        assert(dec(n)[0] == dec(n / 10)[0]);
        lemma_dec(n / 10 / 10);
        if n / 10 < 10 {
            assert(dec(n / 10) =~= seq![digit_char(n / 10)]);
        }
    }
}

/// A number is read from its digits, with zeros in front or not, and also behind a plus; with a minus
/// before it only where numbers below zero may stand.
#[verifier::rlimit(40)]
pub proof fn numbers_are_read(n: nat, max: nat)
    ensures
        parse_nat_upto(dec(n), max) == if n <= max {
            Some(n)
        } else {
            None
        },
        plain_nat(dec(n), max) == if n <= max {
            Some(n)
        } else {
            None
        },
        parse_nat(seq!['+'] + dec(n)) == Some(n),
        plain_nat(seq!['+'] + dec(n), max) is None,
        parse_nat(seq!['0'] + dec(n)) == Some(n),
        parse_int(seq!['-'] + dec(n)) == Some(-n),
        parse_nat(seq!['-'] + dec(n)) is None,
        parse_i64(dec(n)) == if n <= i64::MAX {
            Some(n as int)
        } else {
            None
        },
{
    lemma_dec(n);
    lemma_parse_dec(n);
    let plus = seq!['+'] + dec(n);
    let minus = seq!['-'] + dec(n);
    let zero = seq!['0'] + dec(n);
    assert(plus.drop_first() =~= dec(n));
    assert(minus.drop_first() =~= dec(n));
    assert(!is_digit(plus[0]));
    assert(!is_digit(minus[0]));
    assert(all_digits(zero)) by {
        assert forall|i: int| 0 <= i < zero.len() implies is_digit(#[trigger] zero[i]) by {
            if i > 0 {
                assert(zero[i] == dec(n)[i - 1]);
            }
        }
    }
    lemma_leading_zero(dec(n));
}

proof fn lemma_leading_zero(s: Seq<char>)
    ensures
        dec_value(seq!['0'] + s) == dec_value(s),
    decreases s.len(),
{
    let all = seq!['0'] + s;
    if s.len() > 0 {
        lemma_leading_zero(s.drop_last());
        assert(all.drop_last() =~= seq!['0'] + s.drop_last());
    } else {
        reveal_with_fuel(dec_value, 2);
        assert(all.drop_last() =~= Seq::empty());
    }
}

/// What holds anything but digits behind its sign, or nothing, is no number.
pub proof fn other_texts_are_no_numbers(s: Seq<char>, max: nat, i: int)
    ensures
        0 < i < s.len() && !('0' <= s[i] && s[i] <= '9') ==> parse_nat(s) is None && parse_int(s) is None
            && parse_nat_upto(s, max) is None && plain_nat(s, max) is None,
        s.len() == 0 ==> parse_nat(s) is None && parse_int(s) is None && plain_nat(s, max) is None,
        s.len() == 1 && !('0' <= s[0] && s[0] <= '9') ==> parse_nat(s) is None && parse_int(s) is None && plain_nat(
            s,
            max,
        ) is None,
{
    if 0 < i < s.len() && !is_digit(s[i]) {
        let rest = s.drop_first();
        assert(rest[i - 1] == s[i]);
        assert(!all_digits(rest));
        assert(!all_digits(s));
    }
    if s.len() == 1 && !is_digit(s[0]) {
        assert(!all_digits(s));
    }
}

/// A byte is spelled with two hexadecimal digits, the high one first, in lower case.
pub proof fn bytes_are_spelled_in_hexadecimal(bytes: Seq<u8>, i: int)
    requires
        0 <= i < bytes.len(),
    ensures
        ({
            let text = hex_bytes(bytes);
            let high = bytes[i] / 16;
            let low = bytes[i] % 16;
            &&& text.len() == 2 * bytes.len()
            &&& hex_digit(text[2 * i]) == Some(high as nat) && hex_digit(text[2 * i + 1]) == Some(low as nat)
            &&& !('A' <= text[2 * i] && text[2 * i] <= 'Z') && !('A' <= text[2 * i + 1] && text[2 * i + 1] <= 'Z')
        }),
    decreases bytes.len(),
{
    lemma_hex_bytes(bytes);
    lemma_hex_bytes(bytes.drop_last());
    if i < bytes.len() - 1 {
        bytes_are_spelled_in_hexadecimal(bytes.drop_last(), i);
    }
}

/// Hexadecimal digits count from zero to fifteen, in either case, and nothing else is one.
pub proof fn hexadecimal_digits_have_their_values(c: char)
    ensures
        '0' <= c && c <= '9' ==> hex_digit(c) == Some((c as u32 - '0' as u32) as nat),
        'a' <= c && c <= 'f' ==> hex_digit(c) == Some((c as u32 - 'a' as u32 + 10) as nat),
        'A' <= c && c <= 'F' ==> hex_digit(c) == Some((c as u32 - 'A' as u32 + 10) as nat),
        hex_digit(c) is Some ==> hex_digit(c)->0 < 16 && (('0' <= c && c <= '9') || ('a' <= c && c <= 'f') || ('A' <= c
            && c <= 'F')),
{
}

/// Hexadecimal text has no needless zero in front, and its letters are in lower case.
pub proof fn hexadecimal_text_is_shortest(n: nat, i: int)
    ensures
        hex(n).len() > 1 ==> hex(n)[0] != '0',
        0 <= i < hex(n).len() ==> ('0' <= hex(n)[i] && hex(n)[i] <= '9') || ('a' <= hex(n)[i] && hex(n)[i] <= 'f'),
    decreases n,
{
    lemma_hex(n);
    if n >= 16 {
        hexadecimal_text_is_shortest(n / 16, i);
        lemma_hex(n / 16);
        lemma_hex(n / 16 / 16);
        assert(hex(n)[0] == hex(n / 16)[0]);
        if n / 16 < 16 {
            assert(hex(n / 16) =~= seq![digit_char(n / 16)]);
        }
    }
}

} // verus!
