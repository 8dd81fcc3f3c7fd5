//! Internet addresses and their text forms.

use vstd::prelude::*;
use vstd::slice::slice_subrange;

use crate::digits::{
    all_digits, all_hex, dec, dec_text, digit_char, digit_to_char, hex, hex_digit, hex_digit_of, hex_value, is_digit,
    lemma_dec, lemma_hex, parse_plain, plain_nat,
};
use crate::text::{
    first_index, join, lemma_first_index, lemma_split_join, split, split_at, split_once, split_once_at, views,
};

verus! {

/// An address of either family, as the number that its octets spell.
#[derive(Clone, Copy, Debug, PartialEq, Eq, Structural)]
pub enum IpAddr {
    V4(u32),
    V6(u128),
}

/// An address with a port.
#[derive(Clone, Copy, Debug, PartialEq, Eq, Structural)]
pub struct SocketAddr {
    pub ip: IpAddr,
    pub port: u16,
    /// The scope in which an address of the newer family holds, or zero.
    pub scope_id: u32,
}

// The dotted form.

/// The octet that a text spells: up to three digits, without needless zeros.
pub open spec fn octet_of(s: Seq<char>) -> Option<nat> {
    if s.len() > 3 || (s.len() > 1 && s[0] == '0') {
        None
    } else {
        plain_nat(s, 255)
    }
}

/// The number that four octets spell.
pub open spec fn octets_value(a: nat, b: nat, c: nat, d: nat) -> nat {
    ((a * 256 + b) * 256 + c) * 256 + d
}

/// The address that a dotted text spells.
pub open spec fn ipv4_of(s: Seq<char>) -> Option<nat> {
    let parts = split(s, '.');
    if parts.len() != 4 {
        None
    } else {
        match (octet_of(parts[0]), octet_of(parts[1]), octet_of(parts[2]), octet_of(parts[3])) {
            (Some(a), Some(b), Some(c), Some(d)) => Some(octets_value(a, b, c, d)),
            _ => None,
        }
    }
}

/// The dotted text of an address.
pub open spec fn ipv4_text(ip: u32) -> Seq<char> {
    join(
        seq![
            dec((ip / 0x100_0000) as nat),
            dec((ip / 0x1_0000 % 0x100) as nat),
            dec((ip / 0x100 % 0x100) as nat),
            dec((ip % 0x100) as nat),
        ],
        seq!['.'],
    )
}

proof fn lemma_octet(n: nat)
    requires
        n < 256,
    ensures
        octet_of(dec(n)) == Some(n),
        !dec(n).contains('.'),
        !dec(n).contains(':'),
        dec(n).len() <= 3,
{
    lemma_dec(n);
    reveal_with_fuel(dec, 3);
    let text = dec(n);
    assert(text.len() <= 3);
    assert(text.len() > 1 ==> text[0] != '0') by {
        if 10 <= n && n < 100 {
            assert(text[0] == digit_char(n / 10));
        } else if n >= 100 {
            assert(text[0] == digit_char(n / 100));
        }
    }
    assert forall|c: char| c == '.' || c == ':' implies !text.contains(c) by {
        if text.contains(c) {
            let i = choose|i: int| 0 <= i < text.len() && text[i] == c;
            assert(is_digit(text[i]));
        }
    }
}

/// A dotted text gives its address back.
pub proof fn ipv4_round_trip(ip: u32)
    ensures
        ipv4_of(ipv4_text(ip)) == Some(ip as nat),
{
    let a = (ip / 0x100_0000) as nat;
    let b = (ip / 0x1_0000 % 0x100) as nat;
    let c = (ip / 0x100 % 0x100) as nat;
    let d = (ip % 0x100) as nat;
    lemma_octet(a);
    lemma_octet(b);
    lemma_octet(c);
    lemma_octet(d);
    lemma_split_join(seq![dec(a), dec(b), dec(c), dec(d)], '.');
    assert(octets_value(a, b, c, d) == ip);
}

fn parse_octet(s: &[char]) -> (octet: Option<u32>)
    ensures
        match octet {
            Some(n) => octet_of(s@) == Some(n as nat) && n < 256,
            None => octet_of(s@) is None,
        },
{
    if s.len() > 3 || (s.len() > 1 && s[0] == '0') {
        return None;
    }
    match parse_plain(s, 255) {
        Some(n) => Some(n as u32),
        None => None,
    }
}

/// The address that a dotted text spells.
pub fn parse_ipv4(s: &[char]) -> (ip: Option<u32>)
    ensures
        match ip {
            Some(n) => ipv4_of(s@) == Some(n as nat),
            None => ipv4_of(s@) is None,
        },
{
    let parts = split_at(s, '.');
    assert(views(parts@).len() == parts@.len());
    if parts.len() != 4 {
        return None;
    }
    assert(forall|i: int| 0 <= i < 4 ==> views(parts@)[i] == (#[trigger] parts@[i])@);
    match (parse_octet(parts[0]), parse_octet(parts[1]), parse_octet(parts[2]), parse_octet(parts[3])) {
        (Some(a), Some(b), Some(c), Some(d)) => Some(((a * 256 + b) * 256 + c) * 256 + d),
        _ => None,
    }
}

fn ipv4_to_text(ip: u32) -> (text: String)
    ensures
        text@ == ipv4_text(ip),
{
    let text = dec_text((ip / 0x100_0000) as u64).concat(".").concat(
        dec_text((ip / 0x1_0000 % 0x100) as u64).as_str(),
    ).concat(".").concat(dec_text((ip / 0x100 % 0x100) as u64).as_str()).concat(".").concat(
        dec_text((ip % 0x100) as u64).as_str(),
    );
    proof {
        reveal_strlit(".");
        reveal_with_fuel(join, 5);
        assert("."@ =~= seq!['.']);
        assert(text@ =~= ipv4_text(ip));
    }
    text
}

// The colon form.

/// The word of 16 bits that a text spells: one to four hexadecimal digits.
pub open spec fn word_of(s: Seq<char>) -> Option<u16> {
    if 1 <= s.len() <= 4 && all_hex(s) {
        Some(hex_value(s) as u16)
    } else {
        None
    }
}

/// The number that words spell, the most significant first.
pub open spec fn word_value(words: Seq<u16>) -> nat
    decreases words.len(),
{
    if words.len() == 0 {
        0
    } else {
        word_value(words.drop_last()) * 0x1_0000 + words.last() as nat
    }
}

/// The `n` low words of a number, the most significant first.
pub open spec fn low_words(value: nat, n: nat) -> Seq<u16>
    decreases n,
{
    if n == 0 {
        Seq::empty()
    } else {
        low_words(value / 0x1_0000, (n - 1) as nat).push((value % 0x1_0000) as u16)
    }
}

/// The words that these texts spell, each a word.
pub open spec fn hex_words(parts: Seq<Seq<char>>) -> Option<Seq<u16>>
    decreases parts.len(),
{
    if parts.len() == 0 {
        Some(Seq::empty())
    } else {
        match (hex_words(parts.drop_last()), word_of(parts.last())) {
            (Some(front), Some(word)) => Some(front.push(word)),
            _ => None,
        }
    }
}

/// The words that these texts spell, where the last may be a dotted address, which makes two.
pub open spec fn mixed_words(parts: Seq<Seq<char>>) -> Option<Seq<u16>> {
    if hex_words(parts) is Some {
        hex_words(parts)
    } else if parts.len() > 0 {
        match (hex_words(parts.drop_last()), ipv4_of(parts.last())) {
            (Some(front), Some(ip)) => Some(front + low_words(ip, 2)),
            _ => None,
        }
    } else {
        None
    }
}

/// The texts between colons. A text of no length has none.
pub open spec fn colon_parts(s: Seq<char>) -> Seq<Seq<char>> {
    if s.len() == 0 {
        Seq::empty()
    } else {
        split(s, ':')
    }
}

/// Where two colons first follow each other, or the length of `s`.
pub open spec fn double_colon(s: Seq<char>) -> int
    decreases s.len(),
{
    if s.len() < 2 {
        s.len() as int
    } else if s[0] == ':' && s[1] == ':' {
        0
    } else {
        1 + double_colon(s.drop_first())
    }
}

pub open spec fn zero_words(n: int) -> Seq<u16> {
    Seq::new(n as nat, |i: int| 0u16)
}

/// The words of the address that a colon text spells. Two colons stand for as many words of zero
/// as are missing, one at least.
pub open spec fn ipv6_words(s: Seq<char>) -> Option<Seq<u16>> {
    let i = double_colon(s);
    if i < s.len() {
        match (hex_words(colon_parts(s.take(i))), mixed_words(colon_parts(s.skip(i + 2)))) {
            (Some(head), Some(tail)) => if head.len() + tail.len() <= 7 {
                Some(head + zero_words(8 - head.len() - tail.len()) + tail)
            } else {
                None
            },
            _ => None,
        }
    } else {
        match mixed_words(colon_parts(s)) {
            Some(words) => if words.len() == 8 {
                Some(words)
            } else {
                None
            },
            None => None,
        }
    }
}

/// The address that a colon text spells.
pub open spec fn ipv6_of(s: Seq<char>) -> Option<nat> {
    match ipv6_words(s) {
        Some(words) => Some(word_value(words)),
        None => None,
    }
}

/// How many words of zero follow each other from position `i` on.
pub open spec fn zeros_from(words: Seq<u16>, i: int) -> int
    decreases words.len() - i,
{
    if 0 <= i < words.len() && words[i] == 0 {
        1 + zeros_from(words, i + 1)
    } else {
        0
    }
}

/// The longest run of zeros that starts before `n`: where it starts, and its length. Of runs of
/// one length the first counts.
pub open spec fn best_run(words: Seq<u16>, n: int) -> (int, int)
    decreases n,
{
    if n <= 0 {
        (0, 0)
    } else {
        let (start, len) = best_run(words, n - 1);
        if zeros_from(words, n - 1) > len {
            (n - 1, zeros_from(words, n - 1))
        } else {
            (start, len)
        }
    }
}

pub open spec fn word_texts(words: Seq<u16>) -> Seq<Seq<char>> {
    words.map_values(|word: u16| hex(word as nat))
}

/// Words with colons between them.
pub open spec fn words_text(words: Seq<u16>) -> Seq<char> {
    join(word_texts(words), seq![':'])
}

/// An address that stands for one of the other family.
pub open spec fn is_mapped(ip: u128) -> bool {
    ip / 0x1_0000_0000 == 0xffff
}

/// The colon text of an address. Two colons stand for the longest run of more than one zero; an
/// address that stands for one of the other family shows it in dotted form.
pub open spec fn ipv6_text(ip: u128) -> Seq<char> {
    let words = low_words(ip as nat, 8);
    let (start, len) = best_run(words, 8);
    if is_mapped(ip) {
        "::ffff:"@ + ipv4_text((ip % 0x1_0000_0000) as u32)
    } else if len > 1 {
        words_text(words.take(start)) + "::"@ + words_text(words.skip(start + len))
    } else {
        words_text(words)
    }
}

proof fn lemma_low_words(value: nat, n: nat)
    ensures
        low_words(value, n).len() == n,
        value < pow16(n) ==> word_value(low_words(value, n)) == value,
    decreases n,
{
    if n > 0 {
        lemma_low_words(value / 0x1_0000, (n - 1) as nat);
        assert(low_words(value, n).drop_last() =~= low_words(value / 0x1_0000, (n - 1) as nat));
    }
}

/// How many numbers `n` words can spell.
pub open spec fn pow16(n: nat) -> nat
    decreases n,
{
    if n == 0 {
        1
    } else {
        0x1_0000 * pow16((n - 1) as nat)
    }
}

proof fn lemma_pow16_values()
    ensures
        pow16(2) == 0x1_0000_0000,
        pow16(8) == 0x1_0000_0000_0000_0000_0000_0000_0000_0000,
{
    reveal_with_fuel(pow16, 9);
}

proof fn lemma_pow16_grows(m: nat, n: nat)
    requires
        m <= n,
    ensures
        pow16(m) <= pow16(n),
    decreases n,
{
    if m < n {
        lemma_pow16_grows(m, (n - 1) as nat);
    }
}

proof fn lemma_word_value_bound(words: Seq<u16>)
    ensures
        word_value(words) < pow16(words.len()),
    decreases words.len(),
{
    if words.len() > 0 {
        lemma_word_value_bound(words.drop_last());
    }
}

proof fn lemma_hex_value_bound(s: Seq<char>)
    requires
        all_hex(s),
        s.len() <= 4,
    ensures
        hex_value(s) < 0x1_0000,
        s.len() <= 3 ==> hex_value(s) < 0x1000,
{
    reveal_with_fuel(hex_value, 5);
    assert(forall|i: int| 0 <= i < s.len() ==> hex_digit(#[trigger] s[i])->0 < 16);
    if s.len() > 0 {
        assert(s.last() == s[s.len() - 1]);
        let t = s.drop_last();
        if t.len() > 0 {
            assert(t.last() == s[s.len() - 2]);
            let u = t.drop_last();
            if u.len() > 0 {
                assert(u.last() == s[s.len() - 3]);
                let v = u.drop_last();
                if v.len() > 0 {
                    assert(v.last() == s[s.len() - 4]);
                }
            }
        }
    }
}

proof fn lemma_word(word: u16)
    ensures
        word_of(hex(word as nat)) == Some(word),
        hex(word as nat).len() > 0,
        !hex(word as nat).contains(':'),
{
    let text = hex(word as nat);
    lemma_hex(word as nat);
    reveal_with_fuel(hex, 4);
    assert(text.len() <= 4);
    if text.contains(':') {
        let i = choose|i: int| 0 <= i < text.len() && text[i] == ':';
        assert(hex_digit(text[i]) is Some);
    }
}

proof fn lemma_hex_words(words: Seq<u16>)
    ensures
        hex_words(word_texts(words)) == Some(words),
    decreases words.len(),
{
    if words.len() > 0 {
        lemma_hex_words(words.drop_last());
        assert(word_texts(words).drop_last() =~= word_texts(words.drop_last()));
        lemma_word(words.last());
        assert(words.drop_last().push(words.last()) =~= words);
    } else {
        assert(words =~= Seq::empty());
    }
}

/// Texts that have some length and no colon.
spec fn between_colons(parts: Seq<Seq<char>>) -> bool {
    forall|i: int| 0 <= i < parts.len() ==> (#[trigger] parts[i]).len() > 0 && !parts[i].contains(':')
}

spec fn no_double_colon(s: Seq<char>) -> bool {
    forall|j: int| 0 <= j < s.len() - 1 ==> !(#[trigger] s[j] == ':' && s[j + 1] == ':')
}

proof fn lemma_word_texts(words: Seq<u16>)
    ensures
        between_colons(word_texts(words)),
{
    assert forall|i: int| 0 <= i < word_texts(words).len() implies (#[trigger] word_texts(words)[i]).len() > 0
        && !word_texts(words)[i].contains(':') by {
        lemma_word(words[i]);
    }
}

#[verifier::rlimit(60)]
proof fn lemma_joined(parts: Seq<Seq<char>>)
    requires
        between_colons(parts),
    ensures
        no_double_colon(join(parts, seq![':'])),
        parts.len() > 0 ==> join(parts, seq![':']).len() > 0 && join(parts, seq![':'])[0] != ':' && join(
            parts,
            seq![':'],
        ).last() != ':',
        colon_parts(join(parts, seq![':'])) == parts,
    decreases parts.len(),
{
    let text = join(parts, seq![':']);
    if parts.len() > 0 {
        let first = parts[0];
        assert(first.len() > 0 && !first.contains(':'));
        assert forall|j: int| 0 <= j < first.len() implies #[trigger] first[j] != ':' by {
            assert(first.contains(first[j]));
        }
        if parts.len() > 1 {
            let rest = parts.drop_first();
            assert forall|i: int| 0 <= i < rest.len() implies (#[trigger] rest[i]).len() > 0 && !rest[i].contains(
                ':',
            ) by {
                assert(rest[i] == parts[i + 1]);
            }
            lemma_joined(rest);
            let tail = join(rest, seq![':']);
            assert(text =~= first.push(':') + tail);
            assert forall|j: int| 0 <= j < text.len() - 1 implies !(#[trigger] text[j] == ':' && text[j + 1]
                == ':') by {
                if j < first.len() {
                    assert(text[j] == first[j]);
                } else if j == first.len() {
                    assert(text[j + 1] == tail[0]);
                } else {
                    assert(text[j] == tail[j - first.len() - 1]);
                    assert(text[j + 1] == tail[j - first.len()]);
                }
            }
            assert(text.last() == tail.last());
        } else {
            assert forall|j: int| 0 <= j < text.len() - 1 implies !(#[trigger] text[j] == ':' && text[j + 1]
                == ':') by {
                assert(text[j] == first[j]);
            }
        }
        lemma_split_join(parts, ':');
    } else {
        assert(parts =~= Seq::empty());
    }
}

proof fn lemma_double_colon(s: Seq<char>, i: int)
    requires
        0 <= i <= s.len(),
        forall|j: int| 0 <= j < i && j < s.len() - 1 ==> !(#[trigger] s[j] == ':' && s[j + 1] == ':'),
        i < s.len() ==> i + 1 < s.len() && s[i] == ':' && s[i + 1] == ':',
    ensures
        double_colon(s) == i,
    decreases s.len(),
{
    if s.len() >= 2 && i > 0 {
        assert(!(s[0] == ':' && s[1] == ':'));
        let rest = s.drop_first();
        assert forall|j: int| 0 <= j < i - 1 && j < rest.len() - 1 implies !(#[trigger] rest[j] == ':' && rest[j + 1]
            == ':') by {
            assert(rest[j] == s[j + 1]);
            assert(rest[j + 1] == s[j + 2]);
        }
        lemma_double_colon(rest, i - 1);
    }
}

proof fn lemma_double_colon_place(s: Seq<char>)
    ensures
        0 <= double_colon(s) <= s.len(),
        forall|j: int| 0 <= j < double_colon(s) && j < s.len() - 1 ==> !(#[trigger] s[j] == ':' && s[j + 1] == ':'),
        double_colon(s) < s.len() ==> double_colon(s) + 1 < s.len() && s[double_colon(s)] == ':' && s[double_colon(s)
            + 1] == ':',
    decreases s.len(),
{
    if s.len() >= 2 && !(s[0] == ':' && s[1] == ':') {
        let rest = s.drop_first();
        lemma_double_colon_place(rest);
        assert forall|j: int| 0 <= j < double_colon(s) && j < s.len() - 1 implies !(#[trigger] s[j] == ':' && s[j + 1]
            == ':') by {
            if j > 0 {
                assert(s[j] == rest[j - 1]);
                assert(s[j + 1] == rest[j]);
            }
        }
    }
}

proof fn lemma_zeros_from(words: Seq<u16>, i: int)
    requires
        0 <= i,
    ensures
        0 <= zeros_from(words, i),
        i <= words.len() ==> i + zeros_from(words, i) <= words.len(),
        forall|j: int| i <= j < i + zeros_from(words, i) ==> words[j] == 0,
    decreases words.len() - i,
{
    if i < words.len() && words[i] == 0 {
        lemma_zeros_from(words, i + 1);
    }
}

proof fn lemma_best_run(words: Seq<u16>, n: int)
    requires
        0 <= n <= words.len(),
    ensures
        0 <= best_run(words, n).0,
        0 <= best_run(words, n).1,
        best_run(words, n).0 + best_run(words, n).1 <= words.len(),
        forall|j: int| best_run(words, n).0 <= j < best_run(words, n).0 + best_run(words, n).1 ==> words[j] == 0,
    decreases n,
{
    if n > 0 {
        lemma_best_run(words, n - 1);
        lemma_zeros_from(words, n - 1);
    }
}

/// A colon text gives its address back.
#[verifier::rlimit(60)]
pub proof fn ipv6_round_trip(ip: u128)
    ensures
        ipv6_of(ipv6_text(ip)) == Some(ip as nat),
{
    let words = low_words(ip as nat, 8);
    let (start, len) = best_run(words, 8);
    let text = ipv6_text(ip);
    lemma_pow16_values();
    lemma_low_words(ip as nat, 8);
    lemma_best_run(words, 8);
    if is_mapped(ip) {
        lemma_mapped_text(ip);
    } else if len > 1 {
        let head = words.take(start);
        let tail = words.skip(start + len);
        let before = words_text(head);
        let after = words_text(tail);
        lemma_word_texts(head);
        lemma_word_texts(tail);
        lemma_joined(word_texts(head));
        lemma_joined(word_texts(tail));
        reveal_strlit("::");
        assert forall|j: int| 0 <= j < before.len() && j < text.len() - 1 implies !(#[trigger] text[j] == ':'
            && text[j + 1] == ':') by {
            assert(text[j] == before[j]);
            if j < before.len() - 1 {
                assert(text[j + 1] == before[j + 1]);
            }
        }
        lemma_double_colon(text, before.len() as int);
        assert(text.take(before.len() as int) =~= before);
        assert(text.skip(before.len() as int + 2) =~= after);
        lemma_hex_words(head);
        lemma_hex_words(tail);
        assert(head + zero_words(8 - head.len() - tail.len()) + tail =~= words);
    } else {
        lemma_word_texts(words);
        lemma_joined(word_texts(words));
        lemma_double_colon(text, text.len() as int);
        lemma_hex_words(words);
    }
}

#[verifier::rlimit(60)]
proof fn lemma_mapped_text(ip: u128)
    requires
        is_mapped(ip),
    ensures
        ipv6_of(ipv6_text(ip)) == Some(ip as nat),
{
    let low = (ip % 0x1_0000_0000) as u32;
    let dotted = ipv4_text(low);
    let text = ipv6_text(ip);
    let ffff = seq!['f', 'f', 'f', 'f'];
    let parts = seq![ffff, dotted];
    ipv4_round_trip(low);
    lemma_dotted(low);
    reveal_strlit("::ffff:");
    reveal_with_fuel(join, 3);
    assert(join(parts, seq![':']) =~= ffff + seq![':'] + dotted);
    assert(between_colons(parts));
    lemma_joined(parts);
    lemma_double_colon(text, 0);
    assert(text.take(0) =~= Seq::empty());
    assert(text.skip(2) =~= join(parts, seq![':']));
    reveal_with_fuel(hex_value, 5);
    assert(ffff.drop_last().drop_last().drop_last().drop_last() =~= Seq::empty());
    assert(hex_value(ffff) == 0xffff);
    assert(word_of(ffff) == Some(0xffffu16));
    reveal_with_fuel(hex_words, 3);
    assert(parts.drop_last() =~= seq![ffff]);
    assert(seq![ffff].drop_last() =~= Seq::empty());
    lemma_word_or_dotted(dotted);
    let tail = seq![0xffffu16] + low_words(low as nat, 2);
    assert(mixed_words(parts) == Some(tail)) by {
        assert(Seq::<u16>::empty().push(0xffffu16) =~= seq![0xffffu16]);
    }
    lemma_low_words(low as nat, 2);
    lemma_mapped_value(low);
    assert(Seq::<u16>::empty() + zero_words(5) + tail =~= zero_words(5) + tail);
}

proof fn lemma_mapped_value(low: u32)
    ensures
        word_value(zero_words(5) + (seq![0xffffu16] + low_words(low as nat, 2))) == 0xffff_0000_0000 + low,
{
    let marked = seq![0xffffu16] + low_words(low as nat, 2);
    lemma_low_words(low as nat, 2);
    lemma_pow16_values();
    lemma_zero_words(5);
    lemma_word_value_concat(zero_words(5), marked);
    lemma_word_value_concat(seq![0xffffu16], low_words(low as nat, 2));
    reveal_with_fuel(word_value, 2);
    assert(seq![0xffffu16].drop_last() =~= Seq::empty());
    assert(word_value(zero_words(5)) * pow16(marked.len()) == 0) by (nonlinear_arith)
        requires
            word_value(zero_words(5)) == 0,
    ;
}

proof fn lemma_zero_words(n: nat)
    ensures
        word_value(zero_words(n as int)) == 0,
    decreases n,
{
    if n > 0 {
        lemma_zero_words((n - 1) as nat);
        assert(zero_words(n as int).drop_last() =~= zero_words(n - 1));
    }
}

proof fn lemma_word_value_concat(a: Seq<u16>, b: Seq<u16>)
    ensures
        word_value(a + b) == word_value(a) * pow16(b.len()) + word_value(b),
    decreases b.len(),
{
    if b.len() == 0 {
        assert(a + b =~= a);
        assert(word_value(a) * pow16(0) == word_value(a)) by (nonlinear_arith)
            requires
                pow16(0) == 1,
        ;
    } else {
        let front = b.drop_last();
        lemma_word_value_concat(a, front);
        assert((a + b).last() == b.last());
        assert((a + b).drop_last() =~= a + front);
        let x = word_value(a) as int;
        let p = pow16(front.len()) as int;
        assert((x * p) * 0x1_0000 == x * (0x1_0000 * p)) by (nonlinear_arith);
        assert(pow16(b.len()) == 0x1_0000 * p);
    }
}

/// A dotted text holds no colon.
proof fn lemma_dotted(ip: u32)
    ensures
        ipv4_text(ip).len() > 0,
        !ipv4_text(ip).contains(':'),
{
    lemma_octet((ip / 0x100_0000) as nat);
    lemma_octet((ip / 0x1_0000 % 0x100) as nat);
    lemma_octet((ip / 0x100 % 0x100) as nat);
    lemma_octet((ip % 0x100) as nat);
    lemma_dec((ip / 0x100_0000) as nat);
    let a = dec((ip / 0x100_0000) as nat);
    let b = dec((ip / 0x1_0000 % 0x100) as nat);
    let c = dec((ip / 0x100 % 0x100) as nat);
    let d = dec((ip % 0x100) as nat);
    reveal_with_fuel(join, 5);
    let text = ipv4_text(ip);
    assert(text =~= a + seq!['.'] + (b + seq!['.'] + (c + seq!['.'] + d)));
    if text.contains(':') {
        let i = choose|i: int| 0 <= i < text.len() && text[i] == ':';
        let bs = a.len() + 1;
        let cs = bs + b.len() + 1;
        let ds = cs + c.len() + 1;
        if i < a.len() {
            assert(a.contains(a[i]));
        } else if bs <= i < bs + b.len() {
            assert(b.contains(b[i - bs]));
        } else if cs <= i < cs + c.len() {
            assert(c.contains(c[i - cs]));
        } else if ds <= i {
            assert(d.contains(d[i - ds]));
        }
    }
}

/// A dotted text is no word.
proof fn lemma_word_or_dotted(s: Seq<char>)
    requires
        ipv4_of(s) is Some,
    ensures
        word_of(s) is None,
{
    lemma_first_index(s, '.');
    if first_index(s, '.') == s.len() {
        assert(split(s, '.') =~= seq![s]);
    } else {
        assert(hex_digit(s[first_index(s, '.')]) is None);
    }
}

proof fn lemma_hex_words_front(parts: Seq<Seq<char>>, i: int)
    requires
        0 <= i <= parts.len(),
        hex_words(parts.take(i)) is None,
    ensures
        hex_words(parts) is None,
    decreases parts.len() - i,
{
    if i < parts.len() {
        assert(parts.take(i + 1).drop_last() =~= parts.take(i));
        lemma_hex_words_front(parts, i + 1);
    } else {
        assert(parts.take(i) =~= parts);
    }
}

fn parse_word(s: &[char]) -> (word: Option<u16>)
    ensures
        word == word_of(s@),
{
    if s.len() == 0 || s.len() > 4 {
        return None;
    }
    let mut value: u16 = 0;
    let mut i: usize = 0;
    assert(s@.take(0) =~= Seq::empty());
    while i < s.len()
        invariant
            i <= s@.len() <= 4,
            all_hex(s@.take(i as int)),
            value == hex_value(s@.take(i as int)),
            i < s@.len() ==> value < 0x1000,
        decreases s@.len() - i,
    {
        let ghost read = s@.take(i + 1);
        assert(read.drop_last() =~= s@.take(i as int));
        match hex_digit_of(s[i]) {
            Some(d) => {
                assert forall|j: int| 0 <= j < read.len() implies hex_digit(#[trigger] read[j]) is Some by {
                    if j < i {
                        assert(read[j] == s@.take(i as int)[j]);
                    }
                }
                proof {
                    lemma_hex_value_bound(read);
                }
                value = value * 16 + d;
            },
            None => {
                assert(hex_digit(s@[i as int]) is None);
                return None;
            },
        }
        i = i + 1;
    }
    assert(s@.take(i as int) =~= s@);
    Some(value)
}

/// The words that texts spell. The last may be a dotted address, where that is allowed.
fn parse_words(parts: &Vec<&[char]>, dotted: bool) -> (words: Option<Vec<u16>>)
    ensures
        match words {
            Some(words) => (if dotted {
                mixed_words(views(parts@))
            } else {
                hex_words(views(parts@))
            }) == Some(words@),
            None => (if dotted {
                mixed_words(views(parts@))
            } else {
                hex_words(views(parts@))
            }) is None,
        },
{
    let ghost all = views(parts@);
    let mut words: Vec<u16> = Vec::new();
    let mut i: usize = 0;
    assert(all.take(0) =~= Seq::empty());
    while i < parts.len()
        invariant
            i <= parts@.len(),
            all == views(parts@),
            hex_words(all.take(i as int)) == Some(words@),
        decreases parts@.len() - i,
    {
        proof {
            assert(all.take(i + 1).drop_last() =~= all.take(i as int));
            assert(all.take(i + 1).last() == parts@[i as int]@);
        }
        match parse_word(parts[i]) {
            Some(word) => {
                words.push(word);
            },
            None => {
                proof {
                    lemma_hex_words_front(all, i + 1);
                }
                if dotted && i + 1 == parts.len() {
                    assert(all.drop_last() =~= all.take(i as int));
                    assert(all.last() == parts@[i as int]@);
                    return match parse_ipv4(parts[i]) {
                        Some(ip) => {
                            let ghost front = words@;
                            words.push((ip / 0x1_0000) as u16);
                            words.push((ip % 0x1_0000) as u16);
                            proof {
                                reveal_with_fuel(low_words, 3);
                                assert(words@ =~= front + low_words(ip as nat, 2));
                            }
                            Some(words)
                        },
                        None => None,
                    };
                }
                proof {
                    if i + 1 < parts@.len() {
                        assert(all.drop_last().take(i + 1) =~= all.take(i + 1));
                        lemma_hex_words_front(all.drop_last(), i + 1);
                    }
                }
                return None;
            },
        }
        i = i + 1;
    }
    assert(all.take(i as int) =~= all);
    Some(words)
}

/// The texts between colons.
fn colon_parts_of<'a>(s: &'a [char]) -> (parts: Vec<&'a [char]>)
    ensures
        views(parts@) == colon_parts(s@),
{
    if s.len() == 0 {
        let parts: Vec<&'a [char]> = Vec::new();
        assert(views(parts@) =~= colon_parts(s@));
        parts
    } else {
        split_at(s, ':')
    }
}

/// Where two colons first follow each other.
fn find_double_colon(s: &[char]) -> (i: usize)
    ensures
        i == double_colon(s@),
        i <= s@.len(),
{
    let mut i: usize = 0;
    while i < s.len() && !(s.len() - i >= 2 && s[i] == ':' && s[i + 1] == ':')
        invariant
            i <= s@.len(),
            forall|j: int| 0 <= j < i && j < s@.len() - 1 ==> !(#[trigger] s@[j] == ':' && s@[j + 1] == ':'),
        decreases s@.len() - i,
    {
        i = i + 1;
    }
    proof {
        lemma_double_colon(s@, i as int);
    }
    i
}

/// The number that up to eight words spell.
fn value_of(words: &Vec<u16>) -> (value: u128)
    requires
        words@.len() <= 8,
    ensures
        value == word_value(words@),
{
    let mut value: u128 = 0;
    let mut i: usize = 0;
    assert(words@.take(0) =~= Seq::empty());
    while i < words.len()
        invariant
            i <= words@.len() <= 8,
            value == word_value(words@.take(i as int)),
        decreases words@.len() - i,
    {
        proof {
            let read = words@.take(i + 1);
            assert(read.drop_last() =~= words@.take(i as int));
            lemma_word_value_bound(read);
            lemma_pow16_grows(read.len(), 8);
            lemma_pow16_values();
        }
        value = value * 0x1_0000 + words[i] as u128;
        i = i + 1;
    }
    assert(words@.take(i as int) =~= words@);
    value
}

/// The address that a colon text spells.
pub fn parse_ipv6(s: &[char]) -> (ip: Option<u128>)
    ensures
        match ip {
            Some(n) => ipv6_of(s@) == Some(n as nat),
            None => ipv6_of(s@) is None,
        },
{
    let at = find_double_colon(s);
    if at < s.len() {
        proof {
            lemma_double_colon_place(s@);
        }
        let before = slice_subrange(s, 0, at);
        let after = slice_subrange(s, at + 2, s.len());
        assert(before@ =~= s@.take(at as int));
        assert(after@ =~= s@.skip(at + 2));
        let head = match parse_words(&colon_parts_of(before), false) {
            Some(head) => head,
            None => {
                return None;
            },
        };
        let mut tail = match parse_words(&colon_parts_of(after), true) {
            Some(tail) => tail,
            None => {
                return None;
            },
        };
        if head.len() > 7 || tail.len() > 7 - head.len() {
            return None;
        }
        let ghost front = head@;
        let ghost back = tail@;
        let mut words = head;
        let missing: usize = 8 - words.len() - tail.len();
        let mut fill: Vec<u16> = vec![0u16; missing];
        assert(fill@ =~= zero_words(missing as int));
        words.append(&mut fill);
        words.append(&mut tail);
        assert(words@ =~= front + zero_words(missing as int) + back);
        Some(value_of(&words))
    } else {
        match parse_words(&colon_parts_of(s), true) {
            Some(words) => if words.len() == 8 {
                Some(value_of(&words))
            } else {
                None
            },
            None => None,
        }
    }
}

fn low_words_of(value: u128, n: usize) -> (words: Vec<u16>)
    ensures
        words@ == low_words(value as nat, n as nat),
    decreases n,
{
    if n == 0 {
        Vec::new()
    } else {
        let mut words = low_words_of(value / 0x1_0000, n - 1);
        words.push((value % 0x1_0000) as u16);
        words
    }
}

fn word_to_text(word: u16) -> (text: String)
    ensures
        text@ == hex(word as nat),
    decreases word,
{
    let mut text = if word < 16 {
        String::new()
    } else {
        word_to_text(word / 16)
    };
    text.push(digit_to_char((word % 16) as u8));
    assert(text@ =~= hex(word as nat));
    text
}

/// The words from `start` to `end`, with colons between them.
fn words_to_text(words: &Vec<u16>, start: usize, end: usize) -> (text: String)
    requires
        start <= end <= words@.len(),
    ensures
        text@ == words_text(words@.subrange(start as int, end as int)),
{
    let ghost texts = word_texts(words@.subrange(start as int, end as int));
    let mut text = String::new();
    let mut i: usize = end;
    assert(texts.skip(end - start) =~= Seq::empty());
    while i > start
        invariant
            start <= i <= end <= words@.len(),
            texts == word_texts(words@.subrange(start as int, end as int)),
            text@ == join(texts.skip(i - start), seq![':']),
        decreases i,
    {
        i = i - 1;
        let mut front = word_to_text(words[i]);
        let ghost rest = texts.skip(i - start);
        assert(rest.drop_first() =~= texts.skip(i + 1 - start));
        assert(rest[0] == front@);
        if i + 1 < end {
            front.push(':');
            front.append(text.as_str());
            assert(front@ =~= rest[0] + seq![':'] + join(rest.drop_first(), seq![':']));
        }
        text = front;
    }
    assert(texts.skip(0) =~= texts);
    text
}

/// How many words of zero follow each other from position `i` on.
fn count_zeros(words: &Vec<u16>, i: usize) -> (n: usize)
    requires
        i <= words@.len(),
    ensures
        n == zeros_from(words@, i as int),
        i + n <= words@.len(),
    decreases words@.len() - i,
{
    if i < words.len() && words[i] == 0 {
        1 + count_zeros(words, i + 1)
    } else {
        0
    }
}

fn ipv6_to_text(ip: u128) -> (text: String)
    ensures
        text@ == ipv6_text(ip),
{
    if ip / 0x1_0000_0000 == 0xffff {
        return String::from_str("::ffff:").concat(ipv4_to_text((ip % 0x1_0000_0000) as u32).as_str());
    }
    let words = low_words_of(ip, 8);
    proof {
        lemma_low_words(ip as nat, 8);
    }
    let mut start: usize = 0;
    let mut len: usize = 0;
    let mut i: usize = 0;
    while i < 8
        invariant
            i <= 8,
            words@.len() == 8,
            start + len <= 8,
            (start as int, len as int) == best_run(words@, i as int),
        decreases 8 - i,
    {
        let n = count_zeros(&words, i);
        if n > len {
            start = i;
            len = n;
        }
        i = i + 1;
    }
    if len > 1 {
        assert(words@.subrange(0, start as int) =~= words@.take(start as int));
        assert(words@.subrange(start + len, 8) =~= words@.skip(start + len));
        words_to_text(&words, 0, start).concat("::").concat(words_to_text(&words, start + len, 8).as_str())
    } else {
        assert(words@.subrange(0, 8) =~= words@);
        words_to_text(&words, 0, 8)
    }
}

// Either family.

/// The address that a text spells.
pub open spec fn ip_of(s: Seq<char>) -> Option<IpAddr> {
    match ipv4_of(s) {
        Some(ip) => Some(IpAddr::V4(ip as u32)),
        None => match ipv6_of(s) {
            Some(ip) => Some(IpAddr::V6(ip as u128)),
            None => None,
        },
    }
}

/// The text of an address.
pub open spec fn ip_text(ip: IpAddr) -> Seq<char> {
    match ip {
        IpAddr::V4(ip) => ipv4_text(ip),
        IpAddr::V6(ip) => ipv6_text(ip),
    }
}

/// The scope that may stand behind an address: a `%` and a number.
pub open spec fn scoped_ipv6_of(s: Seq<char>) -> Option<(nat, nat)> {
    match split_once(s, '%') {
        Some((address, scope)) => match (ipv6_of(address), plain_nat(scope, u32::MAX as nat)) {
            (Some(ip), Some(scope)) => Some((ip, scope)),
            _ => None,
        },
        None => match ipv6_of(s) {
            Some(ip) => Some((ip, 0)),
            None => None,
        },
    }
}

/// The address and port that a text spells: `1.2.3.4:80`, or `[::1]:80`.
pub open spec fn socket_of(s: Seq<char>) -> Option<SocketAddr> {
    if s.len() > 0 && s[0] == '[' {
        match split_once(s.drop_first(), ']') {
            Some((address, after)) => if after.len() > 0 && after[0] == ':' {
                match (scoped_ipv6_of(address), plain_nat(after.drop_first(), 65535)) {
                    (Some((ip, scope)), Some(port)) => Some(
                        SocketAddr { ip: IpAddr::V6(ip as u128), port: port as u16, scope_id: scope as u32 },
                    ),
                    _ => None,
                }
            } else {
                None
            },
            None => None,
        }
    } else {
        match split_once(s, ':') {
            Some((address, port)) => match (ipv4_of(address), plain_nat(port, 65535)) {
                (Some(ip), Some(port)) => Some(
                    SocketAddr { ip: IpAddr::V4(ip as u32), port: port as u16, scope_id: 0 },
                ),
                _ => None,
            },
            None => None,
        }
    }
}

/// The text of an address with its port.
pub open spec fn socket_text(addr: SocketAddr) -> Seq<char> {
    match addr.ip {
        IpAddr::V4(ip) => ipv4_text(ip) + ":"@ + dec(addr.port as nat),
        IpAddr::V6(ip) => {
            let scope = if addr.scope_id == 0 {
                Seq::empty()
            } else {
                "%"@ + dec(addr.scope_id as nat)
            };
            "["@ + ipv6_text(ip) + scope + "]:"@ + dec(addr.port as nat)
        },
    }
}

impl IpAddr {
    /// The address that a text spells.
    pub fn parse(s: &[char]) -> (ip: Option<Self>)
        ensures
            ip == ip_of(s@),
    {
        match parse_ipv4(s) {
            Some(ip) => Some(IpAddr::V4(ip)),
            None => match parse_ipv6(s) {
                Some(ip) => Some(IpAddr::V6(ip)),
                None => None,
            },
        }
    }

    /// The text of the address.
    pub fn to_text(&self) -> (text: String)
        ensures
            text@ == ip_text(*self),
    {
        match self {
            IpAddr::V4(ip) => ipv4_to_text(*ip),
            IpAddr::V6(ip) => ipv6_to_text(*ip),
        }
    }
}

fn parse_scoped(s: &[char]) -> (parsed: Option<(u128, u32)>)
    ensures
        match parsed {
            Some((ip, scope)) => scoped_ipv6_of(s@) == Some((ip as nat, scope as nat)),
            None => scoped_ipv6_of(s@) is None,
        },
{
    match split_once_at(s, '%') {
        Some((address, scope)) => match (parse_ipv6(address), parse_plain(scope, 0xffff_ffff)) {
            (Some(ip), Some(scope)) => Some((ip, scope as u32)),
            _ => None,
        },
        None => match parse_ipv6(s) {
            Some(ip) => Some((ip, 0)),
            None => None,
        },
    }
}

impl SocketAddr {
    /// An address with a port.
    pub fn new(ip: IpAddr, port: u16) -> (addr: Self)
        ensures
            addr == (SocketAddr { ip, port, scope_id: 0 }),
    {
        SocketAddr { ip, port, scope_id: 0 }
    }

    /// The address and port that a text spells.
    pub fn parse(s: &[char]) -> (addr: Option<Self>)
        ensures
            addr == socket_of(s@),
    {
        if s.len() > 0 && s[0] == '[' {
            let inner = slice_subrange(s, 1, s.len());
            assert(inner@ =~= s@.drop_first());
            let (address, after) = match split_once_at(inner, ']') {
                Some(parts) => parts,
                None => {
                    return None;
                },
            };
            if after.len() == 0 || after[0] != ':' {
                return None;
            }
            let port = slice_subrange(after, 1, after.len());
            assert(port@ =~= after@.drop_first());
            match (parse_scoped(address), parse_plain(port, 65535)) {
                (Some((ip, scope_id)), Some(port)) => Some(
                    SocketAddr { ip: IpAddr::V6(ip), port: port as u16, scope_id },
                ),
                _ => None,
            }
        } else {
            let (address, port) = match split_once_at(s, ':') {
                Some(parts) => parts,
                None => {
                    return None;
                },
            };
            match (parse_ipv4(address), parse_plain(port, 65535)) {
                (Some(ip), Some(port)) => Some(SocketAddr::new(IpAddr::V4(ip), port as u16)),
                _ => None,
            }
        }
    }

    /// The text of the address and its port.
    pub fn to_text(&self) -> (text: String)
        ensures
            text@ == socket_text(*self),
    {
        match self.ip {
            IpAddr::V4(ip) => ipv4_to_text(ip).concat(":").concat(dec_text(self.port as u64).as_str()),
            IpAddr::V6(ip) => {
                let mut text = String::from_str("[").concat(ipv6_to_text(ip).as_str());
                if self.scope_id != 0 {
                    text = text.concat("%").concat(dec_text(self.scope_id as u64).as_str());
                }
                let text = text.concat("]:").concat(dec_text(self.port as u64).as_str());
                assert(text@ =~= socket_text(*self));
                text
            },
        }
    }
}

/// A text without dots and colons spells no address.
pub(crate) proof fn lemma_no_address(s: Seq<char>)
    requires
        !s.contains('.'),
        !s.contains(':'),
    ensures
        ip_of(s) is None,
{
    lemma_first_index(s, '.');
    lemma_first_index(s, ':');
    assert(first_index(s, '.') == s.len() && first_index(s, ':') == s.len());
    assert forall|j: int| 0 <= j < s.len() - 1 implies !(#[trigger] s[j] == ':' && s[j + 1] == ':') by {
        assert(s.contains(s[j]));
    }
    lemma_double_colon(s, s.len() as int);
    reveal_with_fuel(hex_words, 2);
}

/// The characters of which addresses are made.
spec fn address_chars(s: Seq<char>) -> bool {
    forall|i: int| 0 <= i < s.len() ==> hex_digit(#[trigger] s[i]) is Some || s[i] == ':' || s[i] == '.'
}

proof fn lemma_join_chars(parts: Seq<Seq<char>>, sep: char)
    requires
        sep == ':' || sep == '.',
        forall|i: int| 0 <= i < parts.len() ==> all_hex(#[trigger] parts[i]),
    ensures
        address_chars(join(parts, seq![sep])),
    decreases parts.len(),
{
    if parts.len() > 0 {
        assert(all_hex(parts[0]));
        let rest = parts.drop_first();
        assert forall|i: int| 0 <= i < rest.len() implies all_hex(#[trigger] rest[i]) by {
            assert(rest[i] == parts[i + 1]);
        }
        lemma_join_chars(rest, sep);
        let text = join(parts, seq![sep]);
        if parts.len() > 1 {
            let tail = join(rest, seq![sep]);
            assert forall|i: int| 0 <= i < text.len() implies hex_digit(#[trigger] text[i]) is Some || text[i] == ':'
                || text[i] == '.' by {
                if i < parts[0].len() {
                    assert(text[i] == parts[0][i]);
                } else if i > parts[0].len() {
                    assert(text[i] == tail[i - parts[0].len() - 1]);
                }
            }
        }
    }
}

proof fn lemma_dec_is_hex(n: nat)
    ensures
        all_hex(dec(n)),
{
    lemma_dec(n);
    assert forall|i: int| 0 <= i < dec(n).len() implies hex_digit(#[trigger] dec(n)[i]) is Some by {
        assert(is_digit(dec(n)[i]));
    }
}

proof fn lemma_ipv4_chars(ip: u32)
    ensures
        address_chars(ipv4_text(ip)),
{
    lemma_dec_is_hex((ip / 0x100_0000) as nat);
    lemma_dec_is_hex((ip / 0x1_0000 % 0x100) as nat);
    lemma_dec_is_hex((ip / 0x100 % 0x100) as nat);
    lemma_dec_is_hex((ip % 0x100) as nat);
    lemma_join_chars(
        seq![
            dec((ip / 0x100_0000) as nat),
            dec((ip / 0x1_0000 % 0x100) as nat),
            dec((ip / 0x100 % 0x100) as nat),
            dec((ip % 0x100) as nat),
        ],
        '.',
    );
}

proof fn lemma_words_chars(words: Seq<u16>)
    ensures
        address_chars(words_text(words)),
{
    let texts = word_texts(words);
    assert forall|i: int| 0 <= i < texts.len() implies all_hex(#[trigger] texts[i]) by {
        lemma_hex(words[i] as nat);
    }
    lemma_join_chars(texts, ':');
}

proof fn lemma_ipv6_chars(ip: u128)
    ensures
        address_chars(ipv6_text(ip)),
{
    let words = low_words(ip as nat, 8);
    let (start, len) = best_run(words, 8);
    lemma_ipv4_chars((ip % 0x1_0000_0000) as u32);
    lemma_words_chars(words.take(start));
    lemma_words_chars(words.skip(start + len));
    lemma_words_chars(words);
    reveal_strlit("::ffff:");
    reveal_strlit("::");
}

proof fn lemma_lacks(s: Seq<char>, c: char)
    requires
        address_chars(s),
        hex_digit(c) is None,
        c != ':',
        c != '.',
    ensures
        !s.contains(c),
{
    if s.contains(c) {
        let i = choose|i: int| 0 <= i < s.len() && s[i] == c;
        assert(hex_digit(s[i]) is Some || s[i] == ':' || s[i] == '.');
    }
}

proof fn lemma_plain_dec(n: nat, max: nat)
    requires
        n <= max,
    ensures
        plain_nat(dec(n), max) == Some(n),
        address_chars(dec(n)),
{
    lemma_dec(n);
    lemma_dec_is_hex(n);
}

/// The text of an address with its port gives both back.
#[verifier::rlimit(60)]
pub proof fn socket_round_trip(addr: SocketAddr)
    requires
        addr.ip is V4 ==> addr.scope_id == 0,
    ensures
        socket_of(socket_text(addr)) == Some(addr),
{
    let text = socket_text(addr);
    let port = dec(addr.port as nat);
    lemma_plain_dec(addr.port as nat, 65535);
    match addr.ip {
        IpAddr::V4(ip) => {
            let dotted = ipv4_text(ip);
            ipv4_round_trip(ip);
            lemma_dotted(ip);
            lemma_ipv4_chars(ip);
            reveal_strlit(":");
            assert(text =~= dotted.push(':') + port);
            crate::text::lemma_split_once_of(dotted, ':', port);
            lemma_lacks(dotted, '[');
            assert(dotted.contains(dotted[0]));
            assert(text[0] == dotted[0]);
        },
        IpAddr::V6(ip) => {
            let address = ipv6_text(ip);
            ipv6_round_trip(ip);
            lemma_ipv6_chars(ip);
            lemma_lacks(address, ']');
            lemma_lacks(address, '%');
            lemma_plain_dec(addr.scope_id as nat, u32::MAX as nat);
            let number = dec(addr.scope_id as nat);
            lemma_lacks(number, ']');
            reveal_strlit("[");
            reveal_strlit("%");
            reveal_strlit("]:");
            let inner = if addr.scope_id == 0 {
                address
            } else {
                address.push('%') + number
            };
            assert(text.drop_first() =~= inner.push(']') + port.insert(0, ':'));
            assert(!inner.contains(']')) by {
                if inner.contains(']') {
                    let i = choose|i: int| 0 <= i < inner.len() && inner[i] == ']';
                    if i < address.len() {
                        assert(address.contains(inner[i]));
                    } else if i > address.len() {
                        assert(number.contains(inner[i]));
                    }
                }
            }
            crate::text::lemma_split_once_of(inner, ']', port.insert(0, ':'));
            assert(port.insert(0, ':').drop_first() =~= port);
            if addr.scope_id == 0 {
                lemma_first_index(address, '%');
                if first_index(address, '%') < address.len() {
                    assert(address.contains('%'));
                }
            } else {
                crate::text::lemma_split_once_of(address, '%', number);
            }
        },
    }
}

/// The texts of addresses hold no slash.
pub proof fn addresses_hold_no_slash(ip: u32, long: u128)
    ensures
        !ipv4_text(ip).contains('/'),
        !ipv6_text(long).contains('/'),
{
    lemma_ipv4_chars(ip);
    lemma_ipv6_chars(long);
    lemma_lacks(ipv4_text(ip), '/');
    lemma_lacks(ipv6_text(long), '/');
}

/// An address is written as its four bytes in decimal with dots between them, the most significant
/// first.
#[verifier::rlimit(40)]
pub proof fn dotted_texts_spell_four_bytes(a: u8, b: u8, c: u8, d: u8)
    ensures
        ipv4_text((a * 0x100_0000 + b * 0x1_0000 + c * 0x100 + d) as u32) == dec(a as nat) + seq!['.'] + dec(b as nat)
            + seq!['.'] + dec(c as nat) + seq!['.'] + dec(d as nat),
{
    let ip = (a * 0x100_0000 + b * 0x1_0000 + c * 0x100 + d) as u32;
    lemma_four_bytes(a, b, c, d);
    let parts = seq![dec(a as nat), dec(b as nat), dec(c as nat), dec(d as nat)];
    assert(ipv4_text(ip) == join(parts, seq!['.']));
    reveal_with_fuel(join, 5);
    assert(join(parts, seq!['.']) =~= dec(a as nat) + seq!['.'] + dec(b as nat) + seq!['.'] + dec(c as nat) + seq!['.'] + dec(
        d as nat,
    ));
}

#[verifier::rlimit(40)]
proof fn lemma_four_bytes(a: u8, b: u8, c: u8, d: u8)
    ensures
        ({
            let ip = (a * 0x100_0000 + b * 0x1_0000 + c * 0x100 + d) as u32;
            ip / 0x100_0000 == a && ip / 0x1_0000 % 0x100 == b && ip / 0x100 % 0x100 == c && ip % 0x100 == d
        }),
{
    let high = a * 0x100 + b;
    let low = c * 0x100 + d;
    let ip = a * 0x100_0000 + b * 0x1_0000 + c * 0x100 + d;
    assert(ip == high * 0x1_0000 + low);
    assert(0 <= low < 0x1_0000);
    assert(ip / 0x1_0000 == high && ip % 0x1_0000 == low);
    assert(high / 0x100 == a && high % 0x100 == b && low / 0x100 == c && low % 0x100 == d);
    assert(ip / 0x100_0000 == high / 0x100);
    assert(ip / 0x100 == high * 0x100 + c);
    assert(ip <= u32::MAX);
}

/// A part of a dotted text with a needless zero in front, or of more than three digits, or with
/// anything but digits, makes it no address.
pub proof fn dotted_texts_are_exact(parts: Seq<Seq<char>>, i: int)
    requires
        forall|j: int| 0 <= j < parts.len() ==> !(#[trigger] parts[j]).contains('.'),
        parts.len() > 0,
        0 <= i < parts.len(),
    ensures
        parts.len() != 4 ==> ipv4_of(join(parts, seq!['.'])) is None,
        parts[i].len() > 1 && parts[i][0] == '0' ==> ipv4_of(join(parts, seq!['.'])) is None,
        parts[i].len() > 3 || parts[i].len() == 0 ==> ipv4_of(join(parts, seq!['.'])) is None,
        !all_digits(parts[i]) ==> ipv4_of(join(parts, seq!['.'])) is None,
{
    lemma_split_join(parts, '.');
}

/// A text with a colon in it is no dotted address.
proof fn lemma_colon_is_not_dotted(s: Seq<char>)
    requires
        s.contains(':'),
    ensures
        ipv4_of(s) is None,
{
    let parts = split(s, '.');
    lemma_split_keeps(s);
    let i = choose|i: int| 0 <= i < parts.len() && (#[trigger] parts[i]).contains(':');
    let part = parts[i];
    let j = choose|j: int| 0 <= j < part.len() && part[j] == ':';
    assert(!is_digit(part[j]));
    assert(plain_nat(part, 255) is None);
    assert(octet_of(parts[i]) is None);
}

proof fn lemma_split_keeps(s: Seq<char>)
    requires
        s.contains(':'),
    ensures
        exists|i: int| 0 <= i < split(s, '.').len() && (#[trigger] split(s, '.')[i]).contains(':'),
    decreases s.len(),
{
    let at = first_index(s, '.');
    let parts = split(s, '.');
    lemma_first_index(s, '.');
    let k = choose|k: int| 0 <= k < s.len() && s[k] == ':';
    if at < s.len() {
        let rest = s.skip(at + 1);
        if k < at {
            assert(s.take(at)[k] == ':');
            assert(parts[0].contains(':'));
        } else {
            assert(rest[k - at - 1] == ':');
            lemma_split_keeps(rest);
            let i = choose|i: int| 0 <= i < split(rest, '.').len() && (#[trigger] split(rest, '.')[i]).contains(':');
            assert(parts[i + 1].contains(':'));
        }
    } else {
        assert(parts[0].contains(':'));
    }
}

/// The text of an address spells that address and no other, of either family.
#[verifier::rlimit(40)]
pub proof fn address_texts_are_read(ip: IpAddr)
    ensures
        ip_of(ip_text(ip)) == Some(ip),
{
    match ip {
        IpAddr::V4(short) => {
            ipv4_round_trip(short);
        },
        IpAddr::V6(long) => {
            let words = low_words(long as nat, 8);
            let (start, len) = best_run(words, 8);
            let text = ipv6_text(long);
            ipv6_round_trip(long);
            lemma_low_words(long as nat, 8);
            lemma_best_run(words, 8);
            reveal_strlit("::");
            reveal_strlit("::ffff:");
            if is_mapped(long) {
                assert(text[0] == ':');
            } else if len > 1 {
                assert(text[words_text(words.take(start)).len() as int] == ':');
            } else {
                let texts = word_texts(words);
                assert(text == texts[0] + seq![':'] + join(texts.drop_first(), seq![':']));
                assert(text[texts[0].len() as int] == ':');
            }
            assert(text.contains(':'));
            lemma_colon_is_not_dotted(text);
        },
    }
}

/// A dotted text of four numbers up to 255 spells the address with these bytes, and no other text of
/// four numbers spells one.
#[verifier::rlimit(40)]
pub proof fn four_bytes_make_an_address(a: nat, b: nat, c: nat, d: nat)
    ensures
        ({
            let text = dec(a) + seq!['.'] + dec(b) + seq!['.'] + dec(c) + seq!['.'] + dec(d);
            ipv4_of(text) == if a < 256 && b < 256 && c < 256 && d < 256 {
                Some(a * 0x100_0000 + b * 0x1_0000 + c * 0x100 + d)
            } else {
                None
            }
        }),
{
    let parts = seq![dec(a), dec(b), dec(c), dec(d)];
    let text = dec(a) + seq!['.'] + dec(b) + seq!['.'] + dec(c) + seq!['.'] + dec(d);
    reveal_with_fuel(join, 5);
    assert(join(parts, seq!['.']) =~= text);
    lemma_no_dot(a);
    lemma_no_dot(b);
    lemma_no_dot(c);
    lemma_no_dot(d);
    lemma_split_join(parts, '.');
    lemma_octet_of_dec(a);
    lemma_octet_of_dec(b);
    lemma_octet_of_dec(c);
    lemma_octet_of_dec(d);
}

proof fn lemma_no_dot(n: nat)
    ensures
        !dec(n).contains('.'),
{
    lemma_dec(n);
    let text = dec(n);
    if text.contains('.') {
        let i = choose|i: int| 0 <= i < text.len() && text[i] == '.';
        assert(is_digit(text[i]));
    }
}

proof fn lemma_octet_of_dec(n: nat)
    ensures
        octet_of(dec(n)) == if n < 256 {
            Some(n)
        } else {
            None
        },
{
    lemma_dec(n);
    if n < 256 {
        lemma_octet(n);
    }
}

/// The words of an address of the newer family are written in hexadecimal, without needless zeros and
/// in lower case, with colons between them. Two colons stand for its longest run of zeros, where that
/// has two words at least.
#[verifier::rlimit(40)]
pub proof fn colon_texts_spell_eight_words(ip: u128)
    requires
        ip / 0x1_0000_0000 != 0xffff,
    ensures
        ({
            let words = low_words(ip as nat, 8);
            let texts = words.map_values(|word: u16| hex(word as nat));
            let (start, len) = best_run(words, 8);
            &&& words.len() == 8
            &&& word_value(words) == ip
            &&& len <= 1 ==> ipv6_text(ip) == join(texts, seq![':'])
            &&& len > 1 ==> ipv6_text(ip) == join(texts.take(start), seq![':']) + seq![':', ':'] + join(
                texts.skip(start + len),
                seq![':'],
            )
            &&& len > 1 ==> forall|i: int| start <= i < start + len ==> words[i] == 0
        }),
{
    let words = low_words(ip as nat, 8);
    let texts = words.map_values(|word: u16| hex(word as nat));
    let (start, len) = best_run(words, 8);
    lemma_pow16_values();
    lemma_low_words(ip as nat, 8);
    lemma_best_run(words, 8);
    reveal_strlit("::");
    assert("::"@ =~= seq![':', ':']);
    assert(texts =~= word_texts(words));
    if len > 1 {
        assert(word_texts(words.take(start)) =~= texts.take(start));
        assert(word_texts(words.skip(start + len)) =~= texts.skip(start + len));
    }
}

/// No run of zeros is longer than the one that is written as two colons, and none as long comes
/// before it.
pub proof fn the_longest_run_is_shortened(words: Seq<u16>, at: int, n: int)
    requires
        0 <= at,
        n > 0,
        at + n <= words.len(),
        forall|i: int| at <= i < at + n ==> #[trigger] words[i] == 0,
    ensures
        ({
            let (start, len) = best_run(words, words.len() as int);
            len > n || (len == n && start <= at)
        }),
{
    lemma_zeros_at_least(words, at, n);
    lemma_best_run_at_least(words, words.len() as int, at);
}

proof fn lemma_zeros_at_least(words: Seq<u16>, at: int, n: int)
    requires
        0 <= at,
        n >= 0,
        at + n <= words.len(),
        forall|i: int| at <= i < at + n ==> #[trigger] words[i] == 0,
    ensures
        zeros_from(words, at) >= n,
    decreases n,
{
    lemma_zeros_from(words, at);
    if n > 0 {
        lemma_zeros_at_least(words, at + 1, n - 1);
    }
}

proof fn lemma_best_run_at_least(words: Seq<u16>, n: int, at: int)
    requires
        0 <= at < n <= words.len(),
    ensures
        best_run(words, n).1 >= zeros_from(words, at),
        best_run(words, n).1 == zeros_from(words, at) ==> best_run(words, n).0 <= at || zeros_from(words, at) == 0,
    decreases n,
{
    if at < n - 1 {
        lemma_best_run_at_least(words, n - 1, at);
    } else {
        lemma_best_run_start(words, n - 1);
    }
    lemma_zeros_from(words, at);
}

proof fn lemma_best_run_start(words: Seq<u16>, n: int)
    requires
        0 <= n <= words.len(),
    ensures
        0 <= best_run(words, n).0,
        n > 0 ==> best_run(words, n).0 < n,
        n == 0 ==> best_run(words, n) == (0int, 0int),
    decreases n,
{
    if n > 0 {
        lemma_best_run_start(words, n - 1);
    }
}

/// An address that stands for one of the older family shows it in dotted form.
pub proof fn mapped_addresses_show_the_dotted_form(ip: u32)
    ensures
        ipv6_text((0xffff_0000_0000 + ip) as u128) == "::ffff:"@ + ipv4_text(ip),
{
    let long = (0xffff_0000_0000 + ip) as u128;
    assert(long / 0x1_0000_0000 == 0xffff);
    assert(long % 0x1_0000_0000 == ip);
}

/// A text of eight words, or of words with two colons for as many words of zero as are missing, spells
/// the address of these words. A word has up to four hexadecimal digits, of either case and with zeros
/// in front or not.
#[verifier::rlimit(40)]
pub proof fn colon_texts_are_read(head: Seq<Seq<char>>, tail: Seq<Seq<char>>)
    requires
        forall|i: int| 0 <= i < head.len() ==> 1 <= (#[trigger] head[i]).len() <= 4 && all_hex(head[i]),
        forall|i: int| 0 <= i < tail.len() ==> 1 <= (#[trigger] tail[i]).len() <= 4 && all_hex(tail[i]),
    ensures
        head.len() == 8 ==> ipv6_words(join(head, seq![':'])) == Some(spelled_words(head)),
        head.len() + tail.len() <= 7 ==> ipv6_words(join(head, seq![':']) + seq![':', ':'] + join(tail, seq![':']))
            == Some(spelled_words(head) + zero_words(8 - head.len() - tail.len()) + spelled_words(tail)),
        head.len() + tail.len() > 7 ==> ipv6_words(join(head, seq![':']) + seq![':', ':'] + join(tail, seq![':']))
            is None,
{
    let before = join(head, seq![':']);
    let after = join(tail, seq![':']);
    lemma_hex_texts(head);
    lemma_hex_texts(tail);
    lemma_joined(head);
    lemma_joined(tail);
    if head.len() == 8 {
        lemma_double_colon(before, before.len() as int);
    }
    let text = before + seq![':', ':'] + after;
    assert forall|j: int| 0 <= j < before.len() && j < text.len() - 1 implies !(#[trigger] text[j] == ':' && text[j + 1]
        == ':') by {
        assert(text[j] == before[j]);
        if j < before.len() - 1 {
            assert(text[j + 1] == before[j + 1]);
        }
    }
    lemma_double_colon(text, before.len() as int);
    assert(text.take(before.len() as int) =~= before);
    assert(text.skip(before.len() as int + 2) =~= after);
}

/// The words that these texts spell in hexadecimal.
pub open spec fn spelled_words(texts: Seq<Seq<char>>) -> Seq<u16> {
    texts.map_values(|text: Seq<char>| hex_value(text) as u16)
}

proof fn lemma_hex_texts(texts: Seq<Seq<char>>)
    requires
        forall|i: int| 0 <= i < texts.len() ==> 1 <= (#[trigger] texts[i]).len() <= 4 && all_hex(texts[i]),
    ensures
        between_colons(texts),
        hex_words(texts) == Some(spelled_words(texts)),
        mixed_words(texts) == Some(spelled_words(texts)),
    decreases texts.len(),
{
    assert forall|i: int| 0 <= i < texts.len() implies (#[trigger] texts[i]).len() > 0 && !texts[i].contains(':') by {
        let text = texts[i];
        if text.contains(':') {
            let j = choose|j: int| 0 <= j < text.len() && text[j] == ':';
            assert(hex_digit(text[j]) is Some);
        }
    }
    if texts.len() > 0 {
        let front = texts.drop_last();
        assert forall|i: int| 0 <= i < front.len() implies 1 <= (#[trigger] front[i]).len() <= 4 && all_hex(
            front[i],
        ) by {
            assert(front[i] == texts[i]);
        }
        lemma_hex_texts(front);
        assert(texts[texts.len() - 1].len() >= 1);
        assert(spelled_words(texts) =~= spelled_words(front).push(hex_value(texts.last()) as u16));
    } else {
        assert(spelled_words(texts) =~= Seq::empty());
    }
}

/// An address with its port stands in brackets if and only if it is one of the newer family, and there
/// is always a port.
pub proof fn ports_stand_behind_addresses(text: Seq<char>)
    ensures
        socket_of(text) matches Some(addr) ==> (addr.ip is V6 <==> text[0] == '['),
        socket_of(text) is Some ==> text.contains(':'),
{
    if socket_of(text) is Some {
        if text[0] == '[' {
            let inner = text.drop_first();
            let i = first_index(inner, ']');
            lemma_first_index(inner, ']');
            assert(inner.skip(i + 1)[0] == text[i + 2]);
            assert(text.contains(text[i + 2]));
        } else {
            lemma_first_index(text, ':');
            assert(text.contains(text[first_index(text, ':')]));
        }
    }
}

} // verus!
