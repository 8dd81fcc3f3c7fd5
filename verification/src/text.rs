//! Text as a sequence of characters: splitting, trimming, and decimal numbers.

use vstd::prelude::*;
use vstd::slice::slice_subrange;
use vstd::utf8::{decode_utf8, encode_utf8, encode_utf8_decode_utf8, encode_utf8_valid_utf8, valid_utf8};

verus! {

// Between text and bytes.

/// `String::push` appends one character.
pub assume_specification[ String::push ](text: &mut String, c: char)
    ensures
        final(text)@ == old(text)@.push(c),
;

/// What `String::from_utf8_lossy` makes of bytes that are not UTF-8.
pub uninterp spec fn lossy_utf8(bytes: Seq<u8>) -> Seq<char>;

/// The text that bytes are taken for: what they spell in UTF-8, or else what
/// `String::from_utf8_lossy` makes of them.
pub open spec fn bytes_text(bytes: Seq<u8>) -> Seq<char> {
    if valid_utf8(bytes) {
        decode_utf8(bytes)
    } else {
        lossy_utf8(bytes)
    }
}

/// Calls `String::from_utf8_lossy`, which takes UTF-8 as it stands. What it makes of other bytes
/// goes by the name [`lossy_utf8`].
#[verifier::external_body]
pub(crate) fn lossy_text(bytes: &[u8]) -> (text: String)
    ensures
        text@ == (if valid_utf8(bytes@) {
            decode_utf8(bytes@)
        } else {
            lossy_utf8(bytes@)
        }),
{
    String::from_utf8_lossy(bytes).into_owned()
}

/// Calls `String::from_utf8`, which takes exactly the bytes that are UTF-8 and keeps them.
#[verifier::external_body]
pub(crate) fn utf8_text(bytes: Vec<u8>) -> (text: Option<String>)
    ensures
        text is Some <==> valid_utf8(bytes@),
        text is Some ==> text->0@ == decode_utf8(bytes@),
{
    String::from_utf8(bytes).ok()
}

/// The characters of a text.
pub fn chars_of(text: &str) -> (chars: Vec<char>)
    ensures
        chars@ == text@,
{
    let mut chars: Vec<char> = Vec::new();
    for c in iter: text.chars()
        invariant
            iter.seq() == text@,
            chars@ == text@.take(iter.index() as int),
    {
        chars.push(c);
        assert(text@.take(iter.index() as int).push(c) =~= text@.take(iter.index() + 1));
    }
    assert(text@.take(text@.len() as int) =~= text@);
    chars
}

/// The text that these characters make.
pub fn text_of(chars: &[char]) -> (text: String)
    ensures
        text@ == chars@,
{
    let mut text = String::new();
    let mut i: usize = 0;
    while i < chars.len()
        invariant
            i <= chars@.len(),
            text@ == chars@.take(i as int),
        decreases chars@.len() - i,
    {
        text.push(chars[i]);
        i = i + 1;
        assert(chars@.take(i as int) =~= chars@.take(i - 1).push(chars@[i - 1]));
    }
    assert(chars@.take(i as int) =~= chars@);
    text
}


// Searching and splitting.

/// Where `c` first stands in `s`, or the length of `s`.
pub open spec fn first_index(s: Seq<char>, c: char) -> int
    decreases s.len(),
{
    if s.len() == 0 || s[0] == c {
        0
    } else {
        1 + first_index(s.drop_first(), c)
    }
}

/// Where `c` last stands in `s`, or -1.
pub open spec fn last_index(s: Seq<char>, c: char) -> int
    decreases s.len(),
{
    if s.len() == 0 {
        -1
    } else if s.last() == c {
        s.len() - 1
    } else {
        last_index(s.drop_last(), c)
    }
}

/// What stands before and after the first `c`.
pub open spec fn split_once(s: Seq<char>, c: char) -> Option<(Seq<char>, Seq<char>)> {
    let i = first_index(s, c);
    if i < s.len() {
        Some((s.take(i), s.skip(i + 1)))
    } else {
        None
    }
}

/// What stands before and after the last `c`.
pub open spec fn rsplit_once(s: Seq<char>, c: char) -> Option<(Seq<char>, Seq<char>)> {
    let i = last_index(s, c);
    if i >= 0 {
        Some((s.take(i), s.skip(i + 1)))
    } else {
        None
    }
}

/// The pieces between the `c`s.
pub open spec fn split(s: Seq<char>, c: char) -> Seq<Seq<char>>
    decreases s.len(),
{
    let i = first_index(s, c);
    proof {
        lemma_first_index(s, c);
    }
    if i < s.len() {
        seq![s.take(i)] + split(s.skip(i + 1), c)
    } else {
        seq![s]
    }
}

/// The pieces with `sep` between them.
pub open spec fn join(parts: Seq<Seq<char>>, sep: Seq<char>) -> Seq<char>
    decreases parts.len(),
{
    if parts.len() == 0 {
        Seq::empty()
    } else if parts.len() == 1 {
        parts[0]
    } else {
        parts[0] + sep + join(parts.drop_first(), sep)
    }
}

/// The characters behind each slice.
pub open spec fn views(parts: Seq<&[char]>) -> Seq<Seq<char>> {
    parts.map_values(|part: &[char]| part@)
}

pub open spec fn string_views(parts: Seq<String>) -> Seq<Seq<char>> {
    parts.map_values(|part: String| part@)
}

/// The pieces with a character between them.
pub fn joined(parts: &Vec<String>, sep: char) -> (text: String)
    ensures
        text@ == join(string_views(parts@), seq![sep]),
{
    let ghost all = string_views(parts@);
    let mut text = String::new();
    let mut i: usize = parts.len();
    assert(all.skip(i as int) =~= Seq::empty());
    while i > 0
        invariant
            i <= parts@.len(),
            all == string_views(parts@),
            text@ == join(all.skip(i as int), seq![sep]),
        decreases i,
    {
        i = i - 1;
        let mut front = parts[i].clone();
        let ghost rest = all.skip(i as int);
        assert(rest.drop_first() =~= all.skip(i + 1));
        assert(rest[0] == front@);
        if i + 1 < parts.len() {
            front.push(sep);
            front.append(text.as_str());
            assert(front@ =~= rest[0] + seq![sep] + join(rest.drop_first(), seq![sep]));
        }
        text = front;
    }
    assert(all.skip(0) =~= all);
    text
}

pub proof fn lemma_first_index(s: Seq<char>, c: char)
    ensures
        0 <= first_index(s, c) <= s.len(),
        forall|j: int| 0 <= j < first_index(s, c) ==> s[j] != c,
        first_index(s, c) < s.len() ==> s[first_index(s, c)] == c,
    decreases s.len(),
{
    if s.len() > 0 && s[0] != c {
        let rest = s.drop_first();
        lemma_first_index(rest, c);
        assert forall|j: int| 0 <= j < first_index(s, c) implies s[j] != c by {
            if j > 0 {
                assert(s[j] == rest[j - 1]);
            }
        }
    }
}

pub proof fn lemma_first_index_is(s: Seq<char>, c: char, i: int)
    requires
        0 <= i <= s.len(),
        forall|j: int| 0 <= j < i ==> s[j] != c,
        i < s.len() ==> s[i] == c,
    ensures
        first_index(s, c) == i,
{
    lemma_first_index(s, c);
    let found = first_index(s, c);
    if found < i {
        assert(s[found] != c);
    }
    if i < found {
        assert(s[i] != c);
    }
}

pub proof fn lemma_last_index(s: Seq<char>, c: char)
    ensures
        -1 <= last_index(s, c) < s.len(),
        forall|j: int| last_index(s, c) < j < s.len() ==> s[j] != c,
        last_index(s, c) >= 0 ==> s[last_index(s, c)] == c,
    decreases s.len(),
{
    if s.len() > 0 && s.last() != c {
        let front = s.drop_last();
        lemma_last_index(front, c);
        assert forall|j: int| last_index(s, c) < j < s.len() implies s[j] != c by {
            if j < s.len() - 1 {
                assert(s[j] == front[j]);
            }
        }
    }
}

/// A text that was put together around its first `c` comes apart there.
pub proof fn lemma_split_once_of(before: Seq<char>, c: char, after: Seq<char>)
    requires
        !before.contains(c),
    ensures
        split_once(before.push(c) + after, c) == Some((before, after)),
{
    let s = before.push(c) + after;
    assert forall|j: int| 0 <= j < before.len() implies s[j] != c by {
        assert(s[j] == before[j]);
        assert(before.contains(before[j]));
    }
    lemma_first_index_is(s, c, before.len() as int);
    assert(s.take(before.len() as int) =~= before);
    assert(s.skip(before.len() as int + 1) =~= after);
}

/// Pieces without a `c` come back from the text that they were joined to.
pub proof fn lemma_split_join(parts: Seq<Seq<char>>, c: char)
    requires
        parts.len() > 0,
        forall|i: int| 0 <= i < parts.len() ==> !(#[trigger] parts[i]).contains(c),
    ensures
        split(join(parts, seq![c]), c) == parts,
    decreases parts.len(),
{
    let text = join(parts, seq![c]);
    lemma_first_index(text, c);
    if parts.len() == 1 {
        if first_index(text, c) < text.len() {
            assert(parts[0].contains(text[first_index(text, c)]));
        }
        assert(split(text, c) =~= parts);
    } else {
        let rest = parts.drop_first();
        assert forall|i: int| 0 <= i < rest.len() implies !(#[trigger] rest[i]).contains(c) by {
            assert(rest[i] == parts[i + 1]);
        }
        lemma_split_join(rest, c);
        let tail = join(rest, seq![c]);
        assert(text =~= parts[0].push(c) + tail);
        lemma_split_once_of(parts[0], c, tail);
        assert(split(text, c) =~= parts);
    }
}

/// The first position of `c`, or the length.
pub fn find_char(s: &[char], c: char) -> (i: usize)
    ensures
        i == first_index(s@, c),
        i <= s@.len(),
{
    let mut i: usize = 0;
    while i < s.len() && s[i] != c
        invariant
            i <= s@.len(),
            forall|j: int| 0 <= j < i ==> s@[j] != c,
        decreases s@.len() - i,
    {
        i = i + 1;
    }
    proof {
        lemma_first_index_is(s@, c, i as int);
    }
    i
}

/// What stands before and after the first `c`.
pub fn split_once_at<'a>(s: &'a [char], c: char) -> (parts: Option<(&'a [char], &'a [char])>)
    ensures
        match parts {
            Some((before, after)) => split_once(s@, c) == Some((before@, after@)),
            None => split_once(s@, c) is None,
        },
{
    let i = find_char(s, c);
    if i < s.len() {
        let before = slice_subrange(s, 0, i);
        let after = slice_subrange(s, i + 1, s.len());
        assert(before@ =~= s@.take(i as int));
        assert(after@ =~= s@.skip(i + 1));
        Some((before, after))
    } else {
        None
    }
}

/// What stands before and after the last `c`.
pub fn rsplit_once_at<'a>(s: &'a [char], c: char) -> (parts: Option<(&'a [char], &'a [char])>)
    ensures
        match parts {
            Some((before, after)) => rsplit_once(s@, c) == Some((before@, after@)),
            None => rsplit_once(s@, c) is None,
        },
{
    let mut end: usize = s.len();
    assert(s@.take(end as int) =~= s@);
    while end > 0
        invariant
            end <= s@.len(),
            last_index(s@, c) == last_index(s@.take(end as int), c),
        decreases end,
    {
        let ghost front = s@.take(end as int);
        if s[end - 1] == c {
            let before = slice_subrange(s, 0, end - 1);
            let after = slice_subrange(s, end, s.len());
            assert(before@ =~= s@.take(end - 1));
            assert(after@ =~= s@.skip(end as int));
            return Some((before, after));
        }
        assert(front.drop_last() =~= s@.take(end - 1));
        end = end - 1;
    }
    None
}

/// The pieces between the `c`s.
pub fn split_at<'a>(s: &'a [char], c: char) -> (parts: Vec<&'a [char]>)
    ensures
        views(parts@) == split(s@, c),
{
    let mut parts: Vec<&'a [char]> = Vec::new();
    let mut rest: &'a [char] = s;
    assert(views(parts@) + split(rest@, c) =~= split(s@, c));
    loop
        invariant_except_break
            views(parts@) + split(rest@, c) == split(s@, c),
        ensures
            views(parts@) == split(s@, c),
        decreases rest@.len(),
    {
        let ghost before_parts = views(parts@);
        let ghost before_rest = rest@;
        proof {
            lemma_first_index(rest@, c);
        }
        match split_once_at(rest, c) {
            Some((head, tail)) => {
                parts.push(head);
                rest = tail;
                assert(views(parts@) =~= before_parts.push(head@));
                assert(split(before_rest, c) =~= seq![head@] + split(tail@, c));
                assert(before_parts.push(head@) + split(tail@, c) =~= before_parts + split(before_rest, c));
            },
            None => {
                parts.push(rest);
                assert(views(parts@) =~= before_parts.push(before_rest));
                assert(split(before_rest, c) =~= seq![before_rest]);
                assert(before_parts + seq![before_rest] =~= before_parts.push(before_rest));
                break;
            },
        }
    }
    parts
}


// Trimming, and words.

/// The sets of characters that are trimmed.
#[derive(Clone, Copy, PartialEq, Eq, Structural)]
pub enum CharClass {
    /// The Unicode property `White_Space`.
    Whitespace,
    /// `[` and `]`.
    Bracket,
    /// `-`.
    Dash,
}

/// Whether `c` has the Unicode property `White_Space`.
pub open spec fn is_whitespace(c: char) -> bool {
    let v = c as u32;
    ||| 0x09 <= v <= 0x0d
    ||| v == 0x20
    ||| v == 0x85
    ||| v == 0xa0
    ||| v == 0x1680
    ||| 0x2000 <= v <= 0x200a
    ||| v == 0x2028
    ||| v == 0x2029
    ||| v == 0x202f
    ||| v == 0x205f
    ||| v == 0x3000
}

pub open spec fn in_class(class: CharClass, c: char) -> bool {
    match class {
        CharClass::Whitespace => is_whitespace(c),
        CharClass::Bracket => c == '[' || c == ']',
        CharClass::Dash => c == '-',
    }
}

/// How many characters at the start of `s` are all inside, or all outside, the class.
pub open spec fn span(s: Seq<char>, class: CharClass, inside: bool) -> int
    decreases s.len(),
{
    if s.len() > 0 && in_class(class, s[0]) == inside {
        1 + span(s.drop_first(), class, inside)
    } else {
        0
    }
}

/// `s` without the characters of the class at its start.
pub open spec fn trim_start(s: Seq<char>, class: CharClass) -> Seq<char> {
    s.skip(span(s, class, true))
}

/// `s` without the characters of the class at its end.
pub open spec fn trim_end(s: Seq<char>, class: CharClass) -> Seq<char>
    decreases s.len(),
{
    if s.len() > 0 && in_class(class, s.last()) {
        trim_end(s.drop_last(), class)
    } else {
        s
    }
}

/// `s` without the characters of the class at either end.
pub open spec fn trim(s: Seq<char>, class: CharClass) -> Seq<char> {
    trim_end(trim_start(s, class), class)
}

/// The words of `s`: its longest pieces without whitespace.
pub open spec fn words(s: Seq<char>) -> Seq<Seq<char>>
    decreases s.len(),
{
    let rest = trim_start(s, CharClass::Whitespace);
    let n = span(rest, CharClass::Whitespace, false);
    proof {
        lemma_span(s, CharClass::Whitespace, true);
        lemma_span(rest, CharClass::Whitespace, false);
    }
    if rest.len() == 0 {
        Seq::empty()
    } else {
        seq![rest.take(n)] + words(rest.skip(n))
    }
}

pub proof fn lemma_span(s: Seq<char>, class: CharClass, inside: bool)
    ensures
        0 <= span(s, class, inside) <= s.len(),
        forall|j: int| 0 <= j < span(s, class, inside) ==> in_class(class, s[j]) == inside,
        span(s, class, inside) < s.len() ==> in_class(class, s[span(s, class, inside)]) != inside,
    decreases s.len(),
{
    if s.len() > 0 && in_class(class, s[0]) == inside {
        let rest = s.drop_first();
        lemma_span(rest, class, inside);
        assert forall|j: int| 0 <= j < span(s, class, inside) implies in_class(class, s[j]) == inside by {
            if j > 0 {
                assert(s[j] == rest[j - 1]);
            }
        }
    }
}

pub proof fn lemma_span_is(s: Seq<char>, class: CharClass, inside: bool, n: int)
    requires
        0 <= n <= s.len(),
        forall|j: int| 0 <= j < n ==> in_class(class, s[j]) == inside,
        n < s.len() ==> in_class(class, s[n]) != inside,
    ensures
        span(s, class, inside) == n,
{
    lemma_span(s, class, inside);
    let found = span(s, class, inside);
    if found < n {
        assert(in_class(class, s[found]) == inside);
    }
    if n < found {
        assert(in_class(class, s[n]) == inside);
    }
}

/// Trimming takes one character of the class off either end of a text that has none of its own
/// there.
pub proof fn lemma_trim_wrapped(s: Seq<char>, before: char, after: char, class: CharClass)
    requires
        s.len() > 0,
        trim(s, class) == s,
        in_class(class, before),
        in_class(class, after),
    ensures
        trim(seq![before] + s + seq![after], class) == s,
{
    let wrapped = seq![before] + s + seq![after];
    lemma_trim_ends(s, class);
    lemma_span_is(wrapped, class, true, 1);
    assert(wrapped.skip(1) =~= s + seq![after]);
    assert((s + seq![after]).drop_last() =~= s);
}

/// A text that trimming leaves alone has no character of the class at its ends.
proof fn lemma_trim_ends(s: Seq<char>, class: CharClass)
    requires
        s.len() > 0,
        trim(s, class) == s,
    ensures
        !in_class(class, s[0]),
        !in_class(class, s.last()),
{
    let n = span(s, class, true);
    lemma_span(s, class, true);
    lemma_trim_end_len(s.skip(n), class);
    if in_class(class, s[0]) {
        lemma_span(s.drop_first(), class, true);
        assert(n > 0);
    }
    assert(s.skip(0) =~= s);
}

proof fn lemma_trim_end_len(s: Seq<char>, class: CharClass)
    ensures
        trim_end(s, class).len() <= s.len(),
        s.len() > 0 && in_class(class, s.last()) ==> trim_end(s, class).len() < s.len(),
    decreases s.len(),
{
    if s.len() > 0 && in_class(class, s.last()) {
        lemma_trim_end_len(s.drop_last(), class);
    }
}

/// Whether `c` belongs to the class.
pub fn belongs_to(class: CharClass, c: char) -> (yes: bool)
    ensures
        yes == in_class(class, c),
{
    match class {
        CharClass::Whitespace => {
            let v: u32 = c as u32;
            (0x09 <= v && v <= 0x0d) || v == 0x20 || v == 0x85 || v == 0xa0 || v == 0x1680 || (
            0x2000 <= v && v <= 0x200a) || v == 0x2028 || v == 0x2029 || v == 0x202f || v == 0x205f || v
                == 0x3000
        },
        CharClass::Bracket => c == '[' || c == ']',
        CharClass::Dash => c == '-',
    }
}

/// The length of the start of `s` that is all inside, or all outside, the class.
pub fn span_of(s: &[char], class: CharClass, inside: bool) -> (n: usize)
    ensures
        n == span(s@, class, inside),
        n <= s@.len(),
{
    let mut n: usize = 0;
    while n < s.len() && belongs_to(class, s[n]) == inside
        invariant
            n <= s@.len(),
            forall|j: int| 0 <= j < n ==> in_class(class, s@[j]) == inside,
        decreases s@.len() - n,
    {
        n = n + 1;
    }
    proof {
        lemma_span_is(s@, class, inside, n as int);
    }
    n
}

/// `s` without the characters of the class at either end.
pub fn trimmed<'a>(s: &'a [char], class: CharClass) -> (rest: &'a [char])
    ensures
        rest@ == trim(s@, class),
{
    let start = span_of(s, class, true);
    let tail = slice_subrange(s, start, s.len());
    assert(tail@ =~= trim_start(s@, class));
    let mut end: usize = tail.len();
    assert(tail@.take(end as int) =~= tail@);
    while end > 0 && belongs_to(class, tail[end - 1])
        invariant
            end <= tail@.len(),
            trim_end(tail@.take(end as int), class) == trim_end(tail@, class),
        decreases end,
    {
        assert(tail@.take(end as int).drop_last() =~= tail@.take(end - 1));
        end = end - 1;
    }
    let kept = slice_subrange(tail, 0, end);
    assert(kept@ =~= tail@.take(end as int));
    kept
}

/// The words of `s`.
pub fn words_of<'a>(s: &'a [char]) -> (found: Vec<&'a [char]>)
    ensures
        views(found@) == words(s@),
{
    let mut found: Vec<&'a [char]> = Vec::new();
    let mut rest: &'a [char] = s;
    assert(views(found@) + words(rest@) =~= words(s@));
    loop
        invariant_except_break
            views(found@) + words(rest@) == words(s@),
        ensures
            views(found@) == words(s@),
        decreases rest@.len(),
    {
        let ghost before_found = views(found@);
        let ghost before_rest = rest@;
        let start = span_of(rest, CharClass::Whitespace, true);
        let tail = slice_subrange(rest, start, rest.len());
        assert(tail@ =~= trim_start(before_rest, CharClass::Whitespace));
        if tail.len() == 0 {
            assert(before_found + words(before_rest) =~= before_found);
            break;
        }
        let n = span_of(tail, CharClass::Whitespace, false);
        proof {
            lemma_span(before_rest, CharClass::Whitespace, true);
            assert(tail@[0] == before_rest[start as int]);
            lemma_span(tail@.drop_first(), CharClass::Whitespace, false);
        }
        let word = slice_subrange(tail, 0, n);
        rest = slice_subrange(tail, n, tail.len());
        found.push(word);
        assert(word@ =~= tail@.take(n as int));
        assert(rest@ =~= tail@.skip(n as int));
        assert(views(found@) =~= before_found.push(word@));
        assert(before_found.push(word@) + words(rest@) =~= before_found + words(before_rest));
    }
    found
}

/// Whether the two texts are the same.
pub fn same_text(a: &[char], b: &[char]) -> (same: bool)
    ensures
        same == (a@ == b@),
{
    if a.len() != b.len() {
        return false;
    }
    let mut i: usize = 0;
    while i < a.len()
        invariant
            a@.len() == b@.len(),
            i <= a@.len(),
            forall|j: int| 0 <= j < i ==> a@[j] == b@[j],
        decreases a@.len() - i,
    {
        if a[i] != b[i] {
            return false;
        }
        i = i + 1;
    }
    assert(a@ =~= b@);
    true
}

// Letter case.

/// The ASCII lower-case form of a character.
pub open spec fn ascii_lower(c: char) -> char {
    if 'A' <= c && c <= 'Z' {
        (c as u32 + 32) as char
    } else {
        c
    }
}

pub open spec fn ascii_lower_all(s: Seq<char>) -> Seq<char> {
    s.map_values(|c: char| ascii_lower(c))
}

/// The ASCII lower-case form of a character.
pub fn to_ascii_lower(c: char) -> (lower: char)
    ensures
        lower == ascii_lower(c),
{
    if 'A' <= c && c <= 'Z' {
        ((c as u8) + 32) as char
    } else {
        c
    }
}

/// Whether the texts are the same but for ASCII letter case.
pub fn same_ignoring_case(a: &[char], b: &[char]) -> (same: bool)
    ensures
        same == (ascii_lower_all(a@) == ascii_lower_all(b@)),
{
    if a.len() != b.len() {
        assert(ascii_lower_all(a@).len() != ascii_lower_all(b@).len());
        return false;
    }
    let mut i: usize = 0;
    while i < a.len()
        invariant
            a@.len() == b@.len(),
            i <= a@.len(),
            forall|j: int| 0 <= j < i ==> ascii_lower(a@[j]) == ascii_lower(b@[j]),
        decreases a@.len() - i,
    {
        if to_ascii_lower(a[i]) != to_ascii_lower(b[i]) {
            assert(ascii_lower_all(a@)[i as int] != ascii_lower_all(b@)[i as int]);
            return false;
        }
        i = i + 1;
    }
    assert(ascii_lower_all(a@) =~= ascii_lower_all(b@));
    true
}

/// A text without whitespace.
pub open spec fn is_word(s: Seq<char>) -> bool {
    s.len() > 0 && forall|i: int| 0 <= i < s.len() ==> !is_whitespace(#[trigger] s[i])
}

/// The words of a text are those that whitespace parts, in their order: a word at the start is
/// followed by the words behind the whitespace after it, and whitespace at the start means nothing.
#[verifier::rlimit(40)]
pub proof fn whitespace_parts_words(word: Seq<char>, space: char, rest: Seq<char>)
    requires
        is_word(word),
        is_whitespace(space),
    ensures
        words(word + seq![space] + rest) == seq![word] + words(rest),
        words(word) == seq![word],
        words(seq![space] + rest) == words(rest),
        words(Seq::empty()).len() == 0,
{
    let ws = CharClass::Whitespace;
    let all = word + seq![space] + rest;
    assert(trim_start(Seq::empty(), ws) =~= Seq::empty());
    lemma_words_skip(space, rest);
    assert(!in_class(ws, word[0]));
    lemma_span_is(all, ws, true, 0);
    assert(all.skip(0) =~= all);
    assert forall|j: int| 0 <= j < word.len() implies in_class(ws, all[j]) == false by {
        assert(all[j] == word[j]);
    }
    lemma_span_is(all, ws, false, word.len() as int);
    assert(all.take(word.len() as int) =~= word);
    assert(all.skip(word.len() as int) =~= seq![space] + rest);
    lemma_span_is(word, ws, true, 0);
    assert(word.skip(0) =~= word);
    lemma_span_is(word, ws, false, word.len() as int);
    assert(word.take(word.len() as int) =~= word);
    assert(word.skip(word.len() as int) =~= Seq::empty());
    reveal_with_fuel(words, 2);
    assert(words(word) =~= seq![word]);
}

proof fn lemma_words_skip(space: char, rest: Seq<char>)
    requires
        is_whitespace(space),
    ensures
        words(seq![space] + rest) == words(rest),
{
    let ws = CharClass::Whitespace;
    let all = seq![space] + rest;
    assert(all.drop_first() =~= rest);
    lemma_span(rest, ws, true);
    assert(all.skip(span(all, ws, true)) =~= rest.skip(span(rest, ws, true)));
}

/// Trimming takes the characters of the class off both ends, all of them, and nothing else.
pub proof fn trimming_takes_the_ends_off(before: Seq<char>, s: Seq<char>, after: Seq<char>, class: CharClass)
    requires
        forall|i: int| 0 <= i < before.len() ==> in_class(class, #[trigger] before[i]),
        forall|i: int| 0 <= i < after.len() ==> in_class(class, #[trigger] after[i]),
        s.len() > 0 ==> !in_class(class, s[0]) && !in_class(class, s.last()),
    ensures
        trim(before + s + after, class) == s,
{
    let all = before + s + after;
    assert forall|j: int| 0 <= j < before.len() implies in_class(class, all[j]) by {
        assert(all[j] == before[j]);
    }
    if s.len() > 0 {
        assert(all[before.len() as int] == s[0]);
        lemma_span_is(all, class, true, before.len() as int);
        assert(all.skip(before.len() as int) =~= s + after);
        lemma_trim_end_off(s, after, class);
    } else {
        assert forall|j: int| 0 <= j < all.len() implies in_class(class, all[j]) by {
            if j >= before.len() {
                assert(all[j] == after[j - before.len()]);
            }
        }
        lemma_span_is(all, class, true, all.len() as int);
        assert(all.skip(all.len() as int) =~= Seq::empty());
        assert(s =~= Seq::empty());
    }
}

proof fn lemma_trim_end_off(s: Seq<char>, after: Seq<char>, class: CharClass)
    requires
        forall|i: int| 0 <= i < after.len() ==> in_class(class, #[trigger] after[i]),
        s.len() > 0,
        !in_class(class, s.last()),
    ensures
        trim_end(s + after, class) == s,
    decreases after.len(),
{
    let all = s + after;
    if after.len() == 0 {
        assert(all =~= s);
    } else {
        let front = after.drop_last();
        assert forall|i: int| 0 <= i < front.len() implies in_class(class, #[trigger] front[i]) by {
            assert(front[i] == after[i]);
        }
        assert(in_class(class, after[after.len() - 1]));
        assert(all.drop_last() =~= s + front);
        lemma_trim_end_off(s, front, class);
    }
}

/// Letter case is that of the ASCII letters alone: `A` to `Z` become `a` to `z`, each the letter at
/// its place in the alphabet, and every other character stays.
pub proof fn only_ascii_letters_change_case(c: char)
    ensures
        'A' <= c && c <= 'Z' ==> ascii_lower(c) as u32 == c as u32 - 'A' as u32 + 'a' as u32,
        !('A' <= c && c <= 'Z') ==> ascii_lower(c) == c,
        ascii_lower(ascii_lower(c)) == ascii_lower(c),
{
}

/// What was joined by a character is parted at it again, at the first one or at the last.
#[verifier::rlimit(40)]
pub proof fn parts_are_told_apart(before: Seq<char>, c: char, after: Seq<char>)
    ensures
        !before.contains(c) ==> split_once(before.push(c) + after, c) == Some((before, after)),
        !after.contains(c) ==> rsplit_once(before.push(c) + after, c) == Some((before, after)),
        !before.contains(c) ==> split_once(before, c) is None && rsplit_once(before, c) is None && split(before, c)
            == seq![before],
        !before.contains(c) ==> split(before.push(c) + after, c) == seq![before] + split(after, c),
{
    let all = before.push(c) + after;
    let at = before.len() as int;
    assert(all[at] == c);
    assert(all.take(at) =~= before);
    assert(all.skip(at + 1) =~= after);
    if !before.contains(c) {
        assert forall|j: int| 0 <= j < at implies all[j] != c && before[j] != c by {
            assert(before.contains(before[j]));
        }
        lemma_first_index_is(all, c, at);
        lemma_first_index_is(before, c, at);
        lemma_last_index(before, c);
        if last_index(before, c) >= 0 {
            assert(before.contains(before[last_index(before, c)]));
        }
    }
    if !after.contains(c) {
        lemma_last_index(all, c);
        let found = last_index(all, c);
        if found > at {
            assert(after.contains(after[found - at - 1]));
        }
        if found < at {
            assert(all[at] != c);
        }
    }
}

/// A trimmed text is a part of the text, and has no character of the class at its ends.
pub proof fn trimmed_texts_are_parts(s: Seq<char>, class: CharClass)
    ensures
        exists|at: int|
            0 <= at && at + trim(s, class).len() <= s.len() && trim(s, class) == #[trigger] s.subrange(
                at,
                at + trim(s, class).len(),
            ),
        trim(s, class).len() <= s.len(),
        trim(s, class).len() > 0 ==> !in_class(class, trim(s, class)[0]) && !in_class(class, trim(s, class).last()),
{
    let at = span(s, class, true);
    lemma_span(s, class, true);
    let rest = s.skip(at);
    lemma_trim_end_part(rest, class);
    let n = trim(s, class).len() as int;
    assert(trim(s, class) =~= s.subrange(at, at + n));
}

proof fn lemma_trim_end_part(s: Seq<char>, class: CharClass)
    ensures
        trim_end(s, class).len() <= s.len(),
        trim_end(s, class) == s.take(trim_end(s, class).len() as int),
        trim_end(s, class).len() > 0 ==> !in_class(class, trim_end(s, class).last()),
    decreases s.len(),
{
    if s.len() > 0 && in_class(class, s.last()) {
        let front = s.drop_last();
        lemma_trim_end_part(front, class);
        assert(front.take(trim_end(front, class).len() as int) =~= s.take(trim_end(s, class).len() as int));
    } else {
        assert(s.take(s.len() as int) =~= s);
    }
}

/// Whitespace are the characters that Unicode takes for it, and no others.
pub proof fn whitespace_is_that_of_unicode(c: char)
    ensures
        is_whitespace(c) <==> seq![
            0x09u32, 0x0a, 0x0b, 0x0c, 0x0d, 0x20, 0x85, 0xa0, 0x1680, 0x2000, 0x2001, 0x2002, 0x2003, 0x2004, 0x2005,
            0x2006, 0x2007, 0x2008, 0x2009, 0x200a, 0x2028, 0x2029, 0x202f, 0x205f, 0x3000,
        ].contains(c as u32),
{
    let all = seq![
        0x09u32, 0x0a, 0x0b, 0x0c, 0x0d, 0x20, 0x85, 0xa0, 0x1680, 0x2000, 0x2001, 0x2002, 0x2003, 0x2004, 0x2005,
        0x2006, 0x2007, 0x2008, 0x2009, 0x200a, 0x2028, 0x2029, 0x202f, 0x205f, 0x3000,
    ];
    assert(all[0] == 0x09 && all[1] == 0x0a && all[2] == 0x0b && all[3] == 0x0c && all[4] == 0x0d);
    assert(all[5] == 0x20 && all[6] == 0x85 && all[7] == 0xa0 && all[8] == 0x1680 && all[9] == 0x2000);
    assert(all[10] == 0x2001 && all[11] == 0x2002 && all[12] == 0x2003 && all[13] == 0x2004 && all[14] == 0x2005);
    assert(all[15] == 0x2006 && all[16] == 0x2007 && all[17] == 0x2008 && all[18] == 0x2009 && all[19] == 0x200a);
    assert(all[20] == 0x2028 && all[21] == 0x2029 && all[22] == 0x202f && all[23] == 0x205f && all[24] == 0x3000);
}

/// Text that was written as UTF-8 is read back.
pub proof fn written_text_is_read_back(text: Seq<char>)
    ensures
        bytes_text(encode_utf8(text)) == text,
{
    encode_utf8_valid_utf8(text);
    encode_utf8_decode_utf8(text);
}

} // verus!
