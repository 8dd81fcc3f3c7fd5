//! Padding schemes: how large the first records of a connection are made.

use vstd::prelude::*;
use vstd::slice::slice_to_vec;
use vstd::utf8::{encode_utf8, encode_utf8_decode_utf8, encode_utf8_valid_utf8};

use crate::crypto::{md5, md5_digest, random_between};
use crate::digits::{
    dec, dec_text, dec_value, hex_bytes, hex_text, lemma_dec, lemma_hex_bytes, numbers_are_read, parse_i64,
    parse_nat_upto, parse_signed, parse_unsigned,
};
use crate::settings::{lines_map, text_map, StringMap};
use crate::text::{
    bytes_text, chars_of, join, lemma_split_join, lemma_split_once_of, lossy_text, same_text, split, split_at,
    split_once, split_once_at, views,
};

verus! {

/// Stands among the record sizes for: stop here, unless payload is left.
pub const CHECK_MARK: i32 = -1;

/// The scheme that is in force until the server sends another.
pub const DEFAULT_PADDING_SCHEME: &'static str =
    "stop=8\n0=30-30\n1=100-400\n2=400-500,c,500-1000,c,500-1000,c,500-1000,c,500-1000\n3=9-9,500-1000\n4=500-1000\n5=500-1000\n6=500-1000\n7=500-1000";

/// One step of the scheme for a packet.
#[derive(Clone, Copy, Debug, PartialEq, Eq, Structural)]
pub enum PaddingItem {
    /// Stop here, unless payload is left.
    Check,
    /// A record of at least `min` bytes, and of less than `max` where the two differ.
    Between { min: i64, max: i64 },
}

/// What one step of a scheme says. Steps that say nothing are passed over.
pub open spec fn item_of(text: Seq<char>) -> Option<PaddingItem> {
    if text == seq!['c'] {
        Some(PaddingItem::Check)
    } else {
        match split_once(text, '-') {
            Some((a, b)) => match (parse_i64(a), parse_i64(b)) {
                (Some(x), Some(y)) => {
                    let min = if x <= y { x } else { y };
                    let max = if x <= y { y } else { x };
                    if min > 0 {
                        Some(PaddingItem::Between { min: min as i64, max: max as i64 })
                    } else {
                        None
                    }
                },
                _ => None,
            },
            None => None,
        }
    }
}

pub open spec fn items_of(texts: Seq<Seq<char>>) -> Seq<PaddingItem>
    decreases texts.len(),
{
    if texts.len() == 0 {
        Seq::empty()
    } else {
        let front = items_of(texts.drop_last());
        match item_of(texts.last()) {
            Some(item) => front.push(item),
            None => front,
        }
    }
}

/// The lines of a scheme.
pub open spec fn scheme_map(raw: Seq<u8>) -> Map<Seq<char>, Seq<char>> {
    text_map(bytes_text(raw))
}

/// How many packets a scheme pads. A scheme has to say so.
pub open spec fn scheme_stop(raw: Seq<u8>) -> Option<nat> {
    if scheme_map(raw).contains_key("stop"@) {
        parse_nat_upto(scheme_map(raw)["stop"@], u32::MAX as nat)
    } else {
        None
    }
}

/// The steps that a scheme has for a packet.
pub open spec fn scheme_items(raw: Seq<u8>, packet: u32) -> Seq<PaddingItem> {
    if scheme_map(raw).contains_key(dec(packet as nat)) {
        items_of(split(scheme_map(raw)[dec(packet as nat)], ','))
    } else {
        Seq::empty()
    }
}

/// The name by which both sides compare their schemes.
pub open spec fn scheme_md5(raw: Seq<u8>) -> Seq<char> {
    hex_bytes(md5_digest(raw))
}

/// A number cut to 32 bits, the highest of which is the sign.
pub open spec fn wrap_i32(n: int) -> int {
    let low = n % 0x1_0000_0000;
    if low >= 0x8000_0000 {
        low - 0x1_0000_0000
    } else {
        low
    }
}

/// The number that was drawn for a step may be `n`.
pub open spec fn may_draw(min: int, max: int, n: int) -> bool {
    if min == max {
        n == min
    } else {
        min <= n < max
    }
}

/// A step may come out as this record size.
pub open spec fn item_allows(item: PaddingItem, size: i32) -> bool {
    match item {
        PaddingItem::Check => size == CHECK_MARK,
        PaddingItem::Between { min, max } => exists|n: int| #[trigger]
            may_draw(min as int, max as int, n) && size == wrap_i32(n),
    }
}

/// These steps may come out as these record sizes.
pub open spec fn items_allow(items: Seq<PaddingItem>, sizes: Seq<i32>) -> bool {
    &&& items.len() == sizes.len()
    &&& forall|i: int| 0 <= i < sizes.len() ==> item_allows(items[i], #[trigger] sizes[i])
}

/// A positive number cut to 32 bits.
fn low_i32(n: i64) -> (size: i32)
    requires
        n > 0,
    ensures
        size == wrap_i32(n as int),
{
    let low: i64 = n % 0x1_0000_0000;
    if low >= 0x8000_0000 {
        (low - 0x1_0000_0000) as i32
    } else {
        low as i32
    }
}

/// Reads one step of a scheme.
pub fn parse_item(text: &[char]) -> (item: Option<PaddingItem>)
    ensures
        item == item_of(text@),
        item matches Some(PaddingItem::Between { min, max }) ==> 0 < min <= max,
{
    let check: Vec<char> = vec!['c'];
    assert(check@ =~= seq!['c']);
    if same_text(text, check.as_slice()) {
        return Some(PaddingItem::Check);
    }
    let (a, b) = match split_once_at(text, '-') {
        Some(parts) => parts,
        None => {
            return None;
        },
    };
    let x: i64 = match parse_signed(a) {
        Some(x) => x,
        None => {
            return None;
        },
    };
    let y: i64 = match parse_signed(b) {
        Some(y) => y,
        None => {
            return None;
        },
    };
    let min: i64 = if x <= y { x } else { y };
    let max: i64 = if x <= y { y } else { x };
    if min > 0 {
        Some(PaddingItem::Between { min, max })
    } else {
        None
    }
}

/// A record size for a step.
fn draw_size(item: PaddingItem) -> (size: i32)
    requires
        item matches PaddingItem::Between { min, max } ==> 0 < min <= max,
    ensures
        item_allows(item, size),
{
    match item {
        PaddingItem::Check => CHECK_MARK,
        PaddingItem::Between { min, max } => {
            let n: i64 = if min == max { min } else { random_between(min, max) };
            assert(may_draw(min as int, max as int, n as int));
            low_i32(n)
        },
    }
}

/// The lines of the default scheme.
spec fn default_lines() -> Seq<Seq<char>> {
    seq![
        "stop=8"@,
        "0=30-30"@,
        "1=100-400"@,
        "2=400-500,c,500-1000,c,500-1000,c,500-1000,c,500-1000"@,
        "3=9-9,500-1000"@,
        "4=500-1000"@,
        "5=500-1000"@,
        "6=500-1000"@,
        "7=500-1000"@,
    ]
}

/// What stands before the `=` of a line that has one.
spec fn line_key(line: Seq<char>) -> Seq<char> {
    match split_once(line, '=') {
        Some((key, _)) => key,
        None => line,
    }
}

/// What stands before the `=` of a line of the default scheme.
spec fn default_key(i: int) -> Seq<char> {
    if i == 0 {
        "stop"@
    } else {
        seq![(47 + i) as char]
    }
}

#[verifier::rlimit(60)]
proof fn lemma_default_text()
    ensures
        DEFAULT_PADDING_SCHEME@ == join(default_lines(), seq!['\n']),
        forall|i: int| 0 <= i < 9 ==> !(#[trigger] default_lines()[i]).contains('\n'),
        forall|i: int| 0 <= i < 9 ==> split_once(#[trigger] default_lines()[i], '=') is Some,
        forall|i: int| 0 < i < 9 ==> line_key(#[trigger] default_lines()[i]) != "stop"@,
        split_once(default_lines()[0], '=') == Some(("stop"@, seq!['8'])),
{
    reveal_strlit("stop=8");
    reveal_strlit("0=30-30");
    reveal_strlit("1=100-400");
    reveal_strlit("2=400-500,c,500-1000,c,500-1000,c,500-1000,c,500-1000");
    reveal_strlit("3=9-9,500-1000");
    reveal_strlit("4=500-1000");
    reveal_strlit("5=500-1000");
    reveal_strlit("6=500-1000");
    reveal_strlit("7=500-1000");
    reveal_strlit("stop");
    reveal_strlit("stop=8\n0=30-30\n1=100-400\n2=400-500,c,500-1000,c,500-1000,c,500-1000,c,500-1000\n3=9-9,500-1000\n4=500-1000\n5=500-1000\n6=500-1000\n7=500-1000");
    reveal_with_fuel(join, 10);
    let lines = default_lines();
    assert(DEFAULT_PADDING_SCHEME@ =~= join(lines, seq!['\n']));
    assert forall|i: int| 0 <= i < 9 implies split_once(#[trigger] lines[i], '=') is Some && line_key(lines[i])
        == default_key(i) by {
        let key = default_key(i);
        let value = lines[i].skip(key.len() as int + 1);
        assert(lines[i] =~= key.push('=') + value);
        lemma_split_once_of(key, '=', value);
    }
    lemma_split_once_of("stop"@, '=', seq!['8']);
    assert(lines[0] =~= "stop"@.push('=') + seq!['8']);
}

/// The default scheme says that it pads eight packets.
proof fn lemma_default_stop()
    ensures
        text_map(DEFAULT_PADDING_SCHEME@).contains_key("stop"@),
        parse_nat_upto(text_map(DEFAULT_PADDING_SCHEME@)["stop"@], u32::MAX as nat) == Some(8nat),
{
    let lines = default_lines();
    lemma_default_text();
    lemma_split_join(lines, '\n');
    lemma_lines_stop(lines, 9);
    assert(lines.take(9) =~= lines);
    reveal_with_fuel(dec_value, 2);
    assert(seq!['8'].drop_last() =~= Seq::empty());
}

/// Lines with other keys leave the first line's key as it is.
proof fn lemma_lines_stop(lines: Seq<Seq<char>>, n: int)
    requires
        1 <= n <= lines.len(),
        split_once(lines[0], '=') == Some(("stop"@, seq!['8'])),
        forall|i: int| 0 < i < n ==> split_once(#[trigger] lines[i], '=') is Some,
        forall|i: int| 0 < i < n ==> line_key(#[trigger] lines[i]) != "stop"@,
    ensures
        lines_map(lines.take(n)).contains_key("stop"@),
        lines_map(lines.take(n))["stop"@] == seq!['8'],
    decreases n,
{
    assert(lines.take(n).drop_last() =~= lines.take(n - 1));
    if n > 1 {
        lemma_lines_stop(lines, n - 1);
    } else {
        assert(lines.take(1).last() == lines[0]);
    }
}

/// A padding scheme.
#[derive(Debug, PartialEq, Eq)]
pub struct PaddingFactory {
    raw_scheme: Vec<u8>,
    scheme: StringMap,
    stop: u32,
    md5: String,
}

impl View for PaddingFactory {
    type V = Seq<u8>;

    /// A scheme is the bytes that spell it.
    closed spec fn view(&self) -> Seq<u8> {
        self.raw_scheme@
    }
}

impl Clone for PaddingFactory {
    fn clone(&self) -> (copy: Self)
        ensures
            copy@ == self@,
    {
        proof {
            use_type_invariant(self);
        }
        PaddingFactory {
            raw_scheme: slice_to_vec(self.raw_scheme.as_slice()),
            scheme: self.scheme.clone(),
            stop: self.stop,
            md5: self.md5.clone(),
        }
    }
}

impl PaddingFactory {
    #[verifier::type_invariant]
    spec fn well_formed(self) -> bool {
        &&& self.scheme@ == scheme_map(self.raw_scheme@)
        &&& scheme_stop(self.raw_scheme@) == Some(self.stop as nat)
        &&& self.md5@ == scheme_md5(self.raw_scheme@)
        &&& md5_digest(self.raw_scheme@).len() == 16
    }

    /// The scheme that these bytes spell, if they say how many packets it pads.
    pub fn new(raw_scheme: &[u8]) -> (factory: Option<Self>)
        ensures
            factory is Some <==> scheme_stop(raw_scheme@) is Some,
            factory is Some ==> factory->0@ == raw_scheme@,
    {
        let text = lossy_text(raw_scheme);
        let scheme = StringMap::from_text(text.as_str());
        let stop = match scheme.get("stop") {
            Some(value) => match parse_unsigned(chars_of(value).as_slice(), 0xffff_ffff) {
                Some(stop) => stop as u32,
                None => {
                    return None;
                },
            },
            None => {
                return None;
            },
        };
        let digest = md5(raw_scheme);
        let md5 = hex_text(&digest);
        Some(PaddingFactory { raw_scheme: slice_to_vec(raw_scheme), scheme, stop, md5 })
    }

    /// The scheme that is in force until the server sends another.
    pub fn default_scheme() -> (factory: Self)
        ensures
            factory@ == encode_utf8(DEFAULT_PADDING_SCHEME@),
            scheme_stop(factory@) == Some(8nat),
    {
        proof {
            encode_utf8_valid_utf8(DEFAULT_PADDING_SCHEME@);
            encode_utf8_decode_utf8(DEFAULT_PADDING_SCHEME@);
            lemma_default_stop();
        }
        PaddingFactory::new(DEFAULT_PADDING_SCHEME.as_bytes()).unwrap()
    }

    /// The bytes that spell the scheme.
    pub fn raw_scheme(&self) -> (raw: &[u8])
        ensures
            raw@ == self@,
    {
        self.raw_scheme.as_slice()
    }

    /// How many packets the scheme pads.
    pub fn stop(&self) -> (stop: u32)
        ensures
            scheme_stop(self@) == Some(stop as nat),
    {
        proof {
            use_type_invariant(self);
        }
        self.stop
    }

    /// The MD5 digest of the scheme, in lower-case hexadecimal.
    pub fn md5(&self) -> (md5: &str)
        ensures
            md5@ == scheme_md5(self@),
            md5@.len() == 32,
    {
        proof {
            use_type_invariant(self);
            lemma_hex_bytes(md5_digest(self@));
        }
        self.md5.as_str()
    }

    /// The steps that the scheme has for a packet.
    pub fn record_items(&self, packet: u32) -> (items: Vec<PaddingItem>)
        ensures
            items@ == scheme_items(self@, packet),
            forall|i: int|
                0 <= i < items@.len() ==> ((#[trigger] items@[i]) matches PaddingItem::Between { min, max } ==> 0
                    < min <= max),
    {
        proof {
            use_type_invariant(self);
        }
        let mut items: Vec<PaddingItem> = Vec::new();
        let value = match self.scheme.get(dec_text(packet as u64).as_str()) {
            Some(value) => value,
            None => {
                return items;
            },
        };
        let chars = chars_of(value);
        let texts = split_at(chars.as_slice(), ',');
        let ghost all = views(texts@);
        let mut i: usize = 0;
        assert(all.take(0) =~= Seq::empty());
        while i < texts.len()
            invariant
                i <= texts@.len(),
                all == views(texts@),
                items@ == items_of(all.take(i as int)),
                forall|j: int|
                    0 <= j < items@.len() ==> ((#[trigger] items@[j]) matches PaddingItem::Between { min, max } ==> 0
                        < min <= max),
            decreases texts@.len() - i,
        {
            assert(all.take(i + 1).drop_last() =~= all.take(i as int));
            if let Some(item) = parse_item(texts[i]) {
                items.push(item);
            }
            i = i + 1;
        }
        assert(all.take(i as int) =~= all);
        items
    }

    /// Record sizes for a packet, drawn anew at each call. A size of [`CHECK_MARK`] stands for
    /// the check.
    pub fn generate_record_payload_sizes(&self, packet: u32) -> (sizes: Vec<i32>)
        ensures
            items_allow(scheme_items(self@, packet), sizes@),
    {
        let items = self.record_items(packet);
        let mut sizes: Vec<i32> = Vec::new();
        let mut i: usize = 0;
        while i < items.len()
            invariant
                i <= items@.len(),
                sizes@.len() == i,
                forall|j: int|
                    0 <= j < items@.len() ==> ((#[trigger] items@[j]) matches PaddingItem::Between { min, max } ==> 0
                        < min <= max),
                forall|j: int| 0 <= j < i ==> item_allows(items@[j], #[trigger] sizes@[j]),
            decreases items@.len() - i,
        {
            sizes.push(draw_size(items[i]));
            i = i + 1;
        }
        sizes
    }
}

/// A step of two numbers stands for a record between them, in whichever order they are given. One
/// that reaches down to zero says nothing.
#[verifier::rlimit(40)]
pub proof fn steps_are_read(a: nat, b: nat)
    requires
        a <= i64::MAX,
        b <= i64::MAX,
    ensures
        ({
            let text = dec(a) + seq!['-'] + dec(b);
            &&& 0 < a <= b ==> item_of(text) == Some(PaddingItem::Between { min: a as i64, max: b as i64 })
            &&& 0 < b <= a ==> item_of(text) == Some(PaddingItem::Between { min: b as i64, max: a as i64 })
            &&& a == 0 || b == 0 ==> item_of(text) is None
        }),
        item_of(seq!['c']) == Some(PaddingItem::Check),
{
    let text = dec(a) + seq!['-'] + dec(b);
    lemma_dec(a);
    numbers_are_read(a, 0);
    numbers_are_read(b, 0);
    let first = dec(a);
    if first.contains('-') {
        let i = choose|i: int| 0 <= i < first.len() && first[i] == '-';
        assert(crate::digits::is_digit(first[i]));
    }
    assert(text =~= first.push('-') + dec(b));
    lemma_split_once_of(first, '-', dec(b));
    assert(crate::digits::is_digit(text[0])) by {
        assert(text[0] == first[0]);
    }
    assert(seq!['c'][0] == 'c');
}

/// A step that is neither a check nor two numbers with a dash between them says nothing.
pub proof fn other_steps_say_nothing(text: Seq<char>)
    requires
        !text.contains('-'),
        text != seq!['c'],
    ensures
        item_of(text) is None,
{
    crate::text::parts_are_told_apart(text, '-', Seq::empty());
}

/// The steps of a line come in its order, and those that say nothing are passed over.
pub proof fn steps_keep_their_order(before: Seq<Seq<char>>, text: Seq<char>, after: Seq<Seq<char>>)
    ensures
        items_of(before.push(text) + after) == items_of(before) + (match item_of(text) {
            Some(item) => seq![item],
            None => Seq::empty(),
        }) + items_of(after),
        items_of(Seq::empty()).len() == 0,
    decreases after.len(),
{
    let all = before.push(text) + after;
    let middle = match item_of(text) {
        Some(item) => seq![item],
        None => Seq::empty(),
    };
    if after.len() == 0 {
        assert(all =~= before.push(text));
        assert(all.drop_last() =~= before);
        assert(items_of(all) =~= items_of(before) + middle + items_of(after));
    } else {
        steps_keep_their_order(before, text, after.drop_last());
        assert(all.drop_last() =~= before.push(text) + after.drop_last());
        assert(items_of(all) =~= items_of(before) + middle + items_of(after));
    }
}

/// The steps for a packet are those of the line under its number, and the number of padded packets
/// is the one under `stop`. What a scheme does not say, it does not have.
#[verifier::rlimit(40)]
pub proof fn schemes_say_what_their_lines_say(raw: Seq<u8>, packet: u32, texts: Seq<Seq<char>>, stop: nat)
    requires
        texts.len() > 0,
        forall|i: int| 0 <= i < texts.len() ==> !(#[trigger] texts[i]).contains(','),
    ensures
        ({
            let lines = text_map(bytes_text(raw));
            &&& lines.contains_key(dec(packet as nat)) && lines[dec(packet as nat)] == join(texts, seq![','])
                ==> scheme_items(raw, packet) == items_of(texts)
            &&& !lines.contains_key(dec(packet as nat)) ==> scheme_items(raw, packet).len() == 0
            &&& lines.contains_key("stop"@) && lines["stop"@] == dec(stop) ==> scheme_stop(raw) == if stop
                <= 0xffff_ffff {
                Some(stop)
            } else {
                None
            }
            &&& !lines.contains_key("stop"@) ==> scheme_stop(raw) is None
        }),
{
    lemma_split_join(texts, ',');
    numbers_are_read(stop, 0xffff_ffff);
}

/// A step between two numbers comes out as a size from the lower one up to below the higher one, and
/// as the number itself where the two are the same. A check comes out as the check mark.
pub proof fn steps_come_out_between_their_numbers(min: i64, max: i64, size: i32)
    requires
        0 < min <= max <= i32::MAX,
    ensures
        min == max ==> (item_allows(PaddingItem::Between { min, max }, size) <==> size == min),
        min < max ==> (item_allows(PaddingItem::Between { min, max }, size) <==> min <= size < max),
        item_allows(PaddingItem::Check, size) <==> size == -1,
{
    lemma_step_comes_out(PaddingItem::Between { min, max }, size);
}

proof fn lemma_step_comes_out(item: PaddingItem, size: i32)
    requires
        item matches PaddingItem::Between { min, max } && 0 < min <= max <= i32::MAX,
    ensures
        item matches PaddingItem::Between { min, max } && (item_allows(item, size) <==> (min == max && size == min) || (
        min <= size < max)),
{
    if let PaddingItem::Between { min, max } = item {
        if item_allows(item, size) {
            let n = choose|n: int| #[trigger] may_draw(min as int, max as int, n) && size == wrap_i32(n);
            assert(may_draw(min as int, max as int, n) && size == n);
        }
        if (min == max && size == min) || (min <= size < max) {
            assert(may_draw(min as int, max as int, size as int));
            assert(size == wrap_i32(size as int));
            assert(item_allows(item, size));
        }
    }
}

/// There is one size for each step.
pub proof fn each_step_has_a_size(items: Seq<PaddingItem>, sizes: Seq<i32>, i: int)
    requires
        items_allow(items, sizes),
        0 <= i < items.len(),
    ensures
        items.len() == sizes.len(),
        item_allows(items[i], sizes[i]),
{
    assert(sizes[i] == sizes[i]);
}

} // verus!
