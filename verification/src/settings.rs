//! Key-value settings, written as `key=value` lines in the order of their keys.

use vstd::prelude::*;
use vstd::slice::slice_to_vec;
use vstd::utf8::{encode_utf8, encode_utf8_decode_utf8, encode_utf8_valid_utf8};

use crate::order::{lemma_text_lt_irreflexive, lemma_text_lt_transitive, order_of, text_lt, Order};
use crate::text::{
    bytes_text, chars_of, join, lemma_first_index, lemma_split_join, lemma_split_once_of, lossy_text,
    parts_are_told_apart, split, split_at, split_once, split_once_at, text_of, views,
};

verus! {

/// A key with its value.
pub type EntryView = (Seq<char>, Seq<char>);

/// The map that these entries make, the later ones taking precedence.
pub open spec fn entries_map(entries: Seq<EntryView>) -> Map<Seq<char>, Seq<char>>
    decreases entries.len(),
{
    if entries.len() == 0 {
        Map::empty()
    } else {
        entries_map(entries.drop_last()).insert(entries.last().0, entries.last().1)
    }
}

/// The keys come in strictly rising order.
pub open spec fn rising(entries: Seq<EntryView>) -> bool {
    forall|i: int, j: int| 0 <= i < j < entries.len() ==> text_lt(#[trigger] entries[i].0, #[trigger] entries[j].0)
}

/// `entries` holds each entry of the map once, in the order of the keys.
pub open spec fn lists(entries: Seq<EntryView>, map: Map<Seq<char>, Seq<char>>) -> bool {
    rising(entries) && entries_map(entries) == map
}

/// The entries of the map in the order of their keys.
pub open spec fn listing(map: Map<Seq<char>, Seq<char>>) -> Seq<EntryView> {
    choose|entries: Seq<EntryView>| lists(entries, map)
}

/// One entry as a line.
pub open spec fn entry_line(entry: EntryView) -> Seq<char> {
    entry.0.push('=') + entry.1
}

pub open spec fn entry_lines(entries: Seq<EntryView>) -> Seq<Seq<char>> {
    entries.map_values(|entry: EntryView| entry_line(entry))
}

/// The text of a map: a line for each entry, in the order of the keys.
pub open spec fn map_text(map: Map<Seq<char>, Seq<char>>) -> Seq<char> {
    join(entry_lines(listing(map)), seq!['\n'])
}

/// The map that these lines make. A line without `=` is passed over.
pub open spec fn lines_map(lines: Seq<Seq<char>>) -> Map<Seq<char>, Seq<char>>
    decreases lines.len(),
{
    if lines.len() == 0 {
        Map::empty()
    } else {
        let front = lines_map(lines.drop_last());
        match split_once(lines.last(), '=') {
            Some((key, value)) => front.insert(key, value),
            None => front,
        }
    }
}

/// The map that a text of lines makes.
pub open spec fn text_map(text: Seq<char>) -> Map<Seq<char>, Seq<char>> {
    lines_map(split(text, '\n'))
}

/// A map whose lines can be told apart again.
pub open spec fn separable(map: Map<Seq<char>, Seq<char>>) -> bool {
    forall|key: Seq<char>| #[trigger]
        map.contains_key(key) ==> !key.contains('=') && !key.contains('\n') && !map[key].contains('\n')
}

proof fn lemma_entries_map(entries: Seq<EntryView>)
    ensures
        forall|key: Seq<char>| #[trigger]
            entries_map(entries).contains_key(key) <==> (exists|i: int| 0 <= i < entries.len() && entries[i].0 == key),
    decreases entries.len(),
{
    if entries.len() > 0 {
        let front = entries.drop_last();
        lemma_entries_map(front);
        assert forall|key: Seq<char>| #[trigger] entries_map(entries).contains_key(key) <==> (exists|i: int|
            0 <= i < entries.len() && entries[i].0 == key) by {
            if entries_map(front).contains_key(key) {
                let i = choose|i: int| 0 <= i < front.len() && front[i].0 == key;
                assert(entries[i].0 == key);
            }
            if exists|i: int| 0 <= i < entries.len() && entries[i].0 == key {
                let i = choose|i: int| 0 <= i < entries.len() && entries[i].0 == key;
                if i < front.len() {
                    assert(front[i].0 == key);
                }
            }
        }
    }
}

proof fn lemma_rising_front(entries: Seq<EntryView>)
    requires
        rising(entries),
        entries.len() > 0,
    ensures
        rising(entries.drop_last()),
        !entries_map(entries.drop_last()).contains_key(entries.last().0),
{
    let front = entries.drop_last();
    assert forall|i: int, j: int| 0 <= i < j < front.len() implies text_lt(
        #[trigger] front[i].0,
        #[trigger] front[j].0,
    ) by {
        assert(front[i] == entries[i] && front[j] == entries[j]);
    }
    lemma_entries_map(front);
    if entries_map(front).contains_key(entries.last().0) {
        let i = choose|i: int| 0 <= i < front.len() && front[i].0 == entries.last().0;
        assert(text_lt(entries[i].0, entries[entries.len() - 1].0));
        lemma_text_lt_irreflexive(entries.last().0);
    }
}

/// In rising order each entry is found under its key.
proof fn lemma_rising_get(entries: Seq<EntryView>, i: int)
    requires
        rising(entries),
        0 <= i < entries.len(),
    ensures
        entries_map(entries).contains_key(entries[i].0),
        entries_map(entries)[entries[i].0] == entries[i].1,
    decreases entries.len(),
{
    lemma_rising_front(entries);
    if i < entries.len() - 1 {
        lemma_rising_get(entries.drop_last(), i);
    }
}

/// A map has one listing only.
pub proof fn lemma_listing_unique(a: Seq<EntryView>, b: Seq<EntryView>)
    requires
        rising(a),
        rising(b),
        entries_map(a) == entries_map(b),
    ensures
        a == b,
    decreases a.len(),
{
    lemma_entries_map(a);
    lemma_entries_map(b);
    if a.len() == 0 {
        if b.len() > 0 {
            lemma_rising_get(b, 0);
        }
        assert(a =~= b);
    } else {
        let last_a = a.len() - 1;
        lemma_rising_get(a, last_a);
        assert(entries_map(b).contains_key(a[last_a].0));
        let j = choose|j: int| 0 <= j < b.len() && b[j].0 == a[last_a].0;
        let last_b = b.len() - 1;
        lemma_rising_get(b, last_b);
        assert(entries_map(a).contains_key(b[last_b].0));
        let i = choose|i: int| 0 <= i < a.len() && a[i].0 == b[last_b].0;
        if a[last_a].0 != b[last_b].0 {
            assert(text_lt(b[j].0, b[last_b].0));
            assert(text_lt(a[i].0, a[last_a].0));
            lemma_text_lt_transitive(a[i].0, a[last_a].0, b[last_b].0);
            lemma_text_lt_irreflexive(a[i].0);
        }
        lemma_rising_front(a);
        lemma_rising_front(b);
        assert(entries_map(a.drop_last()) =~= entries_map(a).remove(a.last().0));
        assert(entries_map(b.drop_last()) =~= entries_map(b).remove(b.last().0));
        lemma_listing_unique(a.drop_last(), b.drop_last());
        assert(a =~= a.drop_last().push(a.last()));
        assert(b =~= b.drop_last().push(b.last()));
    }
}

pub proof fn lemma_listing_is(entries: Seq<EntryView>)
    requires
        rising(entries),
    ensures
        listing(entries_map(entries)) == entries,
{
    let map = entries_map(entries);
    assert(lists(entries, map));
    lemma_listing_unique(listing(map), entries);
}

/// Putting an entry before, between or behind the others adds it to the map, and replacing the
/// one under its key changes that one.
proof fn lemma_place(entries: Seq<EntryView>, at: int, entry: EntryView)
    requires
        rising(entries),
        0 <= at <= entries.len(),
        forall|j: int| 0 <= j < at ==> text_lt(#[trigger] entries[j].0, entry.0),
        at < entries.len() ==> text_lt(entry.0, entries[at].0),
    ensures
        rising(entries.insert(at, entry)),
        entries_map(entries.insert(at, entry)) == entries_map(entries).insert(entry.0, entry.1),
    decreases entries.len() - at,
{
    let placed = entries.insert(at, entry);
    assert forall|i: int, j: int| 0 <= i < j < placed.len() implies text_lt(
        #[trigger] placed[i].0,
        #[trigger] placed[j].0,
    ) by {
        if j == at {
            assert(placed[i] == entries[i]);
        } else if i == at {
            assert(placed[j] == entries[j - 1]);
            if j - 1 > at {
                lemma_text_lt_transitive(entry.0, entries[at].0, entries[j - 1].0);
            }
        } else {
            let k = if i < at { i } else { i - 1 };
            let l = if j < at { j } else { j - 1 };
            assert(placed[i] == entries[k] && placed[j] == entries[l]);
        }
    }
    if at == entries.len() {
        assert(placed.drop_last() =~= entries);
    } else {
        lemma_rising_front(entries);
        let front = entries.drop_last();
        assert forall|j: int| 0 <= j < at implies text_lt(#[trigger] front[j].0, entry.0) by {
            assert(front[j] == entries[j]);
        }
        lemma_place(front, at, entry);
        assert(placed.drop_last() =~= front.insert(at, entry));
        let last = entries.last();
        assert(placed.last() == last);
        if at < entries.len() - 1 {
            lemma_text_lt_transitive(entry.0, entries[at].0, entries[entries.len() - 1].0);
        }
        lemma_text_lt_irreflexive(entry.0);
        assert(entries_map(placed) =~= entries_map(entries).insert(entry.0, entry.1));
    }
}

proof fn lemma_replace(entries: Seq<EntryView>, at: int, value: Seq<char>)
    requires
        rising(entries),
        0 <= at < entries.len(),
    ensures
        rising(entries.update(at, (entries[at].0, value))),
        entries_map(entries.update(at, (entries[at].0, value))) == entries_map(entries).insert(entries[at].0, value),
    decreases entries.len(),
{
    let changed = entries.update(at, (entries[at].0, value));
    assert forall|i: int, j: int| 0 <= i < j < changed.len() implies text_lt(
        #[trigger] changed[i].0,
        #[trigger] changed[j].0,
    ) by {
        assert(changed[i].0 == entries[i].0 && changed[j].0 == entries[j].0);
    }
    lemma_rising_front(entries);
    let last = entries.len() - 1;
    if at == last {
        assert(changed.drop_last() =~= entries.drop_last());
        assert(entries_map(changed) =~= entries_map(entries).insert(entries[at].0, value));
    } else {
        lemma_replace(entries.drop_last(), at, value);
        assert(changed.drop_last() =~= entries.drop_last().update(at, (entries[at].0, value)));
        assert(text_lt(entries[at].0, entries[last].0));
        lemma_text_lt_irreflexive(entries[at].0);
        assert(entries_map(changed) =~= entries_map(entries).insert(entries[at].0, value));
    }
}

proof fn lemma_lines_of_entries(entries: Seq<EntryView>)
    requires
        forall|i: int| 0 <= i < entries.len() ==> !(#[trigger] entries[i]).0.contains('='),
    ensures
        lines_map(entry_lines(entries)) == entries_map(entries),
    decreases entries.len(),
{
    if entries.len() > 0 {
        let front = entries.drop_last();
        assert forall|i: int| 0 <= i < front.len() implies !(#[trigger] front[i]).0.contains('=') by {
            assert(front[i] == entries[i]);
        }
        lemma_lines_of_entries(front);
        assert(entry_lines(entries).drop_last() =~= entry_lines(front));
        let last = entries[entries.len() - 1];
        assert(!last.0.contains('='));
        lemma_split_once_of(last.0, '=', last.1);
    }
}

/// What a map writes reads back as the same map, where its lines can be told apart.
#[verifier::rlimit(60)]
pub proof fn settings_round_trip(entries: Seq<EntryView>)
    requires
        rising(entries),
        separable(entries_map(entries)),
    ensures
        text_map(bytes_text(encode_utf8(map_text(entries_map(entries))))) == entries_map(entries),
{
    let map = entries_map(entries);
    let lines = entry_lines(entries);
    lemma_listing_is(entries);
    encode_utf8_valid_utf8(map_text(map));
    encode_utf8_decode_utf8(map_text(map));
    assert forall|i: int| 0 <= i < entries.len() implies !(#[trigger] entries[i]).0.contains('=') by {
        lemma_rising_get(entries, i);
    }
    lemma_lines_of_entries(entries);
    if entries.len() == 0 {
        let text = map_text(map);
        assert(text =~= Seq::empty());
        lemma_first_index(text, '\n');
        assert(split(text, '\n') =~= seq![text]);
        lemma_first_index(text, '=');
        assert(seq![text].drop_last() =~= Seq::empty());
        assert(lines_map(seq![text]) == lines_map(seq![text].drop_last()));
    } else {
        assert forall|i: int| 0 <= i < lines.len() implies !(#[trigger] lines[i]).contains('\n') by {
            lemma_rising_get(entries, i);
            let line = lines[i];
            if line.contains('\n') {
                let j = choose|j: int| 0 <= j < line.len() && line[j] == '\n';
                let key = entries[i].0;
                if j < key.len() {
                    assert(key[j] == '\n');
                } else {
                    assert(entries[i].1[j - key.len() - 1] == '\n');
                }
            }
        }
        lemma_split_join(lines, '\n');
    }
}

/// Settings: a value for each of some keys.
#[derive(Debug, PartialEq, Eq)]
pub struct StringMap {
    entries: Vec<(String, String)>,
}

impl View for StringMap {
    type V = Map<Seq<char>, Seq<char>>;

    closed spec fn view(&self) -> Map<Seq<char>, Seq<char>> {
        entries_map(self.listed())
    }
}

impl Clone for StringMap {
    fn clone(&self) -> (map: Self)
        ensures
            map@ == self@,
    {
        proof {
            use_type_invariant(self);
        }
        let mut entries: Vec<(String, String)> = Vec::new();
        let mut i: usize = 0;
        while i < self.entries.len()
            invariant
                i <= self.entries@.len(),
                entries@.len() == i,
                forall|j: int|
                    0 <= j < i ==> (#[trigger] entries@[j]).0@ == self.entries@[j].0@ && entries@[j].1@
                        == self.entries@[j].1@,
            decreases self.entries@.len() - i,
        {
            entries.push((self.entries[i].0.clone(), self.entries[i].1.clone()));
            i = i + 1;
        }
        assert(entries@.map_values(|entry: (String, String)| (entry.0@, entry.1@)) =~= self.listed());
        StringMap { entries }
    }
}

impl Default for StringMap {
    fn default() -> (map: Self)
        ensures
            map@ == Map::<Seq<char>, Seq<char>>::empty(),
    {
        StringMap::new()
    }
}

impl StringMap {
    spec fn listed(self) -> Seq<EntryView> {
        self.entries@.map_values(|entry: (String, String)| (entry.0@, entry.1@))
    }

    #[verifier::type_invariant]
    spec fn well_formed(self) -> bool {
        rising(self.listed())
    }

    /// No settings.
    pub fn new() -> (map: Self)
        ensures
            map@ == Map::<Seq<char>, Seq<char>>::empty(),
    {
        StringMap { entries: Vec::new() }
    }

    /// Where the key stands, or else where it belongs.
    fn position(&self, key: &[char]) -> (found: (usize, bool))
        ensures
            found.0 <= self.listed().len(),
            forall|j: int| 0 <= j < found.0 ==> text_lt(#[trigger] self.listed()[j].0, key@),
            found.1 ==> found.0 < self.listed().len() && self.listed()[found.0 as int].0 == key@,
            !found.1 && found.0 < self.listed().len() ==> text_lt(key@, self.listed()[found.0 as int].0),
    {
        let mut i: usize = 0;
        while i < self.entries.len()
            invariant
                i <= self.listed().len(),
                self.listed().len() == self.entries@.len(),
                forall|j: int| 0 <= j < i ==> text_lt(#[trigger] self.listed()[j].0, key@),
            decreases self.entries@.len() - i,
        {
            let at = chars_of(self.entries[i].0.as_str());
            assert(self.listed()[i as int].0 == at@);
            match order_of(at.as_slice(), key) {
                Order::Before => {
                    i = i + 1;
                },
                Order::Same => {
                    return (i, true);
                },
                Order::After => {
                    return (i, false);
                },
            }
        }
        (i, false)
    }

    /// Sets the value of a key.
    pub fn insert(&mut self, key: &str, value: &str)
        ensures
            final(self)@ == old(self)@.insert(key@, value@),
    {
        proof {
            use_type_invariant(&*self);
        }
        let ghost before = self.listed();
        let (at, found) = self.position(chars_of(key).as_slice());
        let mut entries: Vec<(String, String)> = Vec::new();
        std::mem::swap(&mut entries, &mut self.entries);
        let entry = (key.to_owned(), value.to_owned());
        let ghost plain = entries@;
        if found {
            entries[at] = entry;
            proof {
                lemma_replace(before, at as int, value@);
                assert(entries@.map_values(|entry: (String, String)| (entry.0@, entry.1@)) =~= before.update(
                    at as int,
                    (key@, value@),
                ));
            }
        } else {
            entries.insert(at, entry);
            proof {
                lemma_place(before, at as int, (key@, value@));
                assert(entries@.map_values(|entry: (String, String)| (entry.0@, entry.1@)) =~= before.insert(
                    at as int,
                    (key@, value@),
                ));
            }
        }
        self.entries = entries;
    }

    /// The value of a key.
    pub fn get(&self, key: &str) -> (value: Option<&str>)
        ensures
            match value {
                Some(text) => self@.contains_key(key@) && text@ == self@[key@],
                None => !self@.contains_key(key@),
            },
    {
        proof {
            use_type_invariant(self);
        }
        let (at, found) = self.position(chars_of(key).as_slice());
        if found {
            proof {
                lemma_rising_get(self.listed(), at as int);
            }
            Some(self.entries[at].1.as_str())
        } else {
            proof {
                let listed = self.listed();
                lemma_entries_map(listed);
                if self@.contains_key(key@) {
                    let i = choose|i: int| 0 <= i < listed.len() && listed[i].0 == key@;
                    if i < at {
                        assert(text_lt(listed[i].0, key@));
                    } else if i > at {
                        lemma_text_lt_transitive(key@, listed[at as int].0, listed[i].0);
                    }
                    lemma_text_lt_irreflexive(key@);
                }
            }
            None
        }
    }

    /// The settings as a text, one line for each.
    fn to_text(&self) -> (text: String)
        ensures
            text@ == map_text(self@),
    {
        proof {
            use_type_invariant(self);
            lemma_listing_is(self.listed());
        }
        let ghost lines = entry_lines(self.listed());
        let mut text = String::new();
        let mut i: usize = self.entries.len();
        assert(lines.skip(i as int) =~= Seq::empty());
        while i > 0
            invariant
                i <= self.entries@.len(),
                lines == entry_lines(self.listed()),
                text@ == join(lines.skip(i as int), seq!['\n']),
            decreases i,
        {
            i = i - 1;
            let mut line = self.entries[i].0.clone();
            line.push('=');
            line.append(self.entries[i].1.as_str());
            assert(line@ =~= entry_line(self.listed()[i as int]));
            assert(lines[i as int] == line@);
            let ghost rest = lines.skip(i as int);
            assert(rest.drop_first() =~= lines.skip(i + 1));
            if i + 1 < self.entries.len() {
                line.push('\n');
                line.append(text.as_str());
                assert(line@ =~= rest[0] + seq!['\n'] + join(rest.drop_first(), seq!['\n']));
            }
            text = line;
        }
        assert(lines.skip(0) =~= lines);
        text
    }

    /// The settings in the form in which they are sent. They are read back from it, where their lines
    /// can be told apart.
    pub fn to_bytes(&self) -> (bytes: Vec<u8>)
        ensures
            bytes@ == encode_utf8(map_text(self@)),
            lists(listing(self@), self@),
            separable(self@) ==> text_map(bytes_text(bytes@)) == self@,
    {
        proof {
            use_type_invariant(self);
            lemma_listing_is(self.listed());
            if separable(self@) {
                settings_round_trip(self.listed());
            }
        }
        slice_to_vec(self.to_text().as_str().as_bytes())
    }

    /// Reads settings from a text.
    pub fn from_text(text: &str) -> (map: Self)
        ensures
            map@ == text_map(text@),
    {
        let chars = chars_of(text);
        let lines = split_at(chars.as_slice(), '\n');
        let mut map = StringMap::new();
        let mut i: usize = 0;
        let ghost all = views(lines@);
        assert(all.take(0) =~= Seq::empty());
        while i < lines.len()
            invariant
                i <= lines@.len(),
                all == views(lines@),
                map@ == lines_map(all.take(i as int)),
            decreases lines@.len() - i,
        {
            proof {
                let read = all.take(i + 1);
                assert(read.drop_last() =~= all.take(i as int));
                assert(read.last() == lines@[i as int]@);
            }
            if let Some((key, value)) = split_once_at(lines[i], '=') {
                map.insert(text_of(key).as_str(), text_of(value).as_str());
            }
            i = i + 1;
        }
        assert(all.take(i as int) =~= split(text@, '\n'));
        map
    }

    /// Reads settings from the bytes in which they were sent. Bytes that are not UTF-8 are replaced.
    pub fn from_bytes(bytes: &[u8]) -> (map: Self)
        ensures
            map@ == text_map(bytes_text(bytes@)),
    {
        let text = lossy_text(bytes);
        StringMap::from_text(text.as_str())
    }

    /// Collects settings, the later ones taking precedence.
    pub fn from_iter(pairs: Vec<(String, String)>) -> (map: Self)
        ensures
            map@ == entries_map(pairs@.map_values(|pair: (String, String)| (pair.0@, pair.1@))),
    {
        let ghost all = pairs@.map_values(|pair: (String, String)| (pair.0@, pair.1@));
        let mut map = StringMap::new();
        let mut i: usize = 0;
        assert(all.take(0) =~= Seq::empty());
        while i < pairs.len()
            invariant
                i <= pairs@.len(),
                all == pairs@.map_values(|pair: (String, String)| (pair.0@, pair.1@)),
                map@ == entries_map(all.take(i as int)),
            decreases pairs@.len() - i,
        {
            assert(all.take(i + 1).drop_last() =~= all.take(i as int));
            map.insert(pairs[i].0.as_str(), pairs[i].1.as_str());
            i = i + 1;
        }
        assert(all.take(i as int) =~= all);
        map
    }
}

/// A text is read line by line. A line with an equals sign sets the key before its first one to what
/// stands behind it, in place of any earlier value; every other line is passed over.
pub proof fn lines_set_their_keys(lines: Seq<Seq<char>>, key: Seq<char>, value: Seq<char>, other: Seq<char>)
    requires
        forall|i: int| 0 <= i < lines.len() ==> !(#[trigger] lines[i]).contains('\n'),
        !key.contains('='),
        !key.contains('\n'),
        !value.contains('\n'),
        !other.contains('='),
        !other.contains('\n'),
    ensures
        text_map(join(lines.push(key.push('=') + value), seq!['\n'])) == lines_map(lines).insert(key, value),
        text_map(join(lines.push(other), seq!['\n'])) == lines_map(lines),
        lines.len() > 0 ==> text_map(join(lines, seq!['\n'])) == lines_map(lines),
        lines_map(Seq::empty()) == Map::<Seq<char>, Seq<char>>::empty(),
{
    let line = key.push('=') + value;
    lemma_line_last(lines, line);
    lemma_line_last(lines, other);
    lemma_split_once_of(key, '=', value);
    parts_are_told_apart(other, '=', Seq::empty());
    if lines.len() > 0 {
        lemma_split_join(lines, '\n');
    }
}

proof fn lemma_line_last(lines: Seq<Seq<char>>, line: Seq<char>)
    requires
        forall|i: int| 0 <= i < lines.len() ==> !(#[trigger] lines[i]).contains('\n'),
        !line.contains('\n') || split_once(line, '=') is Some,
    ensures
        !line.contains('\n') ==> text_map(join(lines.push(line), seq!['\n'])) == match split_once(line, '=') {
            Some((key, value)) => lines_map(lines).insert(key, value),
            None => lines_map(lines),
        },
{
    let all = lines.push(line);
    assert(all.drop_last() =~= lines);
    if !line.contains('\n') {
        assert forall|i: int| 0 <= i < all.len() implies !(#[trigger] all[i]).contains('\n') by {
            if i < lines.len() {
                assert(all[i] == lines[i]);
            }
        }
        lemma_split_join(all, '\n');
    }
}

/// Of entries with one key the last one counts, and the others are all there.
pub proof fn later_entries_count(entries: Seq<EntryView>, entry: EntryView)
    ensures
        entries_map(entries.push(entry)) == entries_map(entries).insert(entry.0, entry.1),
        entries_map(Seq::empty()) == Map::<Seq<char>, Seq<char>>::empty(),
{
    assert(entries.push(entry).drop_last() =~= entries);
}

/// A map is written with a line for each of its entries, key, equals sign and value, in the order of
/// the keys, and without a line break at its end.
pub proof fn maps_are_written_in_order(entries: Seq<EntryView>)
    requires
        rising(entries),
    ensures
        map_text(entries_map(entries)) == join(
            entries.map_values(|entry: EntryView| entry.0 + seq!['='] + entry.1),
            seq!['\n'],
        ),
{
    lemma_listing_is(entries);
    let lines = entries.map_values(|entry: EntryView| entry.0 + seq!['='] + entry.1);
    assert forall|i: int| 0 <= i < entries.len() implies #[trigger] entry_lines(entries)[i] == lines[i] by {
        assert(entry_line(entries[i]) =~= entries[i].0 + seq!['='] + entries[i].1);
    }
    assert(entry_lines(entries) =~= lines);
}

} // verus!
