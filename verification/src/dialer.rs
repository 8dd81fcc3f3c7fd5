//! Dialing: in which order the addresses of a destination are tried.

use vstd::arithmetic::power2::pow2;
use vstd::bits::lemma_u128_shr_is_div;
use vstd::prelude::*;
use vstd::slice::slice_subrange;

use crate::digits::{
    dec, is_digit, lemma_dec, lemma_parse_dec, numbers_are_read, parse_int, parse_nat_upto, parse_signed,
    parse_unsigned,
};
use crate::error::{IoError, IoErrorKind};
use crate::ip::{
    address_texts_are_read, addresses_hold_no_slash, ip_of, ipv4_text, ipv6_text, socket_text, IpAddr, SocketAddr,
};
use crate::socks_addr::{addr_text, SocksAddr, SocksAddrView};
use crate::text::{
    chars_of, find_char, first_index, is_whitespace, is_word, lemma_first_index_is, parts_are_told_apart, same_text,
    split, split_at, split_once, split_once_at, views, whitespace_parts_words, words, words_of,
};

verus! {

/// How long one attempt to connect may take, in milliseconds.
pub const CONNECT_TIMEOUT_MS: u64 = 5_000;

/// The addresses that agree in their first `len` bits.
#[derive(Clone, Copy, Debug, PartialEq, Eq, Structural)]
pub struct IpPrefix {
    pub addr: u128,
    pub len: u8,
}

/// A preference for the addresses of a prefix. Larger values come first.
#[derive(Clone, Copy, Debug, PartialEq, Eq, Structural)]
pub struct GaiPrecedence {
    pub prefix: IpPrefix,
    pub value: i32,
}

/// The preferences of a system, as `gai.conf` states them.
#[derive(Debug)]
pub struct GaiConfig {
    precedence: Vec<GaiPrecedence>,
}

impl View for GaiConfig {
    type V = Seq<GaiPrecedence>;

    closed spec fn view(&self) -> Seq<GaiPrecedence> {
        self.precedence@
    }
}

/// An address as one of the newer family.
pub open spec fn as_ipv6(ip: IpAddr) -> nat {
    match ip {
        IpAddr::V4(ip) => (0xffff_0000_0000 + ip) as nat,
        IpAddr::V6(ip) => ip as nat,
    }
}

/// Whether an address starts with the prefix's bits.
pub open spec fn matches_prefix(prefix: IpPrefix, ip: IpAddr) -> bool {
    let below = pow2((128 - prefix.len) as nat);
    prefix.len == 0 || prefix.addr as nat / below == as_ipv6(ip) / below
}

/// The prefix that a text names: an address, a slash and a number of bits. A dotted address counts
/// its bits from its own first one. Without a slash the number is 128.
pub open spec fn prefix_of(text: Seq<char>) -> Option<IpPrefix> {
    let (address, len) = match split_once(text, '/') {
        Some((address, len)) => (address, parse_nat_upto(len, 255)),
        None => (text, Some(128nat)),
    };
    match (ip_of(address), len) {
        (Some(ip), Some(len)) => {
            let bits = match ip {
                IpAddr::V4(_) => 96 + len,
                IpAddr::V6(_) => len,
            };
            if bits <= 128 {
                Some(IpPrefix { addr: as_ipv6(ip) as u128, len: bits as u8 })
            } else {
                None
            }
        },
        _ => None,
    }
}

/// The integer that a text spells, if an `i32` holds it.
pub open spec fn i32_of(text: Seq<char>) -> Option<int> {
    match parse_int(text) {
        Some(n) => if i32::MIN <= n <= i32::MAX {
            Some(n)
        } else {
            None
        },
        None => None,
    }
}

/// A line without its comment.
pub open spec fn before_comment(line: Seq<char>) -> Seq<char> {
    line.take(first_index(line, '#'))
}

/// The preference that a line states: the word `precedence`, a prefix and a value.
pub open spec fn precedence_of(line: Seq<char>) -> Option<GaiPrecedence> {
    let parts = words(before_comment(line));
    if parts.len() >= 3 && parts[0] == "precedence"@ {
        match (prefix_of(parts[1]), i32_of(parts[2])) {
            (Some(prefix), Some(value)) => Some(GaiPrecedence { prefix, value: value as i32 }),
            _ => None,
        }
    } else {
        None
    }
}

/// The preferences that lines state. Lines that state none are passed over.
pub open spec fn precedences_of(lines: Seq<Seq<char>>) -> Seq<GaiPrecedence>
    decreases lines.len(),
{
    if lines.len() == 0 {
        Seq::empty()
    } else {
        let front = precedences_of(lines.drop_last());
        match precedence_of(lines.last()) {
            Some(precedence) => front.push(precedence),
            None => front,
        }
    }
}

/// The preference that an address falls under: the one with the longest prefix, and of several the
/// first.
pub open spec fn best_match(precedence: Seq<GaiPrecedence>, ip: IpAddr) -> Option<GaiPrecedence>
    decreases precedence.len(),
{
    if precedence.len() == 0 {
        None
    } else {
        let best = best_match(precedence.drop_last(), ip);
        let last = precedence.last();
        if matches_prefix(last.prefix, ip) && (best is None || last.prefix.len > best->0.prefix.len) {
            Some(last)
        } else {
            best
        }
    }
}

/// How much an address is preferred.
pub open spec fn preference(precedence: Seq<GaiPrecedence>, ip: IpAddr) -> i32 {
    match best_match(precedence, ip) {
        Some(best) => best.value,
        None => 0,
    }
}

/// The addresses that are preferred this much.
pub open spec fn preferred(precedence: Seq<GaiPrecedence>, addrs: Seq<SocketAddr>, value: i32) -> Seq<SocketAddr> {
    addrs.filter(|addr: SocketAddr| preference(precedence, addr.ip) == value)
}

/// The addresses come with the preferred ones first.
pub open spec fn falling(precedence: Seq<GaiPrecedence>, addrs: Seq<SocketAddr>) -> bool {
    forall|i: int, j: int|
        0 <= i < j < addrs.len() ==> preference(precedence, (#[trigger] addrs[i]).ip) >= preference(
            precedence,
            (#[trigger] addrs[j]).ip,
        )
}

/// `sorted` holds the addresses with the preferred ones first, and those that are preferred alike
/// in the order that they had.
pub open spec fn is_sorted_from(precedence: Seq<GaiPrecedence>, addrs: Seq<SocketAddr>, sorted: Seq<SocketAddr>) -> bool {
    &&& falling(precedence, sorted)
    &&& forall|value: i32| #[trigger] preferred(precedence, sorted, value) == preferred(precedence, addrs, value)
}

/// The longest prefix decides: no other that matches is longer, and none of its length comes
/// before it.
pub proof fn longest_prefix_decides(precedence: Seq<GaiPrecedence>, ip: IpAddr)
    ensures
        match best_match(precedence, ip) {
            Some(best) => exists|k: int|
                0 <= k < precedence.len() && (#[trigger] precedence[k]) == best && matches_prefix(best.prefix, ip)
                    && forall|i: int|
                    0 <= i < precedence.len() && matches_prefix((#[trigger] precedence[i]).prefix, ip)
                        ==> precedence[i].prefix.len < best.prefix.len || (precedence[i].prefix.len
                        == best.prefix.len && i >= k),
            None => forall|i: int|
                0 <= i < precedence.len() ==> !matches_prefix((#[trigger] precedence[i]).prefix, ip),
        },
    decreases precedence.len(),
{
    if precedence.len() > 0 {
        let front = precedence.drop_last();
        let n = precedence.len() - 1;
        longest_prefix_decides(front, ip);
        let before = best_match(front, ip);
        match best_match(precedence, ip) {
            Some(best) => {
                let k = if matches_prefix(precedence[n].prefix, ip) && (before is None || precedence[n].prefix.len
                    > before->0.prefix.len) {
                    n
                } else {
                    choose|k: int|
                        0 <= k < front.len() && (#[trigger] front[k]) == best && matches_prefix(best.prefix, ip)
                            && forall|i: int|
                            0 <= i < front.len() && matches_prefix((#[trigger] front[i]).prefix, ip)
                                ==> front[i].prefix.len < best.prefix.len || (front[i].prefix.len
                                == best.prefix.len && i >= k)
                };
                if k < n {
                    assert(front[k] == precedence[k]);
                }
                assert forall|i: int|
                    0 <= i < precedence.len() && matches_prefix((#[trigger] precedence[i]).prefix, ip) implies precedence[i].prefix.len
                    < best.prefix.len || (precedence[i].prefix.len == best.prefix.len && i >= k) by {
                    if i < n {
                        assert(front[i] == precedence[i]);
                    }
                }
                assert(precedence[k] == best);
            },
            None => {
                assert forall|i: int| 0 <= i < precedence.len() implies !matches_prefix(
                    (#[trigger] precedence[i]).prefix,
                    ip,
                ) by {
                    if i < n {
                        assert(front[i] == precedence[i]);
                    }
                }
            },
        }
    }
}

proof fn lemma_filter_count(s: Seq<SocketAddr>, keep: spec_fn(SocketAddr) -> bool, addr: SocketAddr)
    requires
        keep(addr),
    ensures
        s.filter(keep).to_multiset().count(addr) == s.to_multiset().count(addr),
    decreases s.len(),
{
    broadcast use vstd::seq_lib::to_multiset_build;

    reveal(Seq::filter);
    if s.len() > 0 {
        let front = s.drop_last();
        lemma_filter_count(front, keep, addr);
        assert(s =~= front.push(s.last()));
    }
}

/// Sorting neither loses nor adds an address.
pub proof fn sorting_keeps_the_addresses(
    precedence: Seq<GaiPrecedence>,
    addrs: Seq<SocketAddr>,
    sorted: Seq<SocketAddr>,
)
    requires
        is_sorted_from(precedence, addrs, sorted),
    ensures
        sorted.to_multiset() == addrs.to_multiset(),
{
    assert forall|addr: SocketAddr| sorted.to_multiset().count(addr) == addrs.to_multiset().count(addr) by {
        let value = preference(precedence, addr.ip);
        let keep = |other: SocketAddr| preference(precedence, other.ip) == value;
        lemma_filter_count(sorted, keep, addr);
        lemma_filter_count(addrs, keep, addr);
        assert(preferred(precedence, sorted, value) == preferred(precedence, addrs, value));
    }
    assert(sorted.to_multiset() =~= addrs.to_multiset());
}

fn ipv6_value(ip: IpAddr) -> (value: u128)
    ensures
        value == as_ipv6(ip),
{
    match ip {
        IpAddr::V4(ip) => 0xffff_0000_0000 + ip as u128,
        IpAddr::V6(ip) => ip,
    }
}

impl IpPrefix {
    /// The prefix that a text names.
    pub fn parse(value: &[char]) -> (prefix: Option<Self>)
        ensures
            prefix == prefix_of(value@),
    {
        let (address, len): (&[char], u64) = match split_once_at(value, '/') {
            Some((address, len)) => match parse_unsigned(len, 255) {
                Some(len) => (address, len),
                None => {
                    return None;
                },
            },
            None => (value, 128),
        };
        let ip = match IpAddr::parse(address) {
            Some(ip) => ip,
            None => {
                return None;
            },
        };
        let bits: u64 = match ip {
            IpAddr::V4(_) => 96 + len,
            IpAddr::V6(_) => len,
        };
        if bits > 128 {
            return None;
        }
        Some(IpPrefix { addr: ipv6_value(ip), len: bits as u8 })
    }

    /// Whether an address starts with the prefix's bits.
    pub fn matches(&self, ip: IpAddr) -> (yes: bool)
        requires
            self.len <= 128,
        ensures
            yes == matches_prefix(*self, ip),
    {
        if self.len == 0 {
            return true;
        }
        let shift: u128 = 128 - self.len as u128;
        let value = ipv6_value(ip);
        proof {
            lemma_u128_shr_is_div(self.addr, shift);
            lemma_u128_shr_is_div(value, shift);
        }
        self.addr >> shift == value >> shift
    }
}

/// The preference that a line states.
fn parse_line(line: &[char]) -> (precedence: Option<GaiPrecedence>)
    ensures
        precedence == precedence_of(line@),
        precedence is Some ==> precedence->0.prefix.len <= 128,
{
    let end = find_char(line, '#');
    let rule = slice_subrange(line, 0, end);
    assert(rule@ =~= before_comment(line@));
    let parts = words_of(rule);
    let ghost texts = words(rule@);
    assert(texts == views(parts@));
    if parts.len() < 3 {
        return None;
    }
    assert(texts[0] == parts@[0]@ && texts[1] == parts@[1]@ && texts[2] == parts@[2]@);
    let keyword = chars_of("precedence");
    if !same_text(parts[0], keyword.as_slice()) {
        return None;
    }
    let prefix = match IpPrefix::parse(parts[1]) {
        Some(prefix) => prefix,
        None => {
            return None;
        },
    };
    match parse_signed(parts[2]) {
        Some(value) => if -0x8000_0000 <= value && value <= 0x7fff_ffff {
            Some(GaiPrecedence { prefix, value: value as i32 })
        } else {
            None
        },
        None => None,
    }
}

impl Default for GaiConfig {
    fn default() -> (config: Self)
        ensures
            config@ == Seq::<GaiPrecedence>::empty(),
    {
        GaiConfig { precedence: Vec::new() }
    }
}

impl GaiConfig {
    #[verifier::type_invariant]
    spec fn well_formed(self) -> bool {
        forall|i: int| 0 <= i < self.precedence@.len() ==> (#[trigger] self.precedence@[i]).prefix.len <= 128
    }

    /// The preferences that a file's content states.
    pub fn parse(content: &str) -> (config: Self)
        ensures
            config@ == precedences_of(split(content@, '\n')),
    {
        let chars = chars_of(content);
        let lines = split_at(chars.as_slice(), '\n');
        let ghost all = views(lines@);
        let mut precedence: Vec<GaiPrecedence> = Vec::new();
        let mut i: usize = 0;
        assert(all.take(0) =~= Seq::empty());
        while i < lines.len()
            invariant
                i <= lines@.len(),
                all == views(lines@),
                precedence@ == precedences_of(all.take(i as int)),
                forall|j: int| 0 <= j < precedence@.len() ==> (#[trigger] precedence@[j]).prefix.len <= 128,
            decreases lines@.len() - i,
        {
            proof {
                assert(all.take(i + 1).drop_last() =~= all.take(i as int));
                assert(all.take(i + 1).last() == lines@[i as int]@);
            }
            if let Some(found) = parse_line(lines[i]) {
                precedence.push(found);
            }
            i = i + 1;
        }
        assert(all.take(i as int) =~= all);
        GaiConfig { precedence }
    }

    /// How much an address is preferred.
    pub fn precedence_value(&self, ip: IpAddr) -> (value: i32)
        ensures
            value == preference(self@, ip),
    {
        proof {
            use_type_invariant(self);
        }
        let mut best: Option<GaiPrecedence> = None;
        let mut i: usize = 0;
        assert(self.precedence@.take(0) =~= Seq::empty());
        while i < self.precedence.len()
            invariant
                i <= self.precedence@.len(),
                self.well_formed(),
                best == best_match(self.precedence@.take(i as int), ip),
            decreases self.precedence@.len() - i,
        {
            let entry = self.precedence[i];
            assert(self.precedence@.take(i + 1).drop_last() =~= self.precedence@.take(i as int));
            let longer = match best {
                Some(best) => entry.prefix.len > best.prefix.len,
                None => true,
            };
            if entry.prefix.matches(ip) && longer {
                best = Some(entry);
            }
            i = i + 1;
        }
        assert(self.precedence@.take(i as int) =~= self.precedence@);
        match best {
            Some(best) => best.value,
            None => 0,
        }
    }

    /// The addresses in the order in which they are tried.
    pub fn sort_socket_addrs(&self, addrs: Vec<SocketAddr>) -> (sorted: Vec<SocketAddr>)
        ensures
            is_sorted_from(self@, addrs@, sorted@),
            self@.len() == 0 ==> sorted@ == addrs@,
    {
        if self.precedence.len() == 0 {
            return addrs;
        }
        let mut sorted: Vec<SocketAddr> = Vec::new();
        let mut i: usize = 0;
        assert(addrs@.take(0) =~= Seq::empty());
        while i < addrs.len()
            invariant
                i <= addrs@.len(),
                is_sorted_from(self@, addrs@.take(i as int), sorted@),
            decreases addrs@.len() - i,
        {
            let addr = addrs[i];
            let value = self.precedence_value(addr.ip);
            let mut at: usize = sorted.len();
            while at > 0 && self.precedence_value(sorted[at - 1].ip) < value
                invariant
                    at <= sorted@.len(),
                    forall|j: int|
                        at <= j < sorted@.len() ==> preference(self@, (#[trigger] sorted@[j]).ip) < value,
                decreases at,
            {
                at = at - 1;
            }
            proof {
                lemma_insert(self@, addrs@.take(i as int), sorted@, at as int, addr);
                assert(addrs@.take(i + 1) =~= addrs@.take(i as int).push(addr));
            }
            sorted.insert(at, addr);
            i = i + 1;
        }
        assert(addrs@.take(i as int) =~= addrs@);
        sorted
    }

    /// The addresses to try for a destination, given those that its name was resolved to.
    pub fn addrs_to_try(&self, destination: &SocksAddr, resolved: Vec<SocketAddr>) -> (addrs: core::result::Result<
        Vec<SocketAddr>,
        IoError,
    >)
        ensures
            match destination@ {
                SocksAddrView::Ip(addr) => addrs matches Ok(addrs) && addrs@ == seq![addr],
                SocksAddrView::Domain(_, _) => if resolved@.len() == 0 {
                    addrs matches Err(err) && (err.kind, err.message@) == no_addresses(destination@)
                } else {
                    addrs matches Ok(addrs) && is_sorted_from(self@, resolved@, addrs@) && (self@.len() == 0
                        ==> addrs@ == resolved@)
                },
            },
    {
        match destination {
            SocksAddr::Ip(addr) => {
                let addrs: Vec<SocketAddr> = vec![*addr];
                assert(addrs@ =~= seq![*addr]);
                Ok(addrs)
            },
            SocksAddr::Domain { .. } => {
                if resolved.len() == 0 {
                    return Err(no_addresses_error(destination));
                }
                Ok(self.sort_socket_addrs(resolved))
            },
        }
    }
}

/// The error for a destination that has no addresses.
pub open spec fn no_addresses(destination: SocksAddrView) -> (IoErrorKind, Seq<char>) {
    (IoErrorKind::NotFound, "no addresses resolved for "@ + addr_text(destination))
}

fn no_addresses_error(destination: &SocksAddr) -> (err: IoError)
    ensures
        (err.kind, err.message@) == no_addresses(destination@),
{
    IoError {
        kind: IoErrorKind::NotFound,
        message: String::from_str("no addresses resolved for ").concat(destination.to_text().as_str()),
    }
}

/// An address that is put behind those that are preferred as much, and before the others, keeps
/// the addresses sorted.
proof fn lemma_insert(
    precedence: Seq<GaiPrecedence>,
    addrs: Seq<SocketAddr>,
    sorted: Seq<SocketAddr>,
    at: int,
    addr: SocketAddr,
)
    requires
        is_sorted_from(precedence, addrs, sorted),
        0 <= at <= sorted.len(),
        forall|j: int|
            at <= j < sorted.len() ==> preference(precedence, (#[trigger] sorted[j]).ip) < preference(
                precedence,
                addr.ip,
            ),
        at > 0 ==> preference(precedence, sorted[at - 1].ip) >= preference(precedence, addr.ip),
    ensures
        is_sorted_from(precedence, addrs.push(addr), sorted.insert(at, addr)),
{
    let all = sorted.insert(at, addr);
    let mine = preference(precedence, addr.ip);
    assert forall|i: int, j: int| 0 <= i < j < all.len() implies preference(precedence, (#[trigger] all[i]).ip)
        >= preference(precedence, (#[trigger] all[j]).ip) by {
        if j == at {
            assert(all[i] == sorted[i]);
            if i < at - 1 {
                assert(preference(precedence, sorted[i].ip) >= preference(precedence, sorted[at - 1].ip));
            }
        } else if i == at {
            assert(all[j] == sorted[j - 1]);
        } else {
            let k = if i < at { i } else { i - 1 };
            let l = if j < at { j } else { j - 1 };
            assert(all[i] == sorted[k] && all[j] == sorted[l]);
        }
    }
    assert forall|value: i32| #[trigger] preferred(precedence, all, value) == preferred(
        precedence,
        addrs.push(addr),
        value,
    ) by {
        let keep = |addr: SocketAddr| preference(precedence, addr.ip) == value;
        let head = sorted.take(at);
        let tail = sorted.skip(at);
        let one = seq![addr];
        assert(all =~= head + one + tail);
        assert(sorted =~= head + tail);
        assert(addrs.push(addr) =~= addrs + one);
        Seq::filter_distributes_over_add(head + one, tail, keep);
        Seq::filter_distributes_over_add(head, one, keep);
        Seq::filter_distributes_over_add(head, tail, keep);
        Seq::filter_distributes_over_add(addrs, one, keep);
        assert(preferred(precedence, sorted, value) == preferred(precedence, addrs, value));
        reveal(Seq::filter);
        assert(one.drop_last() =~= Seq::empty());
        if value == mine {
            assert forall|j: int| 0 <= j < tail.len() implies !keep(#[trigger] tail[j]) by {
                assert(tail[j] == sorted[at + j]);
            }
            lemma_none_kept(tail, keep);
            assert(head.filter(keep) + one.filter(keep) + tail.filter(keep) =~= head.filter(keep) + tail.filter(keep)
                + one.filter(keep));
        } else {
            lemma_none_kept(one, keep);
            assert(head.filter(keep) + one.filter(keep) + tail.filter(keep) =~= head.filter(keep) + tail.filter(keep)
                + one.filter(keep));
        }
    }
}

proof fn lemma_none_kept(addrs: Seq<SocketAddr>, keep: spec_fn(SocketAddr) -> bool)
    requires
        forall|j: int| 0 <= j < addrs.len() ==> !keep(#[trigger] addrs[j]),
    ensures
        addrs.filter(keep) == Seq::<SocketAddr>::empty(),
    decreases addrs.len(),
{
    reveal(Seq::filter);
    if addrs.len() > 0 {
        let front = addrs.drop_last();
        assert forall|j: int| 0 <= j < front.len() implies !keep(#[trigger] front[j]) by {
            assert(front[j] == addrs[j]);
        }
        lemma_none_kept(front, keep);
        assert(!keep(addrs[addrs.len() - 1]));
    }
}

/// Attempts to connect to one address after the other.
pub struct ConnectAttempts {
    addrs: Vec<SocketAddr>,
    next: usize,
    last_error: Option<IoError>,
}

impl ConnectAttempts {
    /// The addresses that have not been tried.
    pub closed spec fn left(self) -> Seq<SocketAddr> {
        if self.next <= self.addrs@.len() {
            self.addrs@.skip(self.next as int)
        } else {
            Seq::empty()
        }
    }

    /// How the last attempt failed.
    pub closed spec fn failure(self) -> Option<(IoErrorKind, Seq<char>)> {
        match self.last_error {
            Some(err) => Some((err.kind, err.message@)),
            None => None,
        }
    }

    pub fn new(addrs: Vec<SocketAddr>) -> (attempts: Self)
        ensures
            attempts.left() == addrs@,
            attempts.failure() is None,
    {
        assert(addrs@.skip(0) =~= addrs@);
        ConnectAttempts { addrs, next: 0, last_error: None }
    }

    /// The address to try next.
    pub fn next(&mut self) -> (addr: Option<SocketAddr>)
        ensures
            final(self).failure() == old(self).failure(),
            match addr {
                Some(addr) => old(self).left().len() > 0 && addr == old(self).left()[0] && final(self).left() == old(
                    self,
                ).left().drop_first(),
                None => old(self).left().len() == 0 && final(self).left() == old(self).left(),
            },
    {
        if self.next < self.addrs.len() {
            let addr = self.addrs[self.next];
            let ghost before = self.left();
            self.next = self.next + 1;
            assert(self.left() =~= before.drop_first());
            Some(addr)
        } else {
            None
        }
    }

    /// An attempt has failed.
    pub fn failed(&mut self, err: IoError)
        ensures
            final(self).left() == old(self).left(),
            final(self).failure() == Some((err.kind, err.message@)),
    {
        self.last_error = Some(err);
    }

    /// An attempt has taken too long.
    pub fn timed_out(&mut self, addr: SocketAddr)
        ensures
            final(self).left() == old(self).left(),
            final(self).failure() == Some(
                (
                    IoErrorKind::TimedOut,
                    "outbound tcp connect to "@ + socket_text(addr) + " timed out"@,
                ),
            ),
    {
        let message = String::from_str("outbound tcp connect to ").concat(addr.to_text().as_str()).concat(
            " timed out",
        );
        self.last_error = Some(IoError { kind: IoErrorKind::TimedOut, message });
    }

    /// Why no address could be connected to.
    pub fn give_up(self, destination: &SocksAddr) -> (err: IoError)
        ensures
            (err.kind, err.message@) == match self.failure() {
                Some(failure) => failure,
                None => no_addresses(destination@),
            },
    {
        match self.last_error {
            Some(err) => err,
            None => no_addresses_error(destination),
        }
    }
}

// What holds of preferences.

/// A prefix matches the addresses that share its block: those that agree with it in all but the bits
/// behind its length. The empty prefix matches every address, and one of 128 bits only its own.
#[verifier::rlimit(40)]
pub proof fn prefixes_match_their_blocks(prefix: IpPrefix, ip: IpAddr)
    requires
        prefix.len <= 128,
    ensures
        ({
            let value = match ip {
                IpAddr::V4(ip) => 0xffff_0000_0000 + ip,
                IpAddr::V6(ip) => ip as int,
            };
            let block = pow2((128 - prefix.len) as nat) as int;
            &&& prefix.len == 0 ==> matches_prefix(prefix, ip)
            &&& prefix.len == 128 ==> matches_prefix(prefix, ip) == (prefix.addr == value)
            &&& prefix.len > 0 ==> matches_prefix(prefix, ip) == (prefix.addr - prefix.addr as int % block == value - value
                % block)
        }),
{
    let value = as_ipv6(ip) as int;
    let block = pow2((128 - prefix.len) as nat) as int;
    let addr = prefix.addr as int;
    vstd::arithmetic::power2::lemma_pow2_pos((128 - prefix.len) as nat);
    vstd::arithmetic::power2::lemma2_to64();
    vstd::arithmetic::div_mod::lemma_fundamental_div_mod(addr, block);
    vstd::arithmetic::div_mod::lemma_fundamental_div_mod(value, block);
    assert(addr / block == value / block <==> block * (addr / block) == block * (value / block)) by (nonlinear_arith)
        requires
            block > 0,
    ;
    if prefix.len == 128 {
        assert(block == 1);
        assert(addr % 1 == 0 && value % 1 == 0);
    }
}

/// A prefix is an address, a slash and a number of bits, of which a dotted address has 32 and the
/// other kind 128. One that has more is none.
#[verifier::rlimit(40)]
pub proof fn prefixes_are_read(ip: u32, long: u128, bits: nat)
    requires
        bits <= 255,
    ensures
        prefix_of(ipv4_text(ip) + seq!['/'] + dec(bits)) == if bits <= 32 {
            Some(IpPrefix { addr: (0xffff_0000_0000 + ip) as u128, len: (96 + bits) as u8 })
        } else {
            None
        },
        prefix_of(ipv6_text(long) + seq!['/'] + dec(bits)) == if bits <= 128 {
            Some(IpPrefix { addr: long, len: bits as u8 })
        } else {
            None
        },
        prefix_of(ipv6_text(long)) == Some(IpPrefix { addr: long, len: 128 }),
{
    let dotted = ipv4_text(ip);
    let colons = ipv6_text(long);
    address_texts_are_read(IpAddr::V4(ip));
    address_texts_are_read(IpAddr::V6(long));
    addresses_hold_no_slash(ip, long);
    parts_are_told_apart(dotted, '/', dec(bits));
    parts_are_told_apart(colons, '/', dec(bits));
    assert(dotted + seq!['/'] + dec(bits) =~= dotted.push('/') + dec(bits));
    assert(colons + seq!['/'] + dec(bits) =~= colons.push('/') + dec(bits));
    numbers_are_read(bits, 255);
}

/// A line states a preference with the word `precedence`, a prefix and a value, parted by whitespace,
/// whatever a comment behind them says.
#[verifier::rlimit(40)]
pub proof fn preferences_are_read(prefix: Seq<char>, value: int, comment: Seq<char>)
    requires
        is_word(prefix),
        !prefix.contains('#'),
        0 <= value <= i32::MAX,
        prefix_of(prefix) is Some,
    ensures
        ({
            let line = "precedence"@ + seq![' '] + (prefix + seq![' '] + dec(value as nat));
            let stated = Some(GaiPrecedence { prefix: prefix_of(prefix)->0, value: value as i32 });
            &&& precedence_of(line) == stated
            &&& precedence_of(line.push('#') + comment) == stated
        }),
{
    let number = dec(value as nat);
    let line = "precedence"@ + seq![' '] + (prefix + seq![' '] + number);
    lemma_keyword();
    lemma_number(value as nat);
    lemma_parse_dec(value as nat);
    lemma_three_words("precedence"@, prefix, number);
    lemma_comment("precedence"@, prefix, number, comment);
    lemma_stated(line, "precedence"@, prefix, number);
    lemma_stated(line.push('#') + comment, "precedence"@, prefix, number);
}

/// What a line of three words states.
#[verifier::rlimit(40)]
proof fn lemma_stated(line: Seq<char>, a: Seq<char>, b: Seq<char>, c: Seq<char>)
    requires
        words(before_comment(line)) == seq![a, b, c],
    ensures
        a != "precedence"@ ==> precedence_of(line) is None,
        a == "precedence"@ && prefix_of(b) is Some && i32_of(c) is Some ==> precedence_of(line) == Some(
            GaiPrecedence { prefix: prefix_of(b)->0, value: i32_of(c)->0 as i32 },
        ),
{
}

proof fn lemma_number(n: nat)
    ensures
        dec(n).len() > 0,
        forall|i: int| 0 <= i < dec(n).len() ==> is_digit(#[trigger] dec(n)[i]) || dec(n)[i] == '-',
{
    lemma_dec(n);
}

/// Preferences come in the order of their lines, and lines that state none are passed over.
pub proof fn preferences_keep_their_order(before: Seq<Seq<char>>, line: Seq<char>, after: Seq<Seq<char>>)
    ensures
        precedences_of(before.push(line) + after) == precedences_of(before) + (match precedence_of(line) {
            Some(precedence) => seq![precedence],
            None => Seq::empty(),
        }) + precedences_of(after),
        precedences_of(Seq::empty()).len() == 0,
    decreases after.len(),
{
    let all = before.push(line) + after;
    let middle = match precedence_of(line) {
        Some(precedence) => seq![precedence],
        None => Seq::empty(),
    };
    if after.len() == 0 {
        assert(all =~= before.push(line));
        assert(all.drop_last() =~= before);
        assert(precedences_of(all) =~= precedences_of(before) + middle + precedences_of(after));
    } else {
        preferences_keep_their_order(before, line, after.drop_last());
        assert(all.drop_last() =~= before.push(line) + after.drop_last());
        assert(precedences_of(all) =~= precedences_of(before) + middle + precedences_of(after));
    }
}

/// An address is preferred as much as the preference says that it falls under, whatever that is, and
/// with the value zero where it falls under none.
pub proof fn preferences_have_their_values(precedence: Seq<GaiPrecedence>, ip: IpAddr, k: int)
    ensures
        0 <= k < precedence.len() && matches_prefix(precedence[k].prefix, ip) && (forall|i: int|
            0 <= i < precedence.len() && i != k && matches_prefix((#[trigger] precedence[i]).prefix, ip)
                ==> precedence[i].prefix.len < precedence[k].prefix.len) ==> preference(precedence, ip)
            == precedence[k].value,
        (forall|i: int| 0 <= i < precedence.len() ==> !matches_prefix((#[trigger] precedence[i]).prefix, ip))
            ==> preference(precedence, ip) == 0,
{
    longest_prefix_decides(precedence, ip);
    if let Some(best) = best_match(precedence, ip) {
        let j = choose|j: int|
            0 <= j < precedence.len() && (#[trigger] precedence[j]) == best && matches_prefix(best.prefix, ip)
                && forall|i: int|
                0 <= i < precedence.len() && matches_prefix((#[trigger] precedence[i]).prefix, ip)
                    ==> precedence[i].prefix.len < best.prefix.len || (precedence[i].prefix.len == best.prefix.len && i
                    >= j);
        assert(matches_prefix(precedence[j].prefix, ip));
    }
}

/// Addresses are tried with the preferred ones first, and those that are preferred alike in the order
/// in which they came.
pub proof fn preferred_addresses_are_tried_first(
    precedence: Seq<GaiPrecedence>,
    addrs: Seq<SocketAddr>,
    sorted: Seq<SocketAddr>,
    i: int,
    j: int,
    value: i32,
)
    requires
        is_sorted_from(precedence, addrs, sorted),
    ensures
        0 <= i < j < sorted.len() ==> preference(precedence, sorted[i].ip) >= preference(precedence, sorted[j].ip),
        sorted.filter(|addr: SocketAddr| preference(precedence, addr.ip) == value) == addrs.filter(
            |addr: SocketAddr| preference(precedence, addr.ip) == value,
        ),
{
    assert(preferred(precedence, sorted, value) == preferred(precedence, addrs, value));
}

/// A value may also be below zero.
#[verifier::rlimit(40)]
pub proof fn values_may_be_below_zero(prefix: Seq<char>, value: nat)
    requires
        is_word(prefix),
        !prefix.contains('#'),
        prefix_of(prefix) is Some,
        0 < value <= 0x8000_0000,
    ensures
        precedence_of("precedence"@ + seq![' '] + (prefix + seq![' '] + (seq!['-'] + dec(value)))) == Some(
            GaiPrecedence { prefix: prefix_of(prefix)->0, value: (-value) as i32 },
        ),
{
    let number = seq!['-'] + dec(value);
    lemma_keyword();
    numbers_are_read(value, 0);
    lemma_number(value);
    assert forall|i: int| 0 <= i < number.len() implies is_digit(#[trigger] number[i]) || number[i] == '-' by {
        if i > 0 {
            assert(number[i] == dec(value)[i - 1]);
        }
    }
    lemma_three_words("precedence"@, prefix, number);
    lemma_stated("precedence"@ + seq![' '] + (prefix + seq![' '] + number), "precedence"@, prefix, number);
}

proof fn lemma_keyword()
    ensures
        is_word("precedence"@),
        !"precedence"@.contains('#'),
{
    reveal_strlit("precedence");
}

/// A line with another word in front, or with that word alone, states nothing, and neither does a
/// comment.
#[verifier::rlimit(40)]
pub proof fn other_lines_state_nothing(prefix: Seq<char>, value: nat, word: Seq<char>, comment: Seq<char>)
    requires
        is_word(prefix),
        is_word(word),
        !word.contains('#'),
        !prefix.contains('#'),
    ensures
        precedence_of(seq!['#'] + comment) is None,
        precedence_of(word) is None,
        word != "precedence"@ ==> precedence_of(word + seq![' '] + (prefix + seq![' '] + dec(value))) is None,
{
    let line = word + seq![' '] + (prefix + seq![' '] + dec(value));
    lemma_number(value);
    lemma_three_words(word, prefix, dec(value));
    lemma_stated(line, word, prefix, dec(value));
    lemma_one_word(word, comment);
}

proof fn lemma_one_word(word: Seq<char>, comment: Seq<char>)
    requires
        is_word(word),
        !word.contains('#'),
    ensures
        words(before_comment(word)).len() == 1,
        words(before_comment(seq!['#'] + comment)).len() == 0,
{
    lemma_first_index_is(seq!['#'] + comment, '#', 0);
    assert((seq!['#'] + comment).take(0) =~= Seq::empty());
    whitespace_parts_words(word, ' ', Seq::empty());
    assert forall|j: int| 0 <= j < word.len() implies word[j] != '#' by {
        assert(word.contains(word[j]));
    }
    lemma_first_index_is(word, '#', word.len() as int);
    assert(word.take(word.len() as int) =~= word);
}

proof fn lemma_three_words(a: Seq<char>, b: Seq<char>, c: Seq<char>)
    requires
        is_word(a),
        is_word(b),
        !a.contains('#'),
        !b.contains('#'),
        c.len() > 0,
        forall|i: int| 0 <= i < c.len() ==> is_digit(#[trigger] c[i]) || c[i] == '-',
    ensures
        words(before_comment(a + seq![' '] + (b + seq![' '] + c))) == seq![a, b, c],
{
    let line = a + seq![' '] + (b + seq![' '] + c);
    lemma_words_of_line(a, b, c);
    lemma_no_comment(a, b, c);
    lemma_first_index_is(line, '#', line.len() as int);
    assert(line.take(line.len() as int) =~= line);
}

proof fn lemma_comment(a: Seq<char>, b: Seq<char>, c: Seq<char>, comment: Seq<char>)
    requires
        is_word(a),
        is_word(b),
        !a.contains('#'),
        !b.contains('#'),
        c.len() > 0,
        forall|i: int| 0 <= i < c.len() ==> is_digit(#[trigger] c[i]) || c[i] == '-',
    ensures
        words(before_comment((a + seq![' '] + (b + seq![' '] + c)).push('#') + comment)) == seq![a, b, c],
{
    let line = a + seq![' '] + (b + seq![' '] + c);
    let commented = line.push('#') + comment;
    lemma_words_of_line(a, b, c);
    lemma_no_comment(a, b, c);
    lemma_first_index_is(commented, '#', line.len() as int);
    assert(commented.take(line.len() as int) =~= line);
}

proof fn lemma_words_of_line(a: Seq<char>, b: Seq<char>, c: Seq<char>)
    requires
        is_word(a),
        is_word(b),
        c.len() > 0,
        forall|i: int| 0 <= i < c.len() ==> is_digit(#[trigger] c[i]) || c[i] == '-',
    ensures
        words(a + seq![' '] + (b + seq![' '] + c)) == seq![a, b, c],
{
    assert(is_word(c)) by {
        assert forall|i: int| 0 <= i < c.len() implies !is_whitespace(#[trigger] c[i]) by {
            assert(is_digit(c[i]) || c[i] == '-');
        }
    }
    whitespace_parts_words(a, ' ', b + seq![' '] + c);
    whitespace_parts_words(b, ' ', c);
    whitespace_parts_words(c, ' ', Seq::empty());
    assert(seq![a] + (seq![b] + seq![c]) =~= seq![a, b, c]);
}

proof fn lemma_no_comment(a: Seq<char>, b: Seq<char>, c: Seq<char>)
    requires
        !a.contains('#'),
        !b.contains('#'),
        forall|i: int| 0 <= i < c.len() ==> is_digit(#[trigger] c[i]) || c[i] == '-',
    ensures
        forall|j: int|
            0 <= j < (a + seq![' '] + (b + seq![' '] + c)).len() ==> (a + seq![' '] + (b + seq![' '] + c))[j] != '#',
{
    let behind = b + seq![' '] + c;
    let line = a + seq![' '] + behind;
    assert forall|j: int| 0 <= j < line.len() implies line[j] != '#' by {
        if j < a.len() {
            assert(line[j] == a[j]);
            assert(a.contains(a[j]));
        } else if j > a.len() {
            let k = j - a.len() - 1;
            assert(line[j] == behind[k]);
            if k < b.len() {
                assert(behind[k] == b[k]);
                assert(b.contains(b[k]));
            } else if k > b.len() {
                assert(behind[k] == c[k - b.len() - 1]);
                assert(is_digit(c[k - b.len() - 1]) || c[k - b.len() - 1] == '-');
            }
        }
    }
}

/// A destination without addresses is reported as not found, by its text.
pub proof fn missing_addresses_are_reported(host: Seq<char>, port: u16)
    requires
        !host.contains(':'),
    ensures
        no_addresses(SocksAddrView::Domain(host, port)) == (
            IoErrorKind::NotFound,
            "no addresses resolved for "@ + (host + ":"@ + dec(port as nat)),
        ),
{
}

} // verus!
