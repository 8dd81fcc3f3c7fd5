//! Big-endian integers, and the outcome of decoding a buffer that may still grow.

use vstd::prelude::*;

verus! {

/// The `n` low bytes of `x`, most significant first.
pub open spec fn be_bytes(x: nat, n: nat) -> Seq<u8>
    decreases n,
{
    if n == 0 {
        Seq::empty()
    } else {
        be_bytes(x / 256, (n - 1) as nat).push((x % 256) as u8)
    }
}

/// The number that these bytes spell, most significant first.
pub open spec fn be_value(s: Seq<u8>) -> nat
    decreases s.len(),
{
    if s.len() == 0 {
        0
    } else {
        be_value(s.drop_last()) * 256 + s.last() as nat
    }
}

/// How many numbers `n` bytes can spell.
pub open spec fn pow256(n: nat) -> nat
    decreases n,
{
    if n == 0 {
        1
    } else {
        256 * pow256((n - 1) as nat)
    }
}

/// `n` bytes, all zero.
pub open spec fn zeros(n: nat) -> Seq<u8> {
    Seq::new(n, |i: int| 0u8)
}

pub proof fn lemma_be_bytes_len(x: nat, n: nat)
    ensures
        be_bytes(x, n).len() == n,
    decreases n,
{
    if n > 0 {
        lemma_be_bytes_len(x / 256, (n - 1) as nat);
    }
}

/// Reading a big-endian number back gives the number that was written, where it fits.
pub proof fn lemma_be_round_trip(x: nat, n: nat)
    requires
        x < pow256(n),
    ensures
        be_value(be_bytes(x, n)) == x,
    decreases n,
{
    if n > 0 {
        lemma_be_round_trip(x / 256, (n - 1) as nat);
        assert(be_bytes(x, n).drop_last() =~= be_bytes(x / 256, (n - 1) as nat));
    }
}

/// Writing the number that was read gives the bytes back.
pub proof fn lemma_be_value_bytes(s: Seq<u8>)
    ensures
        be_bytes(be_value(s), s.len()) == s,
    decreases s.len(),
{
    if s.len() > 0 {
        lemma_be_value_bytes(s.drop_last());
        assert(be_bytes(be_value(s), s.len()) =~= s.drop_last().push(s.last()));
        assert(s.drop_last().push(s.last()) =~= s);
    }
}

pub proof fn lemma_be_value_bound(s: Seq<u8>)
    ensures
        be_value(s) < pow256(s.len()),
    decreases s.len(),
{
    if s.len() > 0 {
        lemma_be_value_bound(s.drop_last());
    }
}

pub proof fn lemma_pow256_monotonic(m: nat, n: nat)
    requires
        m <= n,
    ensures
        pow256(m) <= pow256(n),
    decreases n,
{
    if m < n {
        lemma_pow256_monotonic(m, (n - 1) as nat);
    }
}

pub proof fn lemma_pow256_values()
    ensures
        pow256(1) == 0x100,
        pow256(2) == 0x1_0000,
        pow256(4) == 0x1_0000_0000,
        pow256(8) == 0x1_0000_0000_0000_0000,
        pow256(16) == 0x1_0000_0000_0000_0000_0000_0000_0000_0000,
{
    reveal_with_fuel(pow256, 17);
}

/// Appends the `n` low bytes of `x`, most significant first.
pub fn push_be(out: &mut Vec<u8>, x: u128, n: usize)
    ensures
        final(out)@ == old(out)@ + be_bytes(x as nat, n as nat),
    decreases n,
{
    if n > 0 {
        push_be(out, x / 256, n - 1);
        out.push((x % 256) as u8);
    }
}

/// Reads the bytes from `start` to `end` as one big-endian number.
pub fn read_be(bytes: &[u8], start: usize, end: usize) -> (value: u128)
    requires
        start <= end <= bytes@.len(),
        end - start <= 16,
    ensures
        value == be_value(bytes@.subrange(start as int, end as int)),
        value < pow256((end - start) as nat),
{
    let mut value: u128 = 0;
    let mut i: usize = start;
    assert(bytes@.subrange(start as int, start as int) =~= Seq::empty());
    while i < end
        invariant
            start <= i <= end <= bytes@.len(),
            end - start <= 16,
            value == be_value(bytes@.subrange(start as int, i as int)),
        decreases end - i,
    {
        proof {
            let read = bytes@.subrange(start as int, i + 1);
            assert(read.drop_last() =~= bytes@.subrange(start as int, i as int));
            lemma_be_value_bound(read);
            lemma_pow256_monotonic(read.len(), 16);
            lemma_pow256_values();
        }
        value = value * 256 + bytes[i] as u128;
        i = i + 1;
    }
    proof {
        lemma_be_value_bound(bytes@.subrange(start as int, end as int));
    }
    value
}

/// Appends `n` zero bytes.
pub fn push_zeros(out: &mut Vec<u8>, n: usize)
    ensures
        final(out)@ == old(out)@ + zeros(n as nat),
{
    let mut fill: Vec<u8> = vec![0u8; n];
    assert(fill@ =~= zeros(n as nat));
    out.append(&mut fill);
}

/// Whether two byte strings are the same.
pub fn same_bytes(a: &[u8], b: &[u8]) -> (same: bool)
    ensures
        same == (a@ == b@),
{
    if a.len() != b.len() {
        return false;
    }
    let mut i: usize = 0;
    while i < a.len()
        invariant
            a@.len() == b@.len(),
            i <= a@.len(),
            forall|j: int| 0 <= j < i ==> a@[j] == b@[j],
        decreases a@.len() - i,
    {
        if a[i] != b[i] {
            return false;
        }
        i = i + 1;
    }
    assert(a@ =~= b@);
    true
}

/// 32 bytes as an array.
pub fn array_32(bytes: &[u8]) -> (array: [u8; 32])
    requires
        bytes@.len() == 32,
    ensures
        array@ == bytes@,
{
    let mut array = [0u8; 32];
    let mut i: usize = 0;
    while i < 32
        invariant
            i <= 32,
            bytes@.len() == 32,
            array@.len() == 32,
            forall|j: int| 0 <= j < i ==> array@[j] == bytes@[j],
        decreases 32 - i,
    {
        array[i] = bytes[i];
        i = i + 1;
    }
    assert(array@ =~= bytes@);
    array
}

/// How far the decoding of a buffer has come.
pub enum Progress<T> {
    /// A whole value, which the first `consumed` bytes spell.
    Done { value: T, consumed: usize },
    /// The buffer has to hold `total` bytes before decoding can go on.
    Need { total: usize },
}

/// The mathematical value of a `Result<Progress<_>>`.
pub enum Decoded<V> {
    Done(V, int),
    Need(int),
    Failed(crate::error::ErrorView),
}

/// The mathematical value of what a decoder returned.
pub open spec fn decoded<T: View>(r: crate::error::Result<Progress<T>>) -> Decoded<T::V> {
    match r {
        Ok(Progress::Done { value, consumed }) => Decoded::Done(value@, consumed as int),
        Ok(Progress::Need { total }) => Decoded::Need(total as int),
        Err(err) => Decoded::Failed(err@),
    }
}

/// The bytes of a number, most significant first: byte `i` of `n` counts for as many units as the
/// bytes behind it can spell numbers.
pub proof fn bytes_count_from_the_end(x: nat, n: nat, i: int)
    requires
        0 <= i < n,
    ensures
        be_bytes(x, n).len() == n,
        be_bytes(x, n)[i] == (x / pow256((n - 1 - i) as nat)) % 256,
    decreases n,
{
    lemma_be_bytes_len(x, n);
    lemma_be_bytes_len(x / 256, (n - 1) as nat);
    if i < n - 1 {
        let m = (n - 2 - i) as nat;
        bytes_count_from_the_end(x / 256, (n - 1) as nat, i);
        assert(pow256((m + 1) as nat) == 256 * pow256(m));
        lemma_pow256_positive(m);
        vstd::arithmetic::div_mod::lemma_div_denominator(x as int, 256, pow256(m) as int);
    } else {
        vstd::arithmetic::div_mod::lemma_div_by_self(1);
        assert(pow256(0) == 1);
        assert(x / 1nat == x);
    }
}

proof fn lemma_pow256_positive(n: nat)
    ensures
        pow256(n) > 0,
    decreases n,
{
    if n > 0 {
        lemma_pow256_positive((n - 1) as nat);
    }
}

/// Numbers of two and of four bytes, byte by byte.
pub proof fn short_numbers_byte_by_byte(x: nat)
    ensures
        be_bytes(x, 2) == seq![(x / 256 % 256) as u8, (x % 256) as u8],
        be_bytes(x, 4) == seq![
            (x / 0x100_0000 % 256) as u8,
            (x / 0x1_0000 % 256) as u8,
            (x / 256 % 256) as u8,
            (x % 256) as u8,
        ],
{
    reveal_with_fuel(be_bytes, 5);
    assert(be_bytes(x, 2) =~= seq![(x / 256 % 256) as u8, (x % 256) as u8]);
    assert(be_bytes(x, 4) =~= seq![
        (x / 0x100_0000 % 256) as u8,
        (x / 0x1_0000 % 256) as u8,
        (x / 256 % 256) as u8,
        (x % 256) as u8,
    ]);
}

} // verus!
