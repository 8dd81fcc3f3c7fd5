//! The order of texts, character by character.

use vstd::prelude::*;

verus! {

/// How one text stands to another.
#[derive(Clone, Copy, PartialEq, Eq, Structural)]
pub enum Order {
    Before,
    Same,
    After,
}

/// Whether `a` comes before `b`: it is a proper prefix, or smaller at the first difference.
pub open spec fn text_lt(a: Seq<char>, b: Seq<char>) -> bool
    decreases a.len(),
{
    if b.len() == 0 {
        false
    } else if a.len() == 0 {
        true
    } else if a[0] == b[0] {
        text_lt(a.drop_first(), b.drop_first())
    } else {
        a[0] < b[0]
    }
}

pub proof fn lemma_text_lt_irreflexive(a: Seq<char>)
    ensures
        !text_lt(a, a),
    decreases a.len(),
{
    if a.len() > 0 {
        lemma_text_lt_irreflexive(a.drop_first());
    }
}

pub proof fn lemma_text_lt_transitive(a: Seq<char>, b: Seq<char>, c: Seq<char>)
    requires
        text_lt(a, b),
        text_lt(b, c),
    ensures
        text_lt(a, c),
    decreases a.len(),
{
    if a.len() > 0 && a[0] == b[0] && b[0] == c[0] {
        lemma_text_lt_transitive(a.drop_first(), b.drop_first(), c.drop_first());
    }
}

/// A shared prefix does not change the order of two texts.
pub proof fn lemma_text_lt_prefix(a: Seq<char>, b: Seq<char>, n: int)
    requires
        0 <= n <= a.len(),
        n <= b.len(),
        a.take(n) == b.take(n),
    ensures
        text_lt(a, b) == text_lt(a.skip(n), b.skip(n)),
    decreases n,
{
    if n == 0 {
        assert(a.skip(0) =~= a);
        assert(b.skip(0) =~= b);
    } else {
        assert(a[0] == a.take(n)[0]);
        assert(b[0] == b.take(n)[0]);
        assert(a.drop_first().take(n - 1) =~= a.take(n).drop_first());
        assert(b.drop_first().take(n - 1) =~= b.take(n).drop_first());
        lemma_text_lt_prefix(a.drop_first(), b.drop_first(), n - 1);
        assert(a.drop_first().skip(n - 1) =~= a.skip(n));
        assert(b.drop_first().skip(n - 1) =~= b.skip(n));
    }
}

/// Compares two texts.
pub fn order_of(a: &[char], b: &[char]) -> (order: Order)
    ensures
        match order {
            Order::Before => text_lt(a@, b@),
            Order::Same => a@ == b@,
            Order::After => text_lt(b@, a@),
        },
{
    let mut n: usize = 0;
    while n < a.len() && n < b.len() && a[n] == b[n]
        invariant
            n <= a@.len(),
            n <= b@.len(),
            a@.take(n as int) == b@.take(n as int),
        decreases a@.len() - n,
    {
        n = n + 1;
        assert(a@.take(n as int) =~= a@.take(n - 1).push(a@[n - 1]));
        assert(b@.take(n as int) =~= b@.take(n - 1).push(b@[n - 1]));
    }
    proof {
        lemma_text_lt_prefix(a@, b@, n as int);
        lemma_text_lt_prefix(b@, a@, n as int);
    }
    if n == a.len() {
        if n == b.len() {
            assert(a@.take(n as int) =~= a@);
            assert(b@.take(n as int) =~= b@);
            Order::Same
        } else {
            Order::Before
        }
    } else if n == b.len() {
        Order::After
    } else if a[n] < b[n] {
        Order::Before
    } else {
        Order::After
    }
}

/// One text comes before another if and only if it ends where the two agree, or has the smaller
/// character where they first differ. Of two texts that differ, exactly one comes before the other.
pub proof fn the_first_difference_decides(common: Seq<char>, a: Seq<char>, b: Seq<char>)
    requires
        a.len() > 0 && b.len() > 0 ==> a[0] != b[0],
    ensures
        text_lt(common + a, common + b) == (b.len() > 0 && (a.len() == 0 || a[0] < b[0])),
        a.len() > 0 || b.len() > 0 ==> text_lt(common + a, common + b) != text_lt(common + b, common + a),
{
    let x = common + a;
    let y = common + b;
    let n = common.len() as int;
    assert(x.take(n) =~= common && y.take(n) =~= common);
    assert(x.skip(n) =~= a && y.skip(n) =~= b);
    lemma_text_lt_prefix(x, y, n);
    lemma_text_lt_prefix(y, x, n);
}

} // verus!
