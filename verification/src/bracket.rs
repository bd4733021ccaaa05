//! Brackets: for each root estimate, the inclusive range of inputs for which
//! that estimate is the right answer, under either rounding rule.

use vstd::prelude::*;

verus! {

/// Least input whose truncating root is `s`.
pub open spec fn floor_lo(s: int) -> int {
    s * s
}

/// Greatest input whose truncating root is `s`: one less than `(s + 1)²`.
pub open spec fn floor_hi(s: int) -> int {
    s * s + 2 * s
}

/// `s` is a root estimate whose floor bracket holds `n`.
pub open spec fn floor_covers(s: int, n: int) -> bool {
    s >= 0 && floor_lo(s) <= n <= floor_hi(s)
}

/// The truncating integer square root of `n`: the estimate whose floor
/// bracket holds `n`.
pub open spec fn floor_sqrt(n: int) -> int {
    choose|s: int| floor_covers(s, n)
}

/// Least input whose nearest root is `s`.
pub open spec fn closest_lo(s: int) -> int {
    if s <= 0 {
        0
    } else {
        s * s - s + 1
    }
}

/// Greatest input whose nearest root is `s`; the midpoint between `s²` and
/// `(s + 1)²` belongs to the lower root.
pub open spec fn closest_hi(s: int) -> int {
    s * s + s
}

/// `s` is a root estimate whose closest bracket holds `n`.
pub open spec fn closest_covers(s: int, n: int) -> bool {
    s >= 0 && closest_lo(s) <= n <= closest_hi(s)
}

/// The integer whose square is nearest to `n`, the lower one on a tie.
pub open spec fn closest_sqrt(n: int) -> int {
    choose|s: int| closest_covers(s, n)
}

/// How far the square of `s` lies from `n`.
pub open spec fn distance(n: int, s: int) -> int {
    if n >= s * s {
        n - s * s
    } else {
        s * s - n
    }
}

/// The smaller of two integers.
pub open spec fn least(a: int, b: int) -> int {
    if a <= b {
        a
    } else {
        b
    }
}

/// No later element of `xs` is less than an earlier one.
pub open spec fn non_decreasing(xs: Seq<int>) -> bool {
    forall|i: int, j: int| 0 <= i <= j < xs.len() ==> xs[i] <= xs[j]
}

/// No later element of `xs` is greater than an earlier one.
pub open spec fn non_increasing(xs: Seq<int>) -> bool {
    forall|i: int, j: int| 0 <= i <= j < xs.len() ==> xs[i] >= xs[j]
}

/// Floor brackets follow one another without gap or overlap.
pub proof fn lemma_floor_adjacent(s: int)
    ensures
        floor_lo(s + 1) == floor_hi(s) + 1,
        floor_hi(s + 1) == floor_hi(s) + 2 * (s + 1) + 1,
{
    assert((s + 1) * (s + 1) == s * s + 2 * s + 1) by (nonlinear_arith);
}

/// Closest brackets follow one another without gap or overlap.
pub proof fn lemma_closest_adjacent(s: int)
    requires
        s >= 0,
    ensures
        closest_lo(s + 1) == closest_hi(s) + 1,
        closest_hi(s + 1) == closest_hi(s) + 2 * (s + 1),
{
    assert((s + 1) * (s + 1) == s * s + 2 * s + 1) by (nonlinear_arith);
}

/// Floor brackets of greater estimates lie strictly higher.
pub proof fn lemma_floor_ordered(a: int, b: int)
    requires
        0 <= a < b,
    ensures
        floor_hi(a) < floor_lo(b),
        floor_lo(a) < floor_lo(b),
        floor_hi(a) < floor_hi(b),
{
    assert((a + 1) * (a + 1) <= b * b) by (nonlinear_arith)
        requires
            0 <= a + 1 <= b,
    ;
    assert((a + 1) * (a + 1) == a * a + 2 * a + 1) by (nonlinear_arith);
    assert(a * a >= 0) by (nonlinear_arith);
}

/// Closest brackets of greater estimates lie strictly higher.
pub proof fn lemma_closest_ordered(a: int, b: int)
    requires
        0 <= a < b,
    ensures
        closest_hi(a) < closest_lo(b),
        closest_lo(a) < closest_lo(b),
        closest_hi(a) < closest_hi(b),
{
    assert((a + 1) * (a + 1) - (a + 1) <= b * b - b) by (nonlinear_arith)
        requires
            0 <= a + 1 <= b,
    ;
    assert((a + 1) * (a + 1) == a * a + 2 * a + 1) by (nonlinear_arith);
    assert(a * a >= a) by (nonlinear_arith)
        requires
            0 <= a,
    ;
}

/// At most one estimate has a floor bracket that holds a given input.
pub proof fn lemma_floor_unique(a: int, b: int, n: int)
    requires
        floor_covers(a, n),
        floor_covers(b, n),
    ensures
        a == b,
{
    if a < b {
        lemma_floor_ordered(a, b);
    } else if b < a {
        lemma_floor_ordered(b, a);
    }
}

/// At most one estimate has a closest bracket that holds a given input.
pub proof fn lemma_closest_unique(a: int, b: int, n: int)
    requires
        closest_covers(a, n),
        closest_covers(b, n),
    ensures
        a == b,
{
    if a < b {
        lemma_closest_ordered(a, b);
    } else if b < a {
        lemma_closest_ordered(b, a);
    }
}

/// Every non-negative input lies in the floor bracket of its root.
pub proof fn lemma_floor_sqrt_covers(n: int)
    requires
        n >= 0,
    ensures
        floor_covers(floor_sqrt(n), n),
    decreases n,
{
    if n == 0 {
        assert(floor_covers(0, n));
    } else {
        lemma_floor_sqrt_covers(n - 1);
        let s: int = floor_sqrt(n - 1);
        lemma_floor_adjacent(s);
        if n <= floor_hi(s) {
            assert(floor_covers(s, n));
        } else {
            assert((s + 1) * (s + 1) >= 0) by (nonlinear_arith);
            assert(floor_covers(s + 1, n));
        }
    }
}

/// Every non-negative input lies in the closest bracket of its root.
pub proof fn lemma_closest_sqrt_covers(n: int)
    requires
        n >= 0,
    ensures
        closest_covers(closest_sqrt(n), n),
    decreases n,
{
    if n == 0 {
        assert(closest_covers(0, n));
    } else {
        lemma_closest_sqrt_covers(n - 1);
        let s: int = closest_sqrt(n - 1);
        lemma_closest_adjacent(s);
        if n <= closest_hi(s) {
            assert(closest_covers(s, n));
        } else {
            assert(closest_covers(s + 1, n));
        }
    }
}

/// An estimate whose floor bracket holds `n` is the root of `n`.
pub proof fn lemma_floor_sqrt_is(s: int, n: int)
    requires
        floor_covers(s, n),
    ensures
        floor_sqrt(n) == s,
{
    lemma_floor_unique(s, floor_sqrt(n), n);
}

/// An estimate whose closest bracket holds `n` is the root of `n`.
pub proof fn lemma_closest_sqrt_is(s: int, n: int)
    requires
        closest_covers(s, n),
    ensures
        closest_sqrt(n) == s,
{
    lemma_closest_unique(s, closest_sqrt(n), n);
}

/// The floor bracket of `s` holds exactly the inputs from the square of
/// `s` up to, but not including, the square of `s + 1`.
pub proof fn lemma_floor_bracket_range(s: int, n: int)
    ensures
        floor_covers(s, n) <==> s >= 0 && s * s <= n < (s + 1) * (s + 1),
{
    lemma_floor_adjacent(s);
}

/// The truncating root: its square does not exceed the input, and the
/// square of the next integer does.
pub proof fn lemma_floor_correct(n: int)
    requires
        n >= 0,
    ensures
        floor_sqrt(n) >= 0,
        floor_sqrt(n) * floor_sqrt(n) <= n,
        (floor_sqrt(n) + 1) * (floor_sqrt(n) + 1) > n,
{
    lemma_floor_sqrt_covers(n);
    lemma_floor_adjacent(floor_sqrt(n));
}

/// The nearest root: the square of every other non-negative integer lies
/// strictly farther from the input.
pub proof fn lemma_closest_correct(n: int, t: int)
    requires
        n >= 0,
        t >= 0,
    ensures
        closest_sqrt(n) >= 0,
        distance(n, closest_sqrt(n)) <= distance(n, t),
        t != closest_sqrt(n) ==> distance(n, closest_sqrt(n)) < distance(n, t),
{
    lemma_closest_sqrt_covers(n);
    let s: int = closest_sqrt(n);
    if t > s {
        assert(t * t >= s * s + 2 * s + 1) by (nonlinear_arith)
            requires
                0 <= s + 1 <= t,
        ;
    } else if t < s {
        assert(t * t <= s * s - 2 * s + 1) by (nonlinear_arith)
            requires
                0 <= t <= s - 1,
        ;
    }
}

/// The square of the nearest root lies no farther from the input than the
/// squares of the integers next to it.
pub proof fn lemma_closest_beats_neighbours(n: int)
    requires
        n >= 0,
    ensures
        distance(n, closest_sqrt(n)) <= distance(n, closest_sqrt(n) + 1),
        closest_sqrt(n) > 0 ==> distance(n, closest_sqrt(n)) <= distance(
            n,
            closest_sqrt(n) - 1,
        ),
{
    lemma_closest_sqrt_covers(n);
    lemma_closest_correct(n, closest_sqrt(n) + 1);
    if closest_sqrt(n) > 0 {
        lemma_closest_correct(n, closest_sqrt(n) - 1);
    }
}

} // verus!
