//! Generators of the nearest integer square root: the integer whose square
//! lies nearest to the input.
//!
//! The upper end of a closest bracket may lie beyond the number type's
//! range even where every input has a representable root. The generators
//! therefore keep the upper end saturated at the largest representable
//! value.

use vstd::prelude::*;
use crate::bracket::{
    closest_covers, closest_hi, closest_lo, closest_sqrt, least, lemma_closest_adjacent,
    lemma_closest_ordered, lemma_closest_sqrt_covers, lemma_closest_sqrt_is, non_decreasing,
    non_increasing,
};
use crate::number::{CheckedMul, Number};

verus! {

/// The largest representable value of a number type.
pub trait MaxValue<T: Number> {
    /// The largest value of `T`.
    const MAX: T;

    /// `MAX` stands for the greatest integer that `T` can hold.
    proof fn max_is_highest()
        ensures
            Self::MAX.value() == T::highest(),
    ;
}

impl MaxValue<u8> for u8 {
    const MAX: u8 = u8::MAX;

    proof fn max_is_highest() {
    }
}

impl MaxValue<u16> for u16 {
    const MAX: u16 = u16::MAX;

    proof fn max_is_highest() {
    }
}

impl MaxValue<u32> for u32 {
    const MAX: u32 = u32::MAX;

    proof fn max_is_highest() {
    }
}

impl MaxValue<u64> for u64 {
    const MAX: u64 = u64::MAX;

    proof fn max_is_highest() {
    }
}

impl MaxValue<u128> for u128 {
    const MAX: u128 = u128::MAX;

    proof fn max_is_highest() {
    }
}

/// The upper end of the closest bracket of `s` as a generator over a type
/// with greatest value `highest` stores it.
pub open spec fn saturated_hi(s: int, highest: int) -> int {
    least(closest_hi(s), highest)
}

/// The estimate that an ascending generator holds after the input `n`, when
/// it held `s` before.
pub open spec fn ascend(s: int, n: int) -> int {
    if n <= closest_hi(s) {
        s
    } else {
        closest_sqrt(n)
    }
}

/// The estimate that a descending generator holds after the input `n`, when
/// it held `s` before.
pub open spec fn descend(s: int, n: int) -> int {
    if n >= closest_lo(s) {
        s
    } else {
        closest_sqrt(n)
    }
}

/// The estimate of an ascending generator that started from `seed` and has
/// taken the first `k` inputs of `xs`.
pub open spec fn ascending_after(seed: int, xs: Seq<int>, k: int) -> int
    decreases k,
{
    if k <= 0 {
        seed
    } else {
        ascend(ascending_after(seed, xs, k - 1), xs[k - 1])
    }
}

/// The estimate of a descending generator that started from `seed` and has
/// taken the first `k` inputs of `xs`.
pub open spec fn descending_after(seed: int, xs: Seq<int>, k: int) -> int
    decreases k,
{
    if k <= 0 {
        seed
    } else {
        descend(descending_after(seed, xs, k - 1), xs[k - 1])
    }
}

/// What an ascending generator that starts from `seed` returns for the
/// inputs `xs`, one after the other.
pub open spec fn ascending_outputs(seed: int, xs: Seq<int>) -> Seq<int> {
    Seq::new(xs.len(), |i: int| ascending_after(seed, xs, i + 1))
}

/// What a descending generator that starts from `seed` returns for the
/// inputs `xs`, one after the other.
pub open spec fn descending_outputs(seed: int, xs: Seq<int>) -> Seq<int> {
    Seq::new(xs.len(), |i: int| descending_after(seed, xs, i + 1))
}

/// An ascending step never lowers the estimate.
pub proof fn lemma_ascend_grows(s: int, n: int)
    ensures
        ascend(s, n) >= s,
{
    if n > closest_hi(s) {
        assert(s * s + s >= 0) by (nonlinear_arith);
        lemma_closest_sqrt_covers(n);
        let r: int = closest_sqrt(n);
        if 0 <= s && r < s {
            lemma_closest_ordered(r, s);
        }
    }
}

/// A descending step never raises an estimate that is not negative.
pub proof fn lemma_descend_shrinks(s: int, n: int)
    requires
        s >= 0,
        n >= 0,
    ensures
        0 <= descend(s, n) <= s,
{
    if n < closest_lo(s) {
        lemma_closest_sqrt_covers(n);
        let r: int = closest_sqrt(n);
        if s < r {
            lemma_closest_ordered(s, r);
        }
    }
}

/// Taking the same input twice in a row gives the same estimate both
/// times, whichever way the generator travels. The root of an input has a
/// bracket that holds the input, so a generator for inputs that move either
/// way is left as it is the second time.
pub proof fn lemma_repeated_input(s: int, n: int)
    requires
        n >= 0,
    ensures
        ascend(ascend(s, n), n) == ascend(s, n),
        descend(descend(s, n), n) == descend(s, n),
        closest_covers(closest_sqrt(n), n),
{
    lemma_closest_sqrt_covers(n);
}

/// An ascending generator's outputs never decrease, whatever its inputs
/// are, and so in particular on inputs that never decrease.
pub proof fn lemma_ascending_outputs_grow(seed: int, xs: Seq<int>, i: int, j: int)
    requires
        0 <= i <= j < xs.len(),
    ensures
        ascending_outputs(seed, xs)[i] <= ascending_outputs(seed, xs)[j],
    decreases j - i,
{
    if i < j {
        lemma_ascending_outputs_grow(seed, xs, i, j - 1);
        lemma_ascend_grows(ascending_after(seed, xs, j), xs[j]);
    }
}

/// On inputs that never decrease and begin at or above the seed's bracket,
/// an ascending generator returns the nearest root of every input.
pub proof fn lemma_ascending_exact(seed: int, xs: Seq<int>, k: int)
    requires
        seed >= 0,
        non_decreasing(xs),
        0 < k <= xs.len(),
        closest_lo(seed) <= xs[0],
    ensures
        ascending_after(seed, xs, k) == closest_sqrt(xs[k - 1]),
        closest_covers(ascending_after(seed, xs, k), xs[k - 1]),
    decreases k,
{
    assert(seed * seed >= seed) by (nonlinear_arith);
    let n: int = xs[k - 1];
    lemma_closest_sqrt_covers(n);
    if k > 1 {
        lemma_ascending_exact(seed, xs, k - 1);
    }
    let s: int = ascending_after(seed, xs, k - 1);
    assert(closest_covers(ascend(s, n), n));
    lemma_closest_sqrt_is(ascend(s, n), n);
}

/// On inputs that never increase, are not negative and begin at or below
/// the seed's bracket, a descending generator returns the nearest root
/// of every input.
pub proof fn lemma_descending_exact(seed: int, xs: Seq<int>, k: int)
    requires
        seed >= 0,
        non_increasing(xs),
        forall|i: int| 0 <= i < xs.len() ==> xs[i] >= 0,
        0 < k <= xs.len(),
        xs[0] <= closest_hi(seed),
    ensures
        descending_after(seed, xs, k) == closest_sqrt(xs[k - 1]),
        closest_covers(descending_after(seed, xs, k), xs[k - 1]),
    decreases k,
{
    let n: int = xs[k - 1];
    lemma_closest_sqrt_covers(n);
    if k > 1 {
        lemma_descending_exact(seed, xs, k - 1);
    }
    let s: int = descending_after(seed, xs, k - 1);
    assert(closest_covers(descend(s, n), n));
    lemma_closest_sqrt_is(descend(s, n), n);
}

/// Direction symmetry: where a descending generator is run from `seed` on
/// inputs that never increase, are not negative and begin at or below the
/// seed's bracket, an ascending generator run from 0 on the same inputs in
/// reverse order returns the same roots in reverse order.
pub proof fn lemma_direction_symmetry(seed: int, xs: Seq<int>)
    requires
        seed >= 0,
        non_increasing(xs),
        forall|i: int| 0 <= i < xs.len() ==> xs[i] >= 0,
        xs.len() > 0 ==> xs[0] <= closest_hi(seed),
    ensures
        ascending_outputs(0, xs.reverse()) == descending_outputs(seed, xs).reverse(),
{
    let up = ascending_outputs(0, xs.reverse());
    let down = descending_outputs(seed, xs).reverse();
    let ys = xs.reverse();
    assert(non_decreasing(ys));
    assert forall|i: int| 0 <= i < up.len() implies up[i] == down[i] by {
        lemma_ascending_exact(0, ys, i + 1);
        lemma_descending_exact(seed, xs, xs.len() - i);
    }
    assert(up =~= down);
}

/// The sum of two non-negative numbers, or the largest representable value
/// where the sum lies beyond it.
pub fn saturating_plus<T: Number + MaxValue<T>>(a: T, b: T) -> (r: T)
    requires
        a.value() >= 0,
        b.value() >= 0,
    ensures
        r.value() == least(a.value() + b.value(), T::highest()),
{
    proof {
        T::max_is_highest();
        T::bounded(a);
    }
    let room: T = T::MAX.minus(a);
    if room.below(b) {
        T::MAX
    } else {
        a.plus(b)
    }
}

/// The facts that let a generator climb from an estimate `s` whose bracket
/// ends below a representable input `n`.
proof fn lemma_climb(s: int, n: int, highest: int)
    requires
        s >= 0,
        closest_hi(s) < n <= highest,
        255 <= highest,
    ensures
        s + 1 <= closest_sqrt(n),
        s + 1 <= highest,
        2 * (s + 1) <= highest,
        closest_lo(s + 1) <= n,
        closest_lo(s + 1) == closest_hi(s) + 1,
        closest_hi(s + 1) == closest_hi(s) + 2 * (s + 1),
        closest_hi(s) >= 0,
{
    let r: int = closest_sqrt(n);
    lemma_closest_sqrt_covers(n);
    if r < s {
        lemma_closest_ordered(r, s);
    }
    lemma_closest_adjacent(s);
    assert(s * s >= 2 * s || s < 2) by (nonlinear_arith)
        requires
            s >= 0,
    ;
    assert(s * s >= 0) by (nonlinear_arith);
}

/// The facts that let a generator descend from an estimate `s` whose
/// bracket begins above a non-negative input `n`.
proof fn lemma_descent(s: int, n: int)
    requires
        s >= 0,
        0 <= n < closest_lo(s),
    ensures
        s >= 1,
        closest_hi(s - 1) == closest_lo(s) - 1,
        n <= closest_hi(s - 1),
        s - 1 >= 1 ==> closest_lo(s - 1) == closest_hi(s - 1) - 2 * (s - 1) + 1,
        closest_hi(s - 1) - 2 * (s - 1) + 1 >= 1 || s - 1 == 0,
        s - 1 == 0 <==> closest_hi(s - 1) == 0,
        2 * (s - 1) <= closest_lo(s),
{
    lemma_closest_adjacent(s - 1);
    assert((s - 1) * (s - 1) >= s - 1) by (nonlinear_arith)
        requires
            s >= 1,
    ;
    assert((s - 1) * (s - 1) >= 2 * (s - 1) || s - 1 < 2) by (nonlinear_arith)
        requires
            s >= 1,
    ;
    assert(s - 1 == 0 ==> (s - 1) * (s - 1) == 0) by (nonlinear_arith);
}

/// Root generator for inputs that move in either direction.
#[derive(Debug)]
pub struct Changing<T> {
    sqrt: T,
    lo: T,
    hi: T,
}

/// Root generator for inputs that never decrease.
#[derive(Debug)]
pub struct Ascending<T> {
    sqrt: T,
    hi: T,
}

/// Root generator for inputs that never increase.
#[derive(Debug)]
pub struct Descending<T> {
    sqrt: T,
    lo: T,
}

/// A generator for inputs that move in either direction, starting from the
/// estimate `init`, whose bracket must begin at a representable value. The
/// upper end of the bracket saturates where the square of `init`, or what
/// is added to it, lies beyond the largest representable value.
pub fn int_sqrt_gradually_changing_from<T>(init: T) -> (g: Changing<T>) where
    T: Number + CheckedMul + MaxValue<T>,

    requires
        init.value() >= 0,
        closest_lo(init.value()) <= T::highest(),
    ensures
        g.wf(),
        g.root() == init.value(),
{
    let s: T = init;
    proof {
        T::bounded(s);
        T::max_is_highest();
        assert(0 <= s.value() * s.value()) by (nonlinear_arith);
        assert(s.value() * (s.value() - 1) == s.value() * s.value() - s.value())
            by (nonlinear_arith);
        assert(s.value() <= s.value() * s.value()) by (nonlinear_arith)
            requires
                0 <= s.value(),
        ;
    }
    let hi: T = match s.checked_times(s) {
        None => T::MAX,
        Some(p) => saturating_plus(p, s),
    };
    let lo: T = if T::small(0).below(s) {
        s.times(s.minus(T::small(1))).plus(T::small(1))
    } else {
        T::small(0)
    };
    Changing { sqrt: init, lo, hi }
}

/// A generator for inputs that never decrease, starting from the estimate
/// `init`. The bracket of `init` must end at a representable value, unless
/// `init` is the largest representable value, which no input exceeds.
pub fn int_sqrt_gradually_ascending_from<T>(init: T) -> (g: Ascending<T>) where
    T: Number + MaxValue<T>,

    requires
        init.value() >= 0,
        init.value() == T::highest() || closest_hi(init.value()) <= T::highest(),
    ensures
        g.wf(),
        g.root() == init.value(),
{
    let s: T = init;
    proof {
        T::bounded(s);
        T::max_is_highest();
        assert(0 <= s.value() * s.value()) by (nonlinear_arith);
        assert(s.value() <= s.value() * s.value()) by (nonlinear_arith)
            requires
                0 <= s.value(),
        ;
    }
    let hi: T = if s.below(T::MAX) {
        s.times(s).plus(s)
    } else {
        T::MAX
    };
    Ascending { sqrt: init, hi }
}

/// A generator for inputs that never increase, starting from the estimate
/// `init`, whose bracket must begin at a representable value.
pub fn int_sqrt_gradually_descending_from<T>(init: T) -> (g: Descending<T>) where
    T: Number + MaxValue<T>,

    requires
        init.value() >= 0,
        closest_lo(init.value()) <= T::highest(),
    ensures
        g.wf(),
        g.root() == init.value(),
{
    let s: T = init;
    proof {
        T::bounded(s);
        assert(s.value() * (s.value() - 1) == s.value() * s.value() - s.value())
            by (nonlinear_arith);
        assert(s.value() <= s.value() * s.value()) by (nonlinear_arith)
            requires
                0 <= s.value(),
        ;
    }
    let lo: T = if T::small(0).below(s) {
        s.times(s.minus(T::small(1))).plus(T::small(1))
    } else {
        T::small(0)
    };
    Descending { sqrt: init, lo }
}

impl<T: Number + MaxValue<T>> Changing<T> {
    /// The current estimate.
    pub closed spec fn root(&self) -> int {
        self.sqrt.value()
    }

    /// The stored lower end of the bracket.
    pub closed spec fn lower(&self) -> int {
        self.lo.value()
    }

    /// The stored upper end of the bracket.
    pub closed spec fn upper(&self) -> int {
        self.hi.value()
    }

    /// The estimate is not negative and the stored bracket is its closest
    /// bracket, the upper end saturated.
    pub open spec fn wf(&self) -> bool {
        &&& self.root() >= 0
        &&& self.lower() == closest_lo(self.root())
        &&& self.upper() == saturated_hi(self.root(), T::highest())
    }

    /// Moves the estimate to the nearest root of `n` and returns it. An
    /// input inside the current bracket leaves the generator as it is.
    pub fn step(&mut self, n: T) -> (root: T)
        requires
            old(self).wf(),
            n.value() >= 0,
        ensures
            final(self).wf(),
            root.value() == final(self).root(),
            final(self).root() == closest_sqrt(n.value()),
            closest_covers(final(self).root(), n.value()),
            closest_covers(old(self).root(), n.value()) ==> *final(self) == *old(self),
    {
        let ghost start = *self;
        proof {
            T::bounded(n);
        }
        if self.hi.below(n) {
            while self.hi.below(n)
                invariant
                    self.wf(),
                    n.value() <= T::highest(),
                    self.lo.value() <= n.value(),
                decreases closest_sqrt(n.value()) - self.sqrt.value(),
            {
                proof {
                    T::bounded(self.sqrt);
                    lemma_climb(self.sqrt.value(), n.value(), T::highest());
                }
                self.sqrt = self.sqrt.plus(T::small(1));
                let s: T = self.sqrt;
                self.lo = self.hi.plus(T::small(1));
                self.hi = saturating_plus(self.hi, s.plus(s));
            }
        } else {
            while n.below(self.lo)
                invariant
                    self.wf(),
                    n.value() >= 0,
                    n.value() <= self.hi.value(),
                    n.value() >= closest_lo(start.sqrt.value()) ==> *self == start,
                decreases self.sqrt.value(),
            {
                proof {
                    lemma_descent(self.sqrt.value(), n.value());
                    T::bounded(self.lo);
                    T::bounded(self.sqrt);
                }
                self.sqrt = self.sqrt.minus(T::small(1));
                let s: T = self.sqrt;
                self.hi = self.lo.minus(T::small(1));
                self.lo = if T::small(0).below(self.hi) {
                    self.hi.minus(s).minus(s).plus(T::small(1))
                } else {
                    self.hi
                };
            }
        }
        proof {
            lemma_closest_sqrt_is(self.sqrt.value(), n.value());
        }
        self.sqrt
    }
}

impl<T: Number + MaxValue<T>> Ascending<T> {
    /// The current estimate.
    pub closed spec fn root(&self) -> int {
        self.sqrt.value()
    }

    /// The stored upper end of the bracket.
    pub closed spec fn upper(&self) -> int {
        self.hi.value()
    }

    /// The estimate is not negative and the stored bound is the saturated
    /// upper end of its closest bracket.
    pub open spec fn wf(&self) -> bool {
        &&& self.root() >= 0
        &&& self.upper() == saturated_hi(self.root(), T::highest())
    }

    /// Raises the estimate to the nearest root of `n` where `n` lies above
    /// the bracket, and returns the estimate. An input at or below the
    /// bracket's upper end leaves the generator as it is.
    pub fn step(&mut self, n: T) -> (root: T)
        requires
            old(self).wf(),
        ensures
            final(self).wf(),
            root.value() == final(self).root(),
            final(self).root() == ascend(old(self).root(), n.value()),
            final(self).root() >= old(self).root(),
            n.value() <= closest_hi(old(self).root()) ==> *final(self) == *old(self),
    {
        let ghost start = *self;
        let ghost before: int = self.sqrt.value();
        proof {
            T::bounded(n);
        }
        while self.hi.below(n)
            invariant
                self.wf(),
                before >= 0,
                n.value() <= T::highest(),
                self.sqrt.value() >= before,
                n.value() <= closest_hi(before) ==> *self == start,
                n.value() <= closest_hi(before) ==> self.sqrt.value() == before,
                self.sqrt.value() == before || closest_lo(self.sqrt.value()) <= n.value(),
            decreases closest_sqrt(n.value()) - self.sqrt.value(),
        {
            proof {
                T::bounded(self.sqrt);
                lemma_climb(self.sqrt.value(), n.value(), T::highest());
                if before < self.sqrt.value() {
                    lemma_closest_ordered(before, self.sqrt.value());
                }
            }
            self.sqrt = self.sqrt.plus(T::small(1));
            let s: T = self.sqrt;
            self.hi = saturating_plus(self.hi, s.plus(s));
        }
        proof {
            if n.value() > closest_hi(before) {
                lemma_closest_sqrt_is(self.sqrt.value(), n.value());
            }
        }
        self.sqrt
    }
}

impl<T: Number + MaxValue<T>> Descending<T> {
    /// The current estimate.
    pub closed spec fn root(&self) -> int {
        self.sqrt.value()
    }

    /// The stored lower end of the bracket.
    pub closed spec fn lower(&self) -> int {
        self.lo.value()
    }

    /// The estimate is not negative and the stored bound is the lower end
    /// of its closest bracket.
    pub open spec fn wf(&self) -> bool {
        &&& self.root() >= 0
        &&& self.lower() == closest_lo(self.root())
    }

    /// Lowers the estimate to the nearest root of `n` where `n` lies below
    /// the bracket, and returns the estimate. An input at or above the
    /// bracket's lower end leaves the generator as it is.
    pub fn step(&mut self, n: T) -> (root: T)
        requires
            old(self).wf(),
            n.value() >= 0,
        ensures
            final(self).wf(),
            root.value() == final(self).root(),
            final(self).root() == descend(old(self).root(), n.value()),
            final(self).root() <= old(self).root(),
            n.value() >= closest_lo(old(self).root()) ==> *final(self) == *old(self),
    {
        let ghost start = *self;
        let ghost before: int = self.sqrt.value();
        while n.below(self.lo)
            invariant
                self.wf(),
                n.value() >= 0,
                self.sqrt.value() <= before,
                n.value() >= closest_lo(before) ==> *self == start,
                n.value() >= closest_lo(before) ==> self.sqrt.value() == before,
                self.sqrt.value() == before || n.value() <= closest_hi(self.sqrt.value()),
            decreases self.sqrt.value(),
        {
            proof {
                lemma_descent(self.sqrt.value(), n.value());
                T::bounded(self.lo);
                T::bounded(self.sqrt);
            }
            self.sqrt = self.sqrt.minus(T::small(1));
            if T::small(0).below(self.sqrt) {
                let s: T = self.sqrt;
                self.lo = self.lo.minus(s.plus(s));
            } else {
                self.lo = T::small(0);
            }
        }
        proof {
            if n.value() < closest_lo(before) {
                lemma_closest_sqrt_is(self.sqrt.value(), n.value());
            }
        }
        self.sqrt
    }
}

} // verus!
