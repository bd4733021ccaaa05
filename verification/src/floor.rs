//! Generators of the truncating integer square root.
//!
//! Each generator keeps a root estimate together with as much of its floor
//! bracket as its direction of travel needs, and walks the estimate one
//! step at a time until the bracket holds the input.

use vstd::prelude::*;
use crate::bracket::{
    floor_covers, floor_hi, floor_lo, floor_sqrt, lemma_floor_adjacent, lemma_floor_ordered,
    lemma_floor_sqrt_covers, lemma_floor_sqrt_is, non_decreasing, non_increasing,
};
use crate::number::{Number, Widen};

verus! {

/// The root of `n` and the upper end of its bracket are representable, so
/// that a generator can climb to it.
pub open spec fn fits<Num: Number, Sqrt: Number>(n: int) -> bool {
    floor_sqrt(n) <= Sqrt::highest() && floor_hi(floor_sqrt(n)) <= Num::highest()
}

/// The estimate that an ascending generator holds after the input `n`, when
/// it held `s` before.
pub open spec fn ascend(s: int, n: int) -> int {
    if n <= floor_hi(s) {
        s
    } else {
        floor_sqrt(n)
    }
}

/// The estimate that a descending generator holds after the input `n`, when
/// it held `s` before.
pub open spec fn descend(s: int, n: int) -> int {
    if n >= floor_lo(s) {
        s
    } else {
        floor_sqrt(n)
    }
}

/// The estimate of an ascending generator that started from `seed` and has
/// taken the first `k` inputs of `xs`.
pub open spec fn ascending_after(seed: int, xs: Seq<int>, k: int) -> int
    decreases k,
{
    if k <= 0 {
        seed
    } else {
        ascend(ascending_after(seed, xs, k - 1), xs[k - 1])
    }
}

/// The estimate of a descending generator that started from `seed` and has
/// taken the first `k` inputs of `xs`.
pub open spec fn descending_after(seed: int, xs: Seq<int>, k: int) -> int
    decreases k,
{
    if k <= 0 {
        seed
    } else {
        descend(descending_after(seed, xs, k - 1), xs[k - 1])
    }
}

/// What an ascending generator that starts from `seed` returns for the
/// inputs `xs`, one after the other.
pub open spec fn ascending_outputs(seed: int, xs: Seq<int>) -> Seq<int> {
    Seq::new(xs.len(), |i: int| ascending_after(seed, xs, i + 1))
}

/// What a descending generator that starts from `seed` returns for the
/// inputs `xs`, one after the other.
pub open spec fn descending_outputs(seed: int, xs: Seq<int>) -> Seq<int> {
    Seq::new(xs.len(), |i: int| descending_after(seed, xs, i + 1))
}

/// An ascending step never lowers the estimate.
pub proof fn lemma_ascend_grows(s: int, n: int)
    ensures
        ascend(s, n) >= s,
{
    if n > floor_hi(s) {
        assert((s + 1) * (s + 1) >= 0) by (nonlinear_arith);
        lemma_floor_adjacent(s);
        lemma_floor_sqrt_covers(n);
        let r: int = floor_sqrt(n);
        if 0 <= s && r < s {
            lemma_floor_ordered(r, s);
        }
    }
}

/// A descending step never raises an estimate that is not negative.
pub proof fn lemma_descend_shrinks(s: int, n: int)
    requires
        s >= 0,
        n >= 0,
    ensures
        0 <= descend(s, n) <= s,
{
    if n < floor_lo(s) {
        lemma_floor_sqrt_covers(n);
        let r: int = floor_sqrt(n);
        if s < r {
            lemma_floor_ordered(s, r);
        }
    }
}

/// Taking the same input twice in a row gives the same estimate both
/// times, whichever way the generator travels. The root of an input has a
/// bracket that holds the input, so a generator for inputs that move either
/// way is left as it is the second time.
pub proof fn lemma_repeated_input(s: int, n: int)
    requires
        n >= 0,
    ensures
        ascend(ascend(s, n), n) == ascend(s, n),
        descend(descend(s, n), n) == descend(s, n),
        floor_covers(floor_sqrt(n), n),
{
    lemma_floor_sqrt_covers(n);
}

/// An ascending generator's outputs never decrease, whatever its inputs
/// are, and so in particular on inputs that never decrease.
pub proof fn lemma_ascending_outputs_grow(seed: int, xs: Seq<int>, i: int, j: int)
    requires
        0 <= i <= j < xs.len(),
    ensures
        ascending_outputs(seed, xs)[i] <= ascending_outputs(seed, xs)[j],
    decreases j - i,
{
    if i < j {
        lemma_ascending_outputs_grow(seed, xs, i, j - 1);
        lemma_ascend_grows(ascending_after(seed, xs, j), xs[j]);
    }
}

/// On inputs that never decrease and begin at or above the seed's bracket,
/// an ascending generator returns the truncating root of every input.
pub proof fn lemma_ascending_exact(seed: int, xs: Seq<int>, k: int)
    requires
        seed >= 0,
        non_decreasing(xs),
        0 < k <= xs.len(),
        floor_lo(seed) <= xs[0],
    ensures
        ascending_after(seed, xs, k) == floor_sqrt(xs[k - 1]),
        floor_covers(ascending_after(seed, xs, k), xs[k - 1]),
    decreases k,
{
    assert(seed * seed >= 0) by (nonlinear_arith);
    let n: int = xs[k - 1];
    lemma_floor_sqrt_covers(n);
    if k > 1 {
        lemma_ascending_exact(seed, xs, k - 1);
    }
    let s: int = ascending_after(seed, xs, k - 1);
    assert(floor_covers(ascend(s, n), n));
    lemma_floor_sqrt_is(ascend(s, n), n);
}

/// On inputs that never increase, are not negative and begin at or below
/// the seed's bracket, a descending generator returns the truncating root
/// of every input.
pub proof fn lemma_descending_exact(seed: int, xs: Seq<int>, k: int)
    requires
        seed >= 0,
        non_increasing(xs),
        forall|i: int| 0 <= i < xs.len() ==> xs[i] >= 0,
        0 < k <= xs.len(),
        xs[0] <= floor_hi(seed),
    ensures
        descending_after(seed, xs, k) == floor_sqrt(xs[k - 1]),
        floor_covers(descending_after(seed, xs, k), xs[k - 1]),
    decreases k,
{
    let n: int = xs[k - 1];
    lemma_floor_sqrt_covers(n);
    if k > 1 {
        lemma_descending_exact(seed, xs, k - 1);
    }
    let s: int = descending_after(seed, xs, k - 1);
    assert(floor_covers(descend(s, n), n));
    lemma_floor_sqrt_is(descend(s, n), n);
}

/// Direction symmetry: where a descending generator is run from `seed` on
/// inputs that never increase, are not negative and begin at or below the
/// seed's bracket, an ascending generator run from 0 on the same inputs in
/// reverse order returns the same roots in reverse order.
pub proof fn lemma_direction_symmetry(seed: int, xs: Seq<int>)
    requires
        seed >= 0,
        non_increasing(xs),
        forall|i: int| 0 <= i < xs.len() ==> xs[i] >= 0,
        xs.len() > 0 ==> xs[0] <= floor_hi(seed),
    ensures
        ascending_outputs(0, xs.reverse()) == descending_outputs(seed, xs).reverse(),
{
    let up = ascending_outputs(0, xs.reverse());
    let down = descending_outputs(seed, xs).reverse();
    let ys = xs.reverse();
    assert(non_decreasing(ys));
    assert forall|i: int| 0 <= i < up.len() implies up[i] == down[i] by {
        lemma_ascending_exact(0, ys, i + 1);
        lemma_descending_exact(seed, xs, xs.len() - i);
    }
    assert(up =~= down);
}

/// Every input that is not negative and lies at or below the bracket of a
/// root `m` fits, where `m` and the upper end of its bracket are
/// representable.
pub proof fn lemma_fits_up_to<Num: Number, Sqrt: Number>(m: int, n: int)
    requires
        0 <= m <= Sqrt::highest(),
        floor_hi(m) <= Num::highest(),
        0 <= n <= floor_hi(m),
    ensures
        fits::<Num, Sqrt>(n),
{
    lemma_floor_sqrt_covers(n);
    let r: int = floor_sqrt(n);
    if m < r {
        lemma_floor_ordered(m, r);
    } else if r < m {
        lemma_floor_ordered(r, m);
    }
}

/// Type sizing: where the greatest value of `Num` is the upper end of the
/// bracket of some root `m` that `Sqrt` can hold, every input that is not
/// negative fits. This is so for an unsigned `Num` and an unsigned `Sqrt`
/// of at least half its width.
pub proof fn lemma_fits_whole_range<Num: Number, Sqrt: Number>(m: int, n: Num)
    requires
        0 <= m <= Sqrt::highest(),
        floor_hi(m) == Num::highest(),
        n.value() >= 0,
    ensures
        fits::<Num, Sqrt>(n.value()),
{
    Num::bounded(n);
    lemma_fits_up_to::<Num, Sqrt>(m, n.value());
}

/// With 16-bit inputs and 8-bit roots every input fits.
pub proof fn lemma_u16_fits_u8(n: u16)
    ensures
        fits::<u16, u8>(n.value()),
{
    assert(floor_hi(0xff) == 0xffff) by (nonlinear_arith);
    lemma_fits_whole_range::<u16, u8>(0xff, n);
}

/// With 32-bit inputs and 16-bit roots every input fits.
pub proof fn lemma_u32_fits_u16(n: u32)
    ensures
        fits::<u32, u16>(n.value()),
{
    assert(floor_hi(0xffff) == 0xffff_ffff) by (nonlinear_arith);
    lemma_fits_whole_range::<u32, u16>(0xffff, n);
}

/// With 64-bit inputs and 32-bit roots every input fits.
pub proof fn lemma_u64_fits_u32(n: u64)
    ensures
        fits::<u64, u32>(n.value()),
{
    assert(floor_hi(0xffff_ffff) == 0xffff_ffff_ffff_ffff) by (nonlinear_arith);
    lemma_fits_whole_range::<u64, u32>(0xffff_ffff, n);
}

/// With 128-bit inputs and 64-bit roots every input fits.
pub proof fn lemma_u128_fits_u64(n: u128)
    ensures
        fits::<u128, u64>(n.value()),
{
    assert(floor_hi(0xffff_ffff_ffff_ffff) == 0xffff_ffff_ffff_ffff_ffff_ffff_ffff_ffff)
        by (nonlinear_arith);
    lemma_fits_whole_range::<u128, u64>(0xffff_ffff_ffff_ffff, n);
}

/// The facts that let a generator climb from an estimate `s` whose bracket
/// ends below an input `n` that fits.
proof fn lemma_climb(s: int, n: int, root_highest: int, highest: int)
    requires
        s >= 0,
        floor_hi(s) < n,
        floor_sqrt(n) <= root_highest,
        floor_hi(floor_sqrt(n)) <= highest,
    ensures
        s + 1 <= floor_sqrt(n),
        s + 1 <= root_highest,
        floor_lo(s + 1) == floor_hi(s) + 1,
        floor_lo(s + 1) <= n,
        floor_hi(s + 1) == floor_hi(s) + 2 * (s + 1) + 1,
        floor_hi(s + 1) <= highest,
        floor_hi(s) >= 0,
{
    let r: int = floor_sqrt(n);
    assert(s * s >= 0) by (nonlinear_arith);
    lemma_floor_sqrt_covers(n);
    if r < s {
        lemma_floor_ordered(r, s);
    }
    if s + 1 < r {
        lemma_floor_ordered(s + 1, r);
    }
    lemma_floor_adjacent(s);
}

/// The facts that let a generator descend from an estimate `s` whose
/// bracket begins above a non-negative input `n`.
proof fn lemma_descent(s: int, n: int)
    requires
        s >= 0,
        0 <= n < floor_lo(s),
    ensures
        s >= 1,
        floor_hi(s - 1) == floor_lo(s) - 1,
        floor_lo(s - 1) == floor_hi(s - 1) - 2 * (s - 1),
        floor_lo(s - 1) == floor_lo(s) - (2 * (s - 1) + 1),
        floor_lo(s - 1) >= 0,
        n <= floor_hi(s - 1),
{
    assert(s == 0 ==> s * s == 0) by (nonlinear_arith);
    lemma_floor_adjacent(s - 1);
    assert(0 <= (s - 1) * (s - 1)) by (nonlinear_arith);
}

/// Root generator for inputs that move in either direction.
#[derive(Debug)]
pub struct Changing<Num, Sqrt> {
    sqrt: Sqrt,
    lo: Num,
    hi: Num,
}

/// Root generator for inputs that never decrease.
#[derive(Debug)]
pub struct Ascending<Num, Sqrt> {
    sqrt: Sqrt,
    hi: Num,
}

/// Root generator for inputs that never increase.
#[derive(Debug)]
pub struct Descending<Num, Sqrt> {
    sqrt: Sqrt,
    lo: Num,
}

/// A generator for inputs that move in either direction, starting from the
/// estimate `init`, whose bracket must be representable.
pub fn int_sqrt_gradually_changing_from<Num, Sqrt>(init: Sqrt) -> (g: Changing<Num, Sqrt>) where
    Num: Number,
    Sqrt: Widen<Num>,

    requires
        init.value() >= 0,
        floor_hi(init.value()) <= Num::highest(),
    ensures
        g.wf(),
        g.root() == init.value(),
{
    let s: Num = init.widen();
    proof {
        Num::bounded(s);
        assert(0 <= s.value() * s.value()) by (nonlinear_arith);
    }
    let lo: Num = s.times(s);
    let hi: Num = lo.plus(s.times(Num::small(2)));
    Changing { sqrt: init, lo, hi }
}

/// A generator for inputs that never decrease, starting from the estimate
/// `init`, whose bracket must end at a representable value.
pub fn int_sqrt_gradually_ascending_from<Num, Sqrt>(init: Sqrt) -> (g: Ascending<Num, Sqrt>) where
    Num: Number,
    Sqrt: Widen<Num>,

    requires
        init.value() >= 0,
        floor_hi(init.value()) <= Num::highest(),
    ensures
        g.wf(),
        g.root() == init.value(),
{
    let s: Num = init.widen();
    proof {
        Num::bounded(s);
        assert(s.value() * (s.value() + 2) == s.value() * s.value() + 2 * s.value())
            by (nonlinear_arith);
        assert(s.value() <= s.value() * s.value()) by (nonlinear_arith)
            requires
                0 <= s.value(),
        ;
    }
    let hi: Num = s.times(s.plus(Num::small(2)));
    Ascending { sqrt: init, hi }
}

/// A generator for inputs that never increase, starting from the estimate
/// `init`, whose bracket must begin at a representable value.
pub fn int_sqrt_gradually_descending_from<Num, Sqrt>(init: Sqrt) -> (g: Descending<Num, Sqrt>) where
    Num: Number,
    Sqrt: Widen<Num>,

    requires
        init.value() >= 0,
        floor_lo(init.value()) <= Num::highest(),
    ensures
        g.wf(),
        g.root() == init.value(),
{
    let s: Num = init.widen();
    proof {
        Num::bounded(s);
        assert(0 <= s.value() * s.value()) by (nonlinear_arith);
    }
    let lo: Num = s.times(s);
    Descending { sqrt: init, lo }
}

impl<Num: Number, Sqrt: Widen<Num>> Changing<Num, Sqrt> {
    /// The current estimate.
    pub closed spec fn root(&self) -> int {
        self.sqrt.value()
    }

    /// The stored lower end of the bracket.
    pub closed spec fn lower(&self) -> int {
        self.lo.value()
    }

    /// The stored upper end of the bracket.
    pub closed spec fn upper(&self) -> int {
        self.hi.value()
    }

    /// The estimate is not negative and the stored bracket is its floor
    /// bracket.
    pub open spec fn wf(&self) -> bool {
        &&& self.root() >= 0
        &&& self.lower() == floor_lo(self.root())
        &&& self.upper() == floor_hi(self.root())
    }

    /// Moves the estimate to the truncating root of `n` and returns it. An
    /// input inside the current bracket leaves the generator as it is.
    pub fn step(&mut self, n: Num) -> (root: Sqrt)
        requires
            old(self).wf(),
            n.value() >= 0,
            n.value() > floor_hi(old(self).root()) ==> fits::<Num, Sqrt>(n.value()),
        ensures
            final(self).wf(),
            root.value() == final(self).root(),
            final(self).root() == floor_sqrt(n.value()),
            floor_covers(final(self).root(), n.value()),
            floor_covers(old(self).root(), n.value()) ==> *final(self) == *old(self),
    {
        let ghost start = *self;
        if self.hi.below(n) {
            while self.hi.below(n)
                invariant
                    self.wf(),
                    fits::<Num, Sqrt>(n.value()),
                    self.lo.value() <= n.value(),
                decreases floor_sqrt(n.value()) - self.sqrt.value(),
            {
                proof {
                    lemma_climb(self.sqrt.value(), n.value(), Sqrt::highest(), Num::highest());
                    Sqrt::bounded(self.sqrt);
                    Num::bounded(self.hi);
                }
                self.sqrt = self.sqrt.plus(Sqrt::small(1));
                let s: Num = self.sqrt.widen();
                self.lo = self.hi.plus(Num::small(1));
                self.hi = self.lo.plus(s).plus(s);
            }
        } else {
            while n.below(self.lo)
                invariant
                    self.wf(),
                    n.value() >= 0,
                    n.value() <= self.hi.value(),
                    n.value() >= floor_lo(start.sqrt.value()) ==> *self == start,
                decreases self.sqrt.value(),
            {
                proof {
                    lemma_descent(self.sqrt.value(), n.value());
                    Sqrt::bounded(self.sqrt);
                    Num::bounded(self.lo);
                }
                self.sqrt = self.sqrt.minus(Sqrt::small(1));
                let s: Num = self.sqrt.widen();
                self.hi = self.lo.minus(Num::small(1));
                self.lo = self.hi.minus(s).minus(s);
            }
        }
        proof {
            lemma_floor_sqrt_is(self.sqrt.value(), n.value());
        }
        self.sqrt
    }
}

impl<Num: Number, Sqrt: Widen<Num>> Ascending<Num, Sqrt> {
    /// The current estimate.
    pub closed spec fn root(&self) -> int {
        self.sqrt.value()
    }

    /// The stored upper end of the bracket.
    pub closed spec fn upper(&self) -> int {
        self.hi.value()
    }

    /// The estimate is not negative and the stored bound is the upper end
    /// of its floor bracket.
    pub open spec fn wf(&self) -> bool {
        &&& self.root() >= 0
        &&& self.upper() == floor_hi(self.root())
    }

    /// Raises the estimate to the truncating root of `n` where `n` lies
    /// above the bracket, and returns the estimate. An input at or below
    /// the bracket's upper end leaves the generator as it is.
    pub fn step(&mut self, n: Num) -> (root: Sqrt)
        requires
            old(self).wf(),
            n.value() > floor_hi(old(self).root()) ==> fits::<Num, Sqrt>(n.value()),
        ensures
            final(self).wf(),
            root.value() == final(self).root(),
            final(self).root() == ascend(old(self).root(), n.value()),
            final(self).root() >= old(self).root(),
            n.value() <= floor_hi(old(self).root()) ==> *final(self) == *old(self),
    {
        let ghost start = *self;
        let ghost before: int = self.sqrt.value();
        while self.hi.below(n)
            invariant
                self.wf(),
                before >= 0,
                self.sqrt.value() >= before,
                n.value() > floor_hi(before) ==> fits::<Num, Sqrt>(n.value()),
                n.value() <= floor_hi(before) ==> *self == start,
                n.value() <= floor_hi(before) ==> self.sqrt.value() == before,
                self.sqrt.value() == before || floor_lo(self.sqrt.value()) <= n.value(),
            decreases floor_sqrt(n.value()) - self.sqrt.value(),
        {
            proof {
                if before < self.sqrt.value() {
                    lemma_floor_ordered(before, self.sqrt.value());
                }
                lemma_climb(self.sqrt.value(), n.value(), Sqrt::highest(), Num::highest());
                Sqrt::bounded(self.sqrt);
                Num::bounded(self.hi);
            }
            self.sqrt = self.sqrt.plus(Sqrt::small(1));
            let s: Num = self.sqrt.widen();
            self.hi = self.hi.plus(s.plus(s).plus(Num::small(1)));
        }
        proof {
            if n.value() > floor_hi(before) {
                lemma_floor_sqrt_is(self.sqrt.value(), n.value());
            }
        }
        self.sqrt
    }
}

impl<Num: Number, Sqrt: Widen<Num>> Descending<Num, Sqrt> {
    /// The current estimate.
    pub closed spec fn root(&self) -> int {
        self.sqrt.value()
    }

    /// The stored lower end of the bracket.
    pub closed spec fn lower(&self) -> int {
        self.lo.value()
    }

    /// The estimate is not negative and the stored bound is the lower end
    /// of its floor bracket.
    pub open spec fn wf(&self) -> bool {
        &&& self.root() >= 0
        &&& self.lower() == floor_lo(self.root())
    }

    /// Lowers the estimate to the truncating root of `n` where `n` lies
    /// below the bracket, and returns the estimate. An input at or above
    /// the bracket's lower end leaves the generator as it is.
    pub fn step(&mut self, n: Num) -> (root: Sqrt)
        requires
            old(self).wf(),
            n.value() >= 0,
        ensures
            final(self).wf(),
            root.value() == final(self).root(),
            final(self).root() == descend(old(self).root(), n.value()),
            final(self).root() <= old(self).root(),
            n.value() >= floor_lo(old(self).root()) ==> *final(self) == *old(self),
    {
        let ghost start = *self;
        let ghost before: int = self.sqrt.value();
        while n.below(self.lo)
            invariant
                self.wf(),
                n.value() >= 0,
                self.sqrt.value() <= before,
                n.value() >= floor_lo(before) ==> *self == start,
                n.value() >= floor_lo(before) ==> self.sqrt.value() == before,
                self.sqrt.value() == before || n.value() <= floor_hi(self.sqrt.value()),
            decreases self.sqrt.value(),
        {
            proof {
                lemma_descent(self.sqrt.value(), n.value());
                Sqrt::bounded(self.sqrt);
                Num::bounded(self.lo);
            }
            self.sqrt = self.sqrt.minus(Sqrt::small(1));
            let s: Num = self.sqrt.widen();
            self.lo = self.lo.minus(s.plus(s).plus(Num::small(1)));
        }
        proof {
            if n.value() < floor_lo(before) {
                lemma_floor_sqrt_is(self.sqrt.value(), n.value());
            }
        }
        self.sqrt
    }
}

} // verus!
