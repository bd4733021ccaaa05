//! The arithmetic that a number type must offer to take part in the
//! generators: a mathematical value, its representable range, and exact
//! operations that are only defined where the result is representable.

use vstd::prelude::*;

verus! {

/// A totally ordered number type with exact, overflow-free arithmetic.
///
/// Every operation is stated over [`Number::value`], the integer that a
/// machine value stands for. An operation may only be called where its
/// mathematical result lies between [`Number::lowest`] and
/// [`Number::highest`], so it never wraps and never panics.
pub trait Number: Copy + Sized {
    /// The integer that this machine value stands for.
    spec fn value(self) -> int;

    /// The least integer that the type can hold.
    spec fn lowest() -> int;

    /// The greatest integer that the type can hold.
    spec fn highest() -> int;

    /// Every value lies in the type's range, and the range holds at least
    /// the integers from 0 to 255.
    proof fn bounded(x: Self)
        ensures
            Self::lowest() <= x.value() <= Self::highest(),
            Self::lowest() <= 0,
            255 <= Self::highest(),
    ;

    /// The number that stands for a small literal.
    fn small(v: u8) -> (r: Self)
        ensures
            r.value() == v,
    ;

    /// Exact sum.
    fn plus(self, rhs: Self) -> (r: Self)
        requires
            Self::lowest() <= self.value() + rhs.value() <= Self::highest(),
        ensures
            r.value() == self.value() + rhs.value(),
    ;

    /// Exact difference.
    fn minus(self, rhs: Self) -> (r: Self)
        requires
            Self::lowest() <= self.value() - rhs.value() <= Self::highest(),
        ensures
            r.value() == self.value() - rhs.value(),
    ;

    /// Exact product.
    fn times(self, rhs: Self) -> (r: Self)
        requires
            Self::lowest() <= self.value() * rhs.value() <= Self::highest(),
        ensures
            r.value() == self.value() * rhs.value(),
    ;

    /// Strict order on the values.
    fn below(self, rhs: Self) -> (b: bool)
        ensures
            b == (self.value() < rhs.value()),
    ;
}

/// A root type whose every value is also a value of `Num`.
pub trait Widen<Num: Number>: Number {
    /// The same integer in the wider type.
    fn widen(self) -> (r: Num)
        ensures
            r.value() == self.value(),
    ;
}

/// A multiplication that reports overflow instead of wrapping.
pub trait CheckedMul: Number {
    /// `Some` of the exact product where the type can hold it, `None`
    /// otherwise.
    fn checked_times(self, rhs: Self) -> (r: Option<Self>)
        ensures
            match r {
                Some(p) => p.value() == self.value() * rhs.value(),
                None => !(Self::lowest() <= self.value() * rhs.value() <= Self::highest()),
            },
    ;
}

impl Number for u8 {
    open spec fn value(self) -> int {
        self as int
    }

    open spec fn lowest() -> int {
        u8::MIN as int
    }

    open spec fn highest() -> int {
        u8::MAX as int
    }

    proof fn bounded(x: Self) {
    }

    fn small(v: u8) -> (r: Self) {
        v
    }

    fn plus(self, rhs: Self) -> (r: Self) {
        self + rhs
    }

    fn minus(self, rhs: Self) -> (r: Self) {
        self - rhs
    }

    fn times(self, rhs: Self) -> (r: Self) {
        self * rhs
    }

    fn below(self, rhs: Self) -> (b: bool) {
        self < rhs
    }
}

impl Number for u16 {
    open spec fn value(self) -> int {
        self as int
    }

    open spec fn lowest() -> int {
        u16::MIN as int
    }

    open spec fn highest() -> int {
        u16::MAX as int
    }

    proof fn bounded(x: Self) {
    }

    fn small(v: u8) -> (r: Self) {
        v as u16
    }

    fn plus(self, rhs: Self) -> (r: Self) {
        self + rhs
    }

    fn minus(self, rhs: Self) -> (r: Self) {
        self - rhs
    }

    fn times(self, rhs: Self) -> (r: Self) {
        self * rhs
    }

    fn below(self, rhs: Self) -> (b: bool) {
        self < rhs
    }
}

impl Number for u32 {
    open spec fn value(self) -> int {
        self as int
    }

    open spec fn lowest() -> int {
        u32::MIN as int
    }

    open spec fn highest() -> int {
        u32::MAX as int
    }

    proof fn bounded(x: Self) {
    }

    fn small(v: u8) -> (r: Self) {
        v as u32
    }

    fn plus(self, rhs: Self) -> (r: Self) {
        self + rhs
    }

    fn minus(self, rhs: Self) -> (r: Self) {
        self - rhs
    }

    fn times(self, rhs: Self) -> (r: Self) {
        self * rhs
    }

    fn below(self, rhs: Self) -> (b: bool) {
        self < rhs
    }
}

impl Number for u64 {
    open spec fn value(self) -> int {
        self as int
    }

    open spec fn lowest() -> int {
        u64::MIN as int
    }

    open spec fn highest() -> int {
        u64::MAX as int
    }

    proof fn bounded(x: Self) {
    }

    fn small(v: u8) -> (r: Self) {
        v as u64
    }

    fn plus(self, rhs: Self) -> (r: Self) {
        self + rhs
    }

    fn minus(self, rhs: Self) -> (r: Self) {
        self - rhs
    }

    fn times(self, rhs: Self) -> (r: Self) {
        self * rhs
    }

    fn below(self, rhs: Self) -> (b: bool) {
        self < rhs
    }
}

impl Number for u128 {
    open spec fn value(self) -> int {
        self as int
    }

    open spec fn lowest() -> int {
        u128::MIN as int
    }

    open spec fn highest() -> int {
        u128::MAX as int
    }

    proof fn bounded(x: Self) {
    }

    fn small(v: u8) -> (r: Self) {
        v as u128
    }

    fn plus(self, rhs: Self) -> (r: Self) {
        self + rhs
    }

    fn minus(self, rhs: Self) -> (r: Self) {
        self - rhs
    }

    fn times(self, rhs: Self) -> (r: Self) {
        self * rhs
    }

    fn below(self, rhs: Self) -> (b: bool) {
        self < rhs
    }
}

impl Number for usize {
    open spec fn value(self) -> int {
        self as int
    }

    open spec fn lowest() -> int {
        usize::MIN as int
    }

    open spec fn highest() -> int {
        usize::MAX as int
    }

    proof fn bounded(x: Self) {
    }

    fn small(v: u8) -> (r: Self) {
        v as usize
    }

    fn plus(self, rhs: Self) -> (r: Self) {
        self + rhs
    }

    fn minus(self, rhs: Self) -> (r: Self) {
        self - rhs
    }

    fn times(self, rhs: Self) -> (r: Self) {
        self * rhs
    }

    fn below(self, rhs: Self) -> (b: bool) {
        self < rhs
    }
}

impl Number for i16 {
    open spec fn value(self) -> int {
        self as int
    }

    open spec fn lowest() -> int {
        i16::MIN as int
    }

    open spec fn highest() -> int {
        i16::MAX as int
    }

    proof fn bounded(x: Self) {
    }

    fn small(v: u8) -> (r: Self) {
        v as i16
    }

    fn plus(self, rhs: Self) -> (r: Self) {
        self + rhs
    }

    fn minus(self, rhs: Self) -> (r: Self) {
        self - rhs
    }

    fn times(self, rhs: Self) -> (r: Self) {
        self * rhs
    }

    fn below(self, rhs: Self) -> (b: bool) {
        self < rhs
    }
}

impl Number for i32 {
    open spec fn value(self) -> int {
        self as int
    }

    open spec fn lowest() -> int {
        i32::MIN as int
    }

    open spec fn highest() -> int {
        i32::MAX as int
    }

    proof fn bounded(x: Self) {
    }

    fn small(v: u8) -> (r: Self) {
        v as i32
    }

    fn plus(self, rhs: Self) -> (r: Self) {
        self + rhs
    }

    fn minus(self, rhs: Self) -> (r: Self) {
        self - rhs
    }

    fn times(self, rhs: Self) -> (r: Self) {
        self * rhs
    }

    fn below(self, rhs: Self) -> (b: bool) {
        self < rhs
    }
}

impl Number for i64 {
    open spec fn value(self) -> int {
        self as int
    }

    open spec fn lowest() -> int {
        i64::MIN as int
    }

    open spec fn highest() -> int {
        i64::MAX as int
    }

    proof fn bounded(x: Self) {
    }

    fn small(v: u8) -> (r: Self) {
        v as i64
    }

    fn plus(self, rhs: Self) -> (r: Self) {
        self + rhs
    }

    fn minus(self, rhs: Self) -> (r: Self) {
        self - rhs
    }

    fn times(self, rhs: Self) -> (r: Self) {
        self * rhs
    }

    fn below(self, rhs: Self) -> (b: bool) {
        self < rhs
    }
}

impl Number for i128 {
    open spec fn value(self) -> int {
        self as int
    }

    open spec fn lowest() -> int {
        i128::MIN as int
    }

    open spec fn highest() -> int {
        i128::MAX as int
    }

    proof fn bounded(x: Self) {
    }

    fn small(v: u8) -> (r: Self) {
        v as i128
    }

    fn plus(self, rhs: Self) -> (r: Self) {
        self + rhs
    }

    fn minus(self, rhs: Self) -> (r: Self) {
        self - rhs
    }

    fn times(self, rhs: Self) -> (r: Self) {
        self * rhs
    }

    fn below(self, rhs: Self) -> (b: bool) {
        self < rhs
    }
}

impl Number for isize {
    open spec fn value(self) -> int {
        self as int
    }

    open spec fn lowest() -> int {
        isize::MIN as int
    }

    open spec fn highest() -> int {
        isize::MAX as int
    }

    proof fn bounded(x: Self) {
    }

    fn small(v: u8) -> (r: Self) {
        v as isize
    }

    fn plus(self, rhs: Self) -> (r: Self) {
        self + rhs
    }

    fn minus(self, rhs: Self) -> (r: Self) {
        self - rhs
    }

    fn times(self, rhs: Self) -> (r: Self) {
        self * rhs
    }

    fn below(self, rhs: Self) -> (b: bool) {
        self < rhs
    }
}

impl CheckedMul for u8 {
    fn checked_times(self, rhs: Self) -> (r: Option<Self>) {
        self.checked_mul(rhs)
    }
}

impl CheckedMul for u16 {
    fn checked_times(self, rhs: Self) -> (r: Option<Self>) {
        self.checked_mul(rhs)
    }
}

impl CheckedMul for u32 {
    fn checked_times(self, rhs: Self) -> (r: Option<Self>) {
        self.checked_mul(rhs)
    }
}

impl CheckedMul for u64 {
    fn checked_times(self, rhs: Self) -> (r: Option<Self>) {
        self.checked_mul(rhs)
    }
}

impl CheckedMul for u128 {
    fn checked_times(self, rhs: Self) -> (r: Option<Self>) {
        self.checked_mul(rhs)
    }
}

impl Widen<u8> for u8 {
    fn widen(self) -> (r: u8) {
        self
    }
}

impl Widen<u16> for u8 {
    fn widen(self) -> (r: u16) {
        self as u16
    }
}

impl Widen<u32> for u8 {
    fn widen(self) -> (r: u32) {
        self as u32
    }
}

impl Widen<u64> for u8 {
    fn widen(self) -> (r: u64) {
        self as u64
    }
}

impl Widen<u128> for u8 {
    fn widen(self) -> (r: u128) {
        self as u128
    }
}

impl Widen<usize> for u8 {
    fn widen(self) -> (r: usize) {
        self as usize
    }
}

impl Widen<i16> for u8 {
    fn widen(self) -> (r: i16) {
        self as i16
    }
}

impl Widen<i32> for u8 {
    fn widen(self) -> (r: i32) {
        self as i32
    }
}

impl Widen<i64> for u8 {
    fn widen(self) -> (r: i64) {
        self as i64
    }
}

impl Widen<i128> for u8 {
    fn widen(self) -> (r: i128) {
        self as i128
    }
}

impl Widen<isize> for u8 {
    fn widen(self) -> (r: isize) {
        self as isize
    }
}

impl Widen<u16> for u16 {
    fn widen(self) -> (r: u16) {
        self
    }
}

impl Widen<u32> for u16 {
    fn widen(self) -> (r: u32) {
        self as u32
    }
}

impl Widen<u64> for u16 {
    fn widen(self) -> (r: u64) {
        self as u64
    }
}

impl Widen<u128> for u16 {
    fn widen(self) -> (r: u128) {
        self as u128
    }
}

impl Widen<usize> for u16 {
    fn widen(self) -> (r: usize) {
        self as usize
    }
}

impl Widen<i32> for u16 {
    fn widen(self) -> (r: i32) {
        self as i32
    }
}

impl Widen<i64> for u16 {
    fn widen(self) -> (r: i64) {
        self as i64
    }
}

impl Widen<i128> for u16 {
    fn widen(self) -> (r: i128) {
        self as i128
    }
}

impl Widen<u32> for u32 {
    fn widen(self) -> (r: u32) {
        self
    }
}

impl Widen<u64> for u32 {
    fn widen(self) -> (r: u64) {
        self as u64
    }
}

impl Widen<u128> for u32 {
    fn widen(self) -> (r: u128) {
        self as u128
    }
}

impl Widen<i64> for u32 {
    fn widen(self) -> (r: i64) {
        self as i64
    }
}

impl Widen<i128> for u32 {
    fn widen(self) -> (r: i128) {
        self as i128
    }
}

impl Widen<u64> for u64 {
    fn widen(self) -> (r: u64) {
        self
    }
}

impl Widen<u128> for u64 {
    fn widen(self) -> (r: u128) {
        self as u128
    }
}

impl Widen<i128> for u64 {
    fn widen(self) -> (r: i128) {
        self as i128
    }
}

impl Widen<u128> for u128 {
    fn widen(self) -> (r: u128) {
        self
    }
}

impl Widen<usize> for usize {
    fn widen(self) -> (r: usize) {
        self
    }
}

impl Widen<i16> for i16 {
    fn widen(self) -> (r: i16) {
        self
    }
}

impl Widen<i32> for i16 {
    fn widen(self) -> (r: i32) {
        self as i32
    }
}

impl Widen<i64> for i16 {
    fn widen(self) -> (r: i64) {
        self as i64
    }
}

impl Widen<i128> for i16 {
    fn widen(self) -> (r: i128) {
        self as i128
    }
}

impl Widen<isize> for i16 {
    fn widen(self) -> (r: isize) {
        self as isize
    }
}

impl Widen<i32> for i32 {
    fn widen(self) -> (r: i32) {
        self
    }
}

impl Widen<i64> for i32 {
    fn widen(self) -> (r: i64) {
        self as i64
    }
}

impl Widen<i128> for i32 {
    fn widen(self) -> (r: i128) {
        self as i128
    }
}

impl Widen<i64> for i64 {
    fn widen(self) -> (r: i64) {
        self
    }
}

impl Widen<i128> for i64 {
    fn widen(self) -> (r: i128) {
        self as i128
    }
}

impl Widen<i128> for i128 {
    fn widen(self) -> (r: i128) {
        self
    }
}

impl Widen<isize> for isize {
    fn widen(self) -> (r: isize) {
        self
    }
}

} // verus!
