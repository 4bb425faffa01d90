use vstd::prelude::*;

verus! {

/// Finite, two's-complement (or unsigned), pass-by-value integer types.
///
/// `value` is the mathematical integer that a value of the type stands for;
/// the contracts of the library speak of integers through it.
pub trait Int: Copy + Eq + Ord + Sized {
    /// The mathematical value of this integer.
    spec fn value(self) -> int;

    /// Smallest value of the type.
    spec fn min_value() -> int;

    /// Largest value of the type.
    spec fn max_value() -> int;

    const BITS: u32;
    const MAX: Self;
    const ONE: Self;
    const SIGNED: bool;
    const ZERO: Self;

    /// Whether the cardinality should be checked for sets of elements that are
    /// intended to *all* be processed; primarily intended for array storage.
    const CHECK_CARDINALITY: bool;

    /// The constants of the type and the range of its values.
    proof fn lemma_int_properties()
        ensures
            Self::MAX.value() == Self::max_value(),
            Self::ZERO.value() == 0,
            Self::ONE.value() == 1,
            Self::min_value() <= 0 < Self::max_value(),
            Self::SIGNED == (Self::min_value() < 0),
            forall|x: Self| Self::min_value() <= #[trigger] x.value() <= Self::max_value(),
            forall|x: Self, y: Self| #[trigger] x.value() == #[trigger] y.value() ==> x == y,
    ;

    /// Converts a `usize`; exact when the value fits in the type.
    fn from_usize_unchecked(value: usize) -> (r: Self)
        ensures
            value <= Self::max_value() ==> r.value() == value,
    ;

    /// The value of this integer as an `i128`, which holds every value of the type.
    fn to_i128(self) -> (r: i128)
        ensures
            r == self.value(),
    ;

    /// Converts an `i128`; exact when the value fits in the type.
    fn from_i128_unchecked(value: i128) -> (r: Self)
        ensures
            Self::min_value() <= value <= Self::max_value() ==> r.value() == value,
    ;

    /// Iterator over the half-open range `self..end_excl`.
    fn up_to(self, end_excl: Self) -> (it: IntIterator<Self>)
        ensures
            it.next == self,
            it.end_excl == end_excl,
    {
        IntIterator { next: self, end_excl: end_excl }
    }
}

/// Iterator for `i1.up_to(i2)` in lieu of the `i1..i2` syntax.
pub struct IntIterator<I> where I: Int {
    /// The value handed out next, if it is below `end_excl`.
    pub next: I,
    /// The exclusive end of the range.
    pub end_excl: I,
}

impl<I: Int> IntIterator<I> {
    /// The value that the next call of `next` hands out, if it is below the end.
    pub closed spec fn next_value(&self) -> int {
        self.next.value()
    }

    /// The exclusive end of the range.
    pub closed spec fn end_value(&self) -> int {
        self.end_excl.value()
    }

    /// Hands out the next value of the range, or `None` once the range is exhausted.
    pub fn next(&mut self) -> (r: Option<I>)
        ensures
            old(self).next_value() < old(self).end_value() ==> {
                &&& r matches Some(v) && v.value() == old(self).next_value()
                &&& final(self).next_value() == old(self).next_value() + 1
                &&& final(self).end_value() == old(self).end_value()
            },
            old(self).next_value() >= old(self).end_value() ==> {
                &&& r is None
                &&& *final(self) == *old(self)
            },
    {
        proof {
            I::lemma_int_properties();
        }
        let n = self.next.to_i128();
        let e = self.end_excl.to_i128();
        if n < e {
            let val = self.next;
            self.next = I::from_i128_unchecked(n + 1);
            Some(val)
        } else {
            None
        }
    }
}

impl Int for i32 {
    open spec fn value(self) -> int {
        self as int
    }

    open spec fn min_value() -> int {
        i32::MIN as int
    }

    open spec fn max_value() -> int {
        i32::MAX as int
    }

    const BITS: u32 = 32u32;
    const MAX: i32 = 2147483647i32;
    const ONE: i32 = 1i32;
    const SIGNED: bool = true;
    const ZERO: i32 = 0i32;
    const CHECK_CARDINALITY: bool = true;

    proof fn lemma_int_properties() {
    }

    fn from_usize_unchecked(value: usize) -> (r: Self)
        ensures
            r == value as i32,
    {
        #[verifier::truncate]
        (value as i32)
    }

    fn to_i128(self) -> (r: i128) {
        self as i128
    }

    fn from_i128_unchecked(value: i128) -> (r: Self)
        ensures
            r == value as i32,
    {
        #[verifier::truncate]
        (value as i32)
    }
}

impl Int for i64 {
    open spec fn value(self) -> int {
        self as int
    }

    open spec fn min_value() -> int {
        i64::MIN as int
    }

    open spec fn max_value() -> int {
        i64::MAX as int
    }

    const BITS: u32 = 64u32;
    const MAX: i64 = 9223372036854775807i64;
    const ONE: i64 = 1i64;
    const SIGNED: bool = true;
    const ZERO: i64 = 0i64;
    // cardinalities of this size have no practical use on one machine
    const CHECK_CARDINALITY: bool = false;

    proof fn lemma_int_properties() {
    }

    fn from_usize_unchecked(value: usize) -> (r: Self)
        ensures
            r == value as i64,
    {
        #[verifier::truncate]
        (value as i64)
    }

    fn to_i128(self) -> (r: i128) {
        self as i128
    }

    fn from_i128_unchecked(value: i128) -> (r: Self)
        ensures
            r == value as i64,
    {
        #[verifier::truncate]
        (value as i64)
    }
}

impl Int for usize {
    open spec fn value(self) -> int {
        self as int
    }

    open spec fn min_value() -> int {
        0
    }

    open spec fn max_value() -> int {
        usize::MAX as int
    }

    const BITS: u32 = usize::BITS;
    const MAX: usize = usize::MAX;
    const ONE: usize = 1usize;
    const SIGNED: bool = false;
    const ZERO: usize = 0usize;
    // on 64-bit targets, 18 quintillion is too large to have any practical use case
    const CHECK_CARDINALITY: bool = usize::BITS < 64u32;

    proof fn lemma_int_properties() {
    }

    fn from_usize_unchecked(value: usize) -> (r: Self) {
        value
    }

    fn to_i128(self) -> (r: i128) {
        self as i128
    }

    fn from_i128_unchecked(value: i128) -> (r: Self)
        ensures
            r == value as usize,
    {
        #[verifier::truncate]
        (value as usize)
    }
}

/// Integer types whose nonnegative values fit in `usize`.
pub trait IntNonnegFitsInUsize: Int {
    /// Every nonnegative value of the type fits in `usize`.
    proof fn lemma_fits_in_usize()
        ensures
            Self::max_value() <= usize::MAX,
    ;

    /// Casts this integer to usize.
    /// Does *not* check for nonnegativity, will wrap around if negative!
    fn to_usize_unchecked(self) -> (r: usize)
        ensures
            self.value() >= 0 ==> r == self.value(),
            self.value() < 0 ==> r == self.value() + usize::MAX + 1,
    ;
}

impl IntNonnegFitsInUsize for usize {
    proof fn lemma_fits_in_usize() {
    }

    fn to_usize_unchecked(self) -> (r: usize) {
        self
    }
}

impl IntNonnegFitsInUsize for i32 {
    proof fn lemma_fits_in_usize() {
    }

    fn to_usize_unchecked(self) -> (r: usize) {
        if self >= 0 {
            self as usize
        } else {
            // two's-complement wrap-around, as `self as usize` does
            usize::MAX - ((-(self + 1)) as usize)
        }
    }
}

} // verus!
