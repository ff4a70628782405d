//! Integer keys: what the nearest-key join needs of a key type.

use vstd::prelude::*;
use vstd::std_specs::cmp::{OrdSpec, PartialOrdIs};

use crate::input::join::mem::btree::ordered;

verus! {

/// `x` held within `least` and `greatest`.
pub open spec fn clamped(x: int, least: int, greatest: int) -> int {
    if x < least {
        least
    } else if x > greatest {
        greatest
    } else {
        x
    }
}

/// The distance between two numbers.
pub open spec fn apart(a: int, b: int) -> int {
    if a >= b {
        a - b
    } else {
        b - a
    }
}

/// An integer type of keys, with the unsigned type of the distance between
/// two keys.
pub trait IntKey: Copy + Ord + Sized {
    /// The type of a distance.
    type Score: Copy + Ord;

    /// The key as a number.
    spec fn number(self) -> int;

    /// A distance as a number.
    spec fn magnitude(score: Self::Score) -> int;

    /// The least number that a key can be.
    spec fn least() -> int;

    /// The greatest number that a key can be.
    spec fn greatest() -> int;

    /// A key is its number, within the limits of the type; a distance is
    /// never negative.
    proof fn lemma_numbers(a: Self, b: Self, s: Self::Score)
        ensures
            Self::least() <= a.number() <= Self::greatest(),
            a.number() == b.number() <==> a == b,
            0 <= Self::magnitude(s),
    ;

    /// The order of the keys is the order of their numbers, and a clone of a
    /// key is the key.
    proof fn lemma_order(a: Self, b: Self)
        ensures
            ordered::<Self>(),
            a.is_le(&b) <==> a.number() <= b.number(),
            a.is_lt(&b) <==> a.number() < b.number(),
            a.cmp_spec(&b) is Less <==> a.number() < b.number(),
            cloned(a, b) ==> a == b,
    ;

    /// `self - offset`, held within the limits of the type.
    fn sub_saturating(self, offset: Self) -> (r: Self)
        ensures
            r.number() == clamped(self.number() - offset.number(), Self::least(), Self::greatest()),
    ;

    /// `self + offset`, held within the limits of the type.
    fn add_saturating(self, offset: Self) -> (r: Self)
        ensures
            r.number() == clamped(self.number() + offset.number(), Self::least(), Self::greatest()),
    ;

    /// The distance between two keys.
    fn distance(self, other: Self) -> (s: Self::Score)
        ensures
            Self::magnitude(s) == apart(self.number(), other.number()),
    ;

    /// Whether distance `a` is less than distance `b`.
    fn closer(a: Self::Score, b: Self::Score) -> (r: bool)
        ensures
            r == (Self::magnitude(a) < Self::magnitude(b)),
    ;
}

impl IntKey for u8 {
    type Score = u8;

    open spec fn number(self) -> int {
        self as int
    }

    open spec fn magnitude(score: u8) -> int {
        score as int
    }

    open spec fn least() -> int {
        u8::MIN as int
    }

    open spec fn greatest() -> int {
        u8::MAX as int
    }

    proof fn lemma_numbers(a: u8, b: u8, s: u8) {
    }

    proof fn lemma_order(a: u8, b: u8) {
        broadcast use vstd::laws_cmp::group_laws_cmp;

    }

    fn sub_saturating(self, offset: u8) -> (r: u8) {
        if self >= offset {
            self - offset
        } else {
            u8::MIN
        }
    }

    fn add_saturating(self, offset: u8) -> (r: u8) {
        if offset <= u8::MAX - self {
            self + offset
        } else {
            u8::MAX
        }
    }

    fn distance(self, other: u8) -> (s: u8) {
        if self >= other {
            self - other
        } else {
            other - self
        }
    }

    fn closer(a: u8, b: u8) -> (r: bool) {
        a < b
    }
}

impl IntKey for u16 {
    type Score = u16;

    open spec fn number(self) -> int {
        self as int
    }

    open spec fn magnitude(score: u16) -> int {
        score as int
    }

    open spec fn least() -> int {
        u16::MIN as int
    }

    open spec fn greatest() -> int {
        u16::MAX as int
    }

    proof fn lemma_numbers(a: u16, b: u16, s: u16) {
    }

    proof fn lemma_order(a: u16, b: u16) {
        broadcast use vstd::laws_cmp::group_laws_cmp;

    }

    fn sub_saturating(self, offset: u16) -> (r: u16) {
        if self >= offset {
            self - offset
        } else {
            u16::MIN
        }
    }

    fn add_saturating(self, offset: u16) -> (r: u16) {
        if offset <= u16::MAX - self {
            self + offset
        } else {
            u16::MAX
        }
    }

    fn distance(self, other: u16) -> (s: u16) {
        if self >= other {
            self - other
        } else {
            other - self
        }
    }

    fn closer(a: u16, b: u16) -> (r: bool) {
        a < b
    }
}

impl IntKey for u32 {
    type Score = u32;

    open spec fn number(self) -> int {
        self as int
    }

    open spec fn magnitude(score: u32) -> int {
        score as int
    }

    open spec fn least() -> int {
        u32::MIN as int
    }

    open spec fn greatest() -> int {
        u32::MAX as int
    }

    proof fn lemma_numbers(a: u32, b: u32, s: u32) {
    }

    proof fn lemma_order(a: u32, b: u32) {
        broadcast use vstd::laws_cmp::group_laws_cmp;

    }

    fn sub_saturating(self, offset: u32) -> (r: u32) {
        if self >= offset {
            self - offset
        } else {
            u32::MIN
        }
    }

    fn add_saturating(self, offset: u32) -> (r: u32) {
        if offset <= u32::MAX - self {
            self + offset
        } else {
            u32::MAX
        }
    }

    fn distance(self, other: u32) -> (s: u32) {
        if self >= other {
            self - other
        } else {
            other - self
        }
    }

    fn closer(a: u32, b: u32) -> (r: bool) {
        a < b
    }
}

impl IntKey for u64 {
    type Score = u64;

    open spec fn number(self) -> int {
        self as int
    }

    open spec fn magnitude(score: u64) -> int {
        score as int
    }

    open spec fn least() -> int {
        u64::MIN as int
    }

    open spec fn greatest() -> int {
        u64::MAX as int
    }

    proof fn lemma_numbers(a: u64, b: u64, s: u64) {
    }

    proof fn lemma_order(a: u64, b: u64) {
        broadcast use vstd::laws_cmp::group_laws_cmp;

    }

    fn sub_saturating(self, offset: u64) -> (r: u64) {
        if self >= offset {
            self - offset
        } else {
            u64::MIN
        }
    }

    fn add_saturating(self, offset: u64) -> (r: u64) {
        if offset <= u64::MAX - self {
            self + offset
        } else {
            u64::MAX
        }
    }

    fn distance(self, other: u64) -> (s: u64) {
        if self >= other {
            self - other
        } else {
            other - self
        }
    }

    fn closer(a: u64, b: u64) -> (r: bool) {
        a < b
    }
}

impl IntKey for u128 {
    type Score = u128;

    open spec fn number(self) -> int {
        self as int
    }

    open spec fn magnitude(score: u128) -> int {
        score as int
    }

    open spec fn least() -> int {
        u128::MIN as int
    }

    open spec fn greatest() -> int {
        u128::MAX as int
    }

    proof fn lemma_numbers(a: u128, b: u128, s: u128) {
    }

    proof fn lemma_order(a: u128, b: u128) {
        broadcast use vstd::laws_cmp::group_laws_cmp;

    }

    fn sub_saturating(self, offset: u128) -> (r: u128) {
        if self >= offset {
            self - offset
        } else {
            u128::MIN
        }
    }

    fn add_saturating(self, offset: u128) -> (r: u128) {
        if offset <= u128::MAX - self {
            self + offset
        } else {
            u128::MAX
        }
    }

    fn distance(self, other: u128) -> (s: u128) {
        if self >= other {
            self - other
        } else {
            other - self
        }
    }

    fn closer(a: u128, b: u128) -> (r: bool) {
        a < b
    }
}

impl IntKey for usize {
    type Score = usize;

    open spec fn number(self) -> int {
        self as int
    }

    open spec fn magnitude(score: usize) -> int {
        score as int
    }

    open spec fn least() -> int {
        usize::MIN as int
    }

    open spec fn greatest() -> int {
        usize::MAX as int
    }

    proof fn lemma_numbers(a: usize, b: usize, s: usize) {
    }

    proof fn lemma_order(a: usize, b: usize) {
        broadcast use vstd::laws_cmp::group_laws_cmp;

    }

    fn sub_saturating(self, offset: usize) -> (r: usize) {
        if self >= offset {
            self - offset
        } else {
            usize::MIN
        }
    }

    fn add_saturating(self, offset: usize) -> (r: usize) {
        if offset <= usize::MAX - self {
            self + offset
        } else {
            usize::MAX
        }
    }

    fn distance(self, other: usize) -> (s: usize) {
        if self >= other {
            self - other
        } else {
            other - self
        }
    }

    fn closer(a: usize, b: usize) -> (r: bool) {
        a < b
    }
}

impl IntKey for i8 {
    type Score = u8;

    open spec fn number(self) -> int {
        self as int
    }

    open spec fn magnitude(score: u8) -> int {
        score as int
    }

    open spec fn least() -> int {
        i8::MIN as int
    }

    open spec fn greatest() -> int {
        i8::MAX as int
    }

    proof fn lemma_numbers(a: i8, b: i8, s: u8) {
    }

    proof fn lemma_order(a: i8, b: i8) {
        broadcast use vstd::laws_cmp::group_laws_cmp;

    }

    fn sub_saturating(self, offset: i8) -> (r: i8) {
        let d: i16 = self as i16 - offset as i16;
        if d < i8::MIN as i16 {
            i8::MIN
        } else if d > i8::MAX as i16 {
            i8::MAX
        } else {
            d as i8
        }
    }

    fn add_saturating(self, offset: i8) -> (r: i8) {
        let d: i16 = self as i16 + offset as i16;
        if d < i8::MIN as i16 {
            i8::MIN
        } else if d > i8::MAX as i16 {
            i8::MAX
        } else {
            d as i8
        }
    }

    fn distance(self, other: i8) -> (s: u8) {
        let d: i16 = self as i16 - other as i16;
        if d >= 0 {
            d as u8
        } else {
            (0 - d) as u8
        }
    }

    fn closer(a: u8, b: u8) -> (r: bool) {
        a < b
    }
}

impl IntKey for i16 {
    type Score = u16;

    open spec fn number(self) -> int {
        self as int
    }

    open spec fn magnitude(score: u16) -> int {
        score as int
    }

    open spec fn least() -> int {
        i16::MIN as int
    }

    open spec fn greatest() -> int {
        i16::MAX as int
    }

    proof fn lemma_numbers(a: i16, b: i16, s: u16) {
    }

    proof fn lemma_order(a: i16, b: i16) {
        broadcast use vstd::laws_cmp::group_laws_cmp;

    }

    fn sub_saturating(self, offset: i16) -> (r: i16) {
        let d: i32 = self as i32 - offset as i32;
        if d < i16::MIN as i32 {
            i16::MIN
        } else if d > i16::MAX as i32 {
            i16::MAX
        } else {
            d as i16
        }
    }

    fn add_saturating(self, offset: i16) -> (r: i16) {
        let d: i32 = self as i32 + offset as i32;
        if d < i16::MIN as i32 {
            i16::MIN
        } else if d > i16::MAX as i32 {
            i16::MAX
        } else {
            d as i16
        }
    }

    fn distance(self, other: i16) -> (s: u16) {
        let d: i32 = self as i32 - other as i32;
        if d >= 0 {
            d as u16
        } else {
            (0 - d) as u16
        }
    }

    fn closer(a: u16, b: u16) -> (r: bool) {
        a < b
    }
}

impl IntKey for i32 {
    type Score = u32;

    open spec fn number(self) -> int {
        self as int
    }

    open spec fn magnitude(score: u32) -> int {
        score as int
    }

    open spec fn least() -> int {
        i32::MIN as int
    }

    open spec fn greatest() -> int {
        i32::MAX as int
    }

    proof fn lemma_numbers(a: i32, b: i32, s: u32) {
    }

    proof fn lemma_order(a: i32, b: i32) {
        broadcast use vstd::laws_cmp::group_laws_cmp;

    }

    fn sub_saturating(self, offset: i32) -> (r: i32) {
        let d: i64 = self as i64 - offset as i64;
        if d < i32::MIN as i64 {
            i32::MIN
        } else if d > i32::MAX as i64 {
            i32::MAX
        } else {
            d as i32
        }
    }

    fn add_saturating(self, offset: i32) -> (r: i32) {
        let d: i64 = self as i64 + offset as i64;
        if d < i32::MIN as i64 {
            i32::MIN
        } else if d > i32::MAX as i64 {
            i32::MAX
        } else {
            d as i32
        }
    }

    fn distance(self, other: i32) -> (s: u32) {
        let d: i64 = self as i64 - other as i64;
        if d >= 0 {
            d as u32
        } else {
            (0 - d) as u32
        }
    }

    fn closer(a: u32, b: u32) -> (r: bool) {
        a < b
    }
}

impl IntKey for i64 {
    type Score = u64;

    open spec fn number(self) -> int {
        self as int
    }

    open spec fn magnitude(score: u64) -> int {
        score as int
    }

    open spec fn least() -> int {
        i64::MIN as int
    }

    open spec fn greatest() -> int {
        i64::MAX as int
    }

    proof fn lemma_numbers(a: i64, b: i64, s: u64) {
    }

    proof fn lemma_order(a: i64, b: i64) {
        broadcast use vstd::laws_cmp::group_laws_cmp;

    }

    fn sub_saturating(self, offset: i64) -> (r: i64) {
        let d: i128 = self as i128 - offset as i128;
        if d < i64::MIN as i128 {
            i64::MIN
        } else if d > i64::MAX as i128 {
            i64::MAX
        } else {
            d as i64
        }
    }

    fn add_saturating(self, offset: i64) -> (r: i64) {
        let d: i128 = self as i128 + offset as i128;
        if d < i64::MIN as i128 {
            i64::MIN
        } else if d > i64::MAX as i128 {
            i64::MAX
        } else {
            d as i64
        }
    }

    fn distance(self, other: i64) -> (s: u64) {
        let d: i128 = self as i128 - other as i128;
        if d >= 0 {
            d as u64
        } else {
            (0 - d) as u64
        }
    }

    fn closer(a: u64, b: u64) -> (r: bool) {
        a < b
    }
}

impl IntKey for isize {
    type Score = usize;

    open spec fn number(self) -> int {
        self as int
    }

    open spec fn magnitude(score: usize) -> int {
        score as int
    }

    open spec fn least() -> int {
        isize::MIN as int
    }

    open spec fn greatest() -> int {
        isize::MAX as int
    }

    proof fn lemma_numbers(a: isize, b: isize, s: usize) {
    }

    proof fn lemma_order(a: isize, b: isize) {
        broadcast use vstd::laws_cmp::group_laws_cmp;

    }

    fn sub_saturating(self, offset: isize) -> (r: isize) {
        let d: i128 = self as i128 - offset as i128;
        if d < isize::MIN as i128 {
            isize::MIN
        } else if d > isize::MAX as i128 {
            isize::MAX
        } else {
            d as isize
        }
    }

    fn add_saturating(self, offset: isize) -> (r: isize) {
        let d: i128 = self as i128 + offset as i128;
        if d < isize::MIN as i128 {
            isize::MIN
        } else if d > isize::MAX as i128 {
            isize::MAX
        } else {
            d as isize
        }
    }

    fn distance(self, other: isize) -> (s: usize) {
        let d: i128 = self as i128 - other as i128;
        if d >= 0 {
            d as usize
        } else {
            (0 - d) as usize
        }
    }

    fn closer(a: usize, b: usize) -> (r: bool) {
        a < b
    }
}

impl IntKey for i128 {
    type Score = u128;

    open spec fn number(self) -> int {
        self as int
    }

    open spec fn magnitude(score: u128) -> int {
        score as int
    }

    open spec fn least() -> int {
        i128::MIN as int
    }

    open spec fn greatest() -> int {
        i128::MAX as int
    }

    proof fn lemma_numbers(a: i128, b: i128, s: u128) {
    }

    proof fn lemma_order(a: i128, b: i128) {
        broadcast use vstd::laws_cmp::group_laws_cmp;

    }

    fn sub_saturating(self, offset: i128) -> (r: i128) {
        if offset >= 0 {
            if self >= i128::MIN + offset {
                self - offset
            } else {
                i128::MIN
            }
        } else {
            if self <= i128::MAX + offset {
                self - offset
            } else {
                i128::MAX
            }
        }
    }

    fn add_saturating(self, offset: i128) -> (r: i128) {
        if offset >= 0 {
            if self <= i128::MAX - offset {
                self + offset
            } else {
                i128::MAX
            }
        } else {
            if self >= i128::MIN - offset {
                self + offset
            } else {
                i128::MIN
            }
        }
    }

    fn distance(self, other: i128) -> (s: u128) {
        let (high, low) = if self >= other {
            (self, other)
        } else {
            (other, self)
        };
        if low >= 0 || high < 0 {
            (high - low) as u128
        } else {
            // low < 0 <= high: neither part leaves the type
            (high as u128) + ((-(low + 1)) as u128) + 1
        }
    }

    fn closer(a: u128, b: u128) -> (r: bool) {
        a < b
    }
}

} // verus!
