//! The integer kinds that can back a fixed-point value.
//!
//! `Number` lists exactly the operations the fixed-point type needs from its
//! storage integer: the constants zero, one and ten, multiplication by ten,
//! division and remainder truncating toward zero, conversion from a sign and
//! a 64-bit magnitude, and decomposition into sign and magnitude.  It is
//! implemented for the fixed-width integer types up to 64 bits.

use vstd::prelude::*;
use vstd::math::abs;
use crate::arith::{lemma_udiv_bounds, lemma_udiv_by_ge2, tdiv, tmod};
use vstd::arithmetic::div_mod::{lemma_div_basics, lemma_mod_division_less_than_divisor};

verus! {

/// An integer kind usable as fixed-point storage.
pub trait Number: Sized + Copy {
    /// The mathematical value of this integer.
    spec fn as_int(self) -> int;

    /// The smallest value of the kind.
    spec fn min_val() -> int;

    /// The largest value of the kind.
    spec fn max_val() -> int;

    /// The range is that of a fixed-width integer of at most 64 bits.
    proof fn lemma_range()
        ensures
            Self::min_val() <= 0,
            10 <= Self::max_val(),
            Self::max_val() <= 0xffff_ffff_ffff_ffff,
            Self::min_val() == 0 || Self::min_val() == -Self::max_val() - 1,
            -0x8000_0000_0000_0000 <= Self::min_val(),
    ;

    /// Every value lies within the kind's range.
    proof fn lemma_in_range(self)
        ensures
            Self::min_val() <= self.as_int() <= Self::max_val(),
    ;

    fn zero() -> (r: Self)
        ensures
            r.as_int() == 0,
    ;

    fn one() -> (r: Self)
        ensures
            r.as_int() == 1,
    ;

    fn ten() -> (r: Self)
        ensures
            r.as_int() == 10,
    ;

    /// Multiplication by ten, the scaling step of the decimal representation.
    fn mul10(self) -> (r: Self)
        requires
            Self::min_val() <= self.as_int() * 10 <= Self::max_val(),
        ensures
            r.as_int() == self.as_int() * 10,
    ;

    /// Division truncating toward zero.
    fn div_trunc(self, rhs: Self) -> (r: Self)
        requires
            rhs.as_int() != 0,
            !(self.as_int() == Self::min_val() && rhs.as_int() == -1),
        ensures
            r.as_int() == tdiv(self.as_int(), rhs.as_int()),
    ;

    /// Remainder of truncating division; keeps the sign of the dividend.
    fn rem_trunc(self, rhs: Self) -> (r: Self)
        requires
            rhs.as_int() != 0,
        ensures
            r.as_int() == tmod(self.as_int(), rhs.as_int()),
    ;

    /// The value `-magnitude` or `+magnitude`, if the kind can hold it.
    fn from_sign_magnitude(negative: bool, magnitude: u64) -> (r: Option<Self>)
        ensures
            ({
                let v = if negative {
                    -(magnitude as int)
                } else {
                    magnitude as int
                };
                &&& (r is Some <==> Self::min_val() <= v <= Self::max_val())
                &&& (r is Some ==> r->Some_0.as_int() == v)
            }),
    ;

    /// The magnitude of the value, which always fits in 64 bits.
    fn magnitude_u64(self) -> (r: u64)
        ensures
            r as int == abs(self.as_int()),
    ;

    fn is_negative(self) -> (r: bool)
        ensures
            r == (self.as_int() < 0),
    ;
}

impl Number for u16 {
    open spec fn as_int(self) -> int {
        self as int
    }

    open spec fn min_val() -> int {
        0
    }

    open spec fn max_val() -> int {
        u16::MAX as int
    }

    proof fn lemma_range() {
    }

    proof fn lemma_in_range(self) {
    }

    fn zero() -> (r: u16) {
        0
    }

    fn one() -> (r: u16) {
        1
    }

    fn ten() -> (r: u16) {
        10
    }

    fn mul10(self) -> (r: u16) {
        self * 10
    }

    fn div_trunc(self, rhs: u16) -> (r: u16) {
        proof {
            lemma_udiv_bounds(self as int, rhs as int);
        }
        self / rhs
    }

    fn rem_trunc(self, rhs: u16) -> (r: u16) {
        self % rhs
    }

    fn from_sign_magnitude(negative: bool, magnitude: u64) -> (r: Option<u16>) {
        if negative {
            if magnitude == 0 {
                Some(0)
            } else {
                None
            }
        } else if magnitude <= u16::MAX as u64 {
            Some(magnitude as u16)
        } else {
            None
        }
    }

    fn magnitude_u64(self) -> (r: u64) {
        self as u64
    }

    fn is_negative(self) -> (r: bool) {
        false
    }
}

impl Number for i32 {
    open spec fn as_int(self) -> int {
        self as int
    }

    open spec fn min_val() -> int {
        i32::MIN as int
    }

    open spec fn max_val() -> int {
        i32::MAX as int
    }

    proof fn lemma_range() {
    }

    proof fn lemma_in_range(self) {
    }

    fn zero() -> (r: i32) {
        0
    }

    fn one() -> (r: i32) {
        1
    }

    fn ten() -> (r: i32) {
        10
    }

    fn mul10(self) -> (r: i32) {
        self * 10
    }

    fn div_trunc(self, rhs: i32) -> (r: i32) {
        let am: u32 = if self >= 0 {
            self as u32
        } else if self == i32::MIN {
            0x8000_0000u32
        } else {
            (-self) as u32
        };
        let bm: u32 = if rhs >= 0 {
            rhs as u32
        } else if rhs == i32::MIN {
            0x8000_0000u32
        } else {
            (-rhs) as u32
        };
        let q: u32 = am / bm;
        proof {
            assert(am as int == abs(self as int));
            assert(bm as int == abs(rhs as int));
            lemma_udiv_bounds(am as int, bm as int);
        }
        if (self < 0) != (rhs < 0) {
            if q == 0x8000_0000u32 {
                i32::MIN
            } else {
                -(q as i32)
            }
        } else {
            proof {
                if bm >= 2 {
                    lemma_udiv_by_ge2(am as int, bm as int);
                } else {
                    lemma_div_basics(am as int);
                }
            }
            q as i32
        }
    }

    fn rem_trunc(self, rhs: i32) -> (r: i32) {
        let am: u32 = if self >= 0 {
            self as u32
        } else if self == i32::MIN {
            0x8000_0000u32
        } else {
            (-self) as u32
        };
        let bm: u32 = if rhs >= 0 {
            rhs as u32
        } else if rhs == i32::MIN {
            0x8000_0000u32
        } else {
            (-rhs) as u32
        };
        let rm: u32 = am % bm;
        proof {
            assert(am as int == abs(self as int));
            assert(bm as int == abs(rhs as int));
            lemma_mod_division_less_than_divisor(am as int, bm as int);
        }
        if self < 0 {
            -(rm as i32)
        } else {
            rm as i32
        }
    }

    fn from_sign_magnitude(negative: bool, magnitude: u64) -> (r: Option<i32>) {
        if negative {
            if magnitude <= 0x7fff_ffffu64 {
                Some(-(magnitude as i32))
            } else if magnitude == 0x8000_0000u64 {
                Some(i32::MIN)
            } else {
                None
            }
        } else if magnitude <= 0x7fff_ffffu64 {
            Some(magnitude as i32)
        } else {
            None
        }
    }

    fn magnitude_u64(self) -> (r: u64) {
        if self >= 0 {
            self as u64
        } else if self == i32::MIN {
            0x8000_0000u64
        } else {
            (-self) as u64
        }
    }

    fn is_negative(self) -> (r: bool) {
        self < 0
    }
}


impl Number for u8 {
    open spec fn as_int(self) -> int {
        self as int
    }

    open spec fn min_val() -> int {
        0
    }

    open spec fn max_val() -> int {
        u8::MAX as int
    }

    proof fn lemma_range() {
    }

    proof fn lemma_in_range(self) {
    }

    fn zero() -> (r: u8) {
        0
    }

    fn one() -> (r: u8) {
        1
    }

    fn ten() -> (r: u8) {
        10
    }

    fn mul10(self) -> (r: u8) {
        self * 10
    }

    fn div_trunc(self, rhs: u8) -> (r: u8) {
        proof {
            lemma_udiv_bounds(self as int, rhs as int);
        }
        self / rhs
    }

    fn rem_trunc(self, rhs: u8) -> (r: u8) {
        self % rhs
    }

    fn from_sign_magnitude(negative: bool, magnitude: u64) -> (r: Option<u8>) {
        if negative {
            if magnitude == 0 {
                Some(0)
            } else {
                None
            }
        } else if magnitude <= u8::MAX as u64 {
            Some(magnitude as u8)
        } else {
            None
        }
    }

    fn magnitude_u64(self) -> (r: u64) {
        self as u64
    }

    fn is_negative(self) -> (r: bool) {
        false
    }
}


impl Number for u32 {
    open spec fn as_int(self) -> int {
        self as int
    }

    open spec fn min_val() -> int {
        0
    }

    open spec fn max_val() -> int {
        u32::MAX as int
    }

    proof fn lemma_range() {
    }

    proof fn lemma_in_range(self) {
    }

    fn zero() -> (r: u32) {
        0
    }

    fn one() -> (r: u32) {
        1
    }

    fn ten() -> (r: u32) {
        10
    }

    fn mul10(self) -> (r: u32) {
        self * 10
    }

    fn div_trunc(self, rhs: u32) -> (r: u32) {
        proof {
            lemma_udiv_bounds(self as int, rhs as int);
        }
        self / rhs
    }

    fn rem_trunc(self, rhs: u32) -> (r: u32) {
        self % rhs
    }

    fn from_sign_magnitude(negative: bool, magnitude: u64) -> (r: Option<u32>) {
        if negative {
            if magnitude == 0 {
                Some(0)
            } else {
                None
            }
        } else if magnitude <= u32::MAX as u64 {
            Some(magnitude as u32)
        } else {
            None
        }
    }

    fn magnitude_u64(self) -> (r: u64) {
        self as u64
    }

    fn is_negative(self) -> (r: bool) {
        false
    }
}


impl Number for u64 {
    open spec fn as_int(self) -> int {
        self as int
    }

    open spec fn min_val() -> int {
        0
    }

    open spec fn max_val() -> int {
        u64::MAX as int
    }

    proof fn lemma_range() {
    }

    proof fn lemma_in_range(self) {
    }

    fn zero() -> (r: u64) {
        0
    }

    fn one() -> (r: u64) {
        1
    }

    fn ten() -> (r: u64) {
        10
    }

    fn mul10(self) -> (r: u64) {
        self * 10
    }

    fn div_trunc(self, rhs: u64) -> (r: u64) {
        proof {
            lemma_udiv_bounds(self as int, rhs as int);
        }
        self / rhs
    }

    fn rem_trunc(self, rhs: u64) -> (r: u64) {
        self % rhs
    }

    fn from_sign_magnitude(negative: bool, magnitude: u64) -> (r: Option<u64>) {
        if negative {
            if magnitude == 0 {
                Some(0)
            } else {
                None
            }
        } else if magnitude <= u64::MAX as u64 {
            Some(magnitude as u64)
        } else {
            None
        }
    }

    fn magnitude_u64(self) -> (r: u64) {
        self as u64
    }

    fn is_negative(self) -> (r: bool) {
        false
    }
}


impl Number for i8 {
    open spec fn as_int(self) -> int {
        self as int
    }

    open spec fn min_val() -> int {
        i8::MIN as int
    }

    open spec fn max_val() -> int {
        i8::MAX as int
    }

    proof fn lemma_range() {
    }

    proof fn lemma_in_range(self) {
    }

    fn zero() -> (r: i8) {
        0
    }

    fn one() -> (r: i8) {
        1
    }

    fn ten() -> (r: i8) {
        10
    }

    fn mul10(self) -> (r: i8) {
        self * 10
    }

    fn div_trunc(self, rhs: i8) -> (r: i8) {
        let am: u8 = if self >= 0 {
            self as u8
        } else if self == i8::MIN {
            0x80u8
        } else {
            (-self) as u8
        };
        let bm: u8 = if rhs >= 0 {
            rhs as u8
        } else if rhs == i8::MIN {
            0x80u8
        } else {
            (-rhs) as u8
        };
        let q: u8 = am / bm;
        proof {
            assert(am as int == abs(self as int));
            assert(bm as int == abs(rhs as int));
            lemma_udiv_bounds(am as int, bm as int);
        }
        if (self < 0) != (rhs < 0) {
            if q == 0x80u8 {
                i8::MIN
            } else {
                -(q as i8)
            }
        } else {
            proof {
                if bm >= 2 {
                    lemma_udiv_by_ge2(am as int, bm as int);
                } else {
                    lemma_div_basics(am as int);
                }
            }
            q as i8
        }
    }

    fn rem_trunc(self, rhs: i8) -> (r: i8) {
        let am: u8 = if self >= 0 {
            self as u8
        } else if self == i8::MIN {
            0x80u8
        } else {
            (-self) as u8
        };
        let bm: u8 = if rhs >= 0 {
            rhs as u8
        } else if rhs == i8::MIN {
            0x80u8
        } else {
            (-rhs) as u8
        };
        let rm: u8 = am % bm;
        proof {
            assert(am as int == abs(self as int));
            assert(bm as int == abs(rhs as int));
            lemma_mod_division_less_than_divisor(am as int, bm as int);
        }
        if self < 0 {
            -(rm as i8)
        } else {
            rm as i8
        }
    }

    fn from_sign_magnitude(negative: bool, magnitude: u64) -> (r: Option<i8>) {
        if negative {
            if magnitude <= 0x7fu64 {
                Some(-(magnitude as i8))
            } else if magnitude == 0x80u64 {
                Some(i8::MIN)
            } else {
                None
            }
        } else if magnitude <= 0x7fu64 {
            Some(magnitude as i8)
        } else {
            None
        }
    }

    fn magnitude_u64(self) -> (r: u64) {
        if self >= 0 {
            self as u64
        } else if self == i8::MIN {
            0x80u64
        } else {
            (-self) as u64
        }
    }

    fn is_negative(self) -> (r: bool) {
        self < 0
    }
}


impl Number for i16 {
    open spec fn as_int(self) -> int {
        self as int
    }

    open spec fn min_val() -> int {
        i16::MIN as int
    }

    open spec fn max_val() -> int {
        i16::MAX as int
    }

    proof fn lemma_range() {
    }

    proof fn lemma_in_range(self) {
    }

    fn zero() -> (r: i16) {
        0
    }

    fn one() -> (r: i16) {
        1
    }

    fn ten() -> (r: i16) {
        10
    }

    fn mul10(self) -> (r: i16) {
        self * 10
    }

    fn div_trunc(self, rhs: i16) -> (r: i16) {
        let am: u16 = if self >= 0 {
            self as u16
        } else if self == i16::MIN {
            0x8000u16
        } else {
            (-self) as u16
        };
        let bm: u16 = if rhs >= 0 {
            rhs as u16
        } else if rhs == i16::MIN {
            0x8000u16
        } else {
            (-rhs) as u16
        };
        let q: u16 = am / bm;
        proof {
            assert(am as int == abs(self as int));
            assert(bm as int == abs(rhs as int));
            lemma_udiv_bounds(am as int, bm as int);
        }
        if (self < 0) != (rhs < 0) {
            if q == 0x8000u16 {
                i16::MIN
            } else {
                -(q as i16)
            }
        } else {
            proof {
                if bm >= 2 {
                    lemma_udiv_by_ge2(am as int, bm as int);
                } else {
                    lemma_div_basics(am as int);
                }
            }
            q as i16
        }
    }

    fn rem_trunc(self, rhs: i16) -> (r: i16) {
        let am: u16 = if self >= 0 {
            self as u16
        } else if self == i16::MIN {
            0x8000u16
        } else {
            (-self) as u16
        };
        let bm: u16 = if rhs >= 0 {
            rhs as u16
        } else if rhs == i16::MIN {
            0x8000u16
        } else {
            (-rhs) as u16
        };
        let rm: u16 = am % bm;
        proof {
            assert(am as int == abs(self as int));
            assert(bm as int == abs(rhs as int));
            lemma_mod_division_less_than_divisor(am as int, bm as int);
        }
        if self < 0 {
            -(rm as i16)
        } else {
            rm as i16
        }
    }

    fn from_sign_magnitude(negative: bool, magnitude: u64) -> (r: Option<i16>) {
        if negative {
            if magnitude <= 0x7fffu64 {
                Some(-(magnitude as i16))
            } else if magnitude == 0x8000u64 {
                Some(i16::MIN)
            } else {
                None
            }
        } else if magnitude <= 0x7fffu64 {
            Some(magnitude as i16)
        } else {
            None
        }
    }

    fn magnitude_u64(self) -> (r: u64) {
        if self >= 0 {
            self as u64
        } else if self == i16::MIN {
            0x8000u64
        } else {
            (-self) as u64
        }
    }

    fn is_negative(self) -> (r: bool) {
        self < 0
    }
}


impl Number for i64 {
    open spec fn as_int(self) -> int {
        self as int
    }

    open spec fn min_val() -> int {
        i64::MIN as int
    }

    open spec fn max_val() -> int {
        i64::MAX as int
    }

    proof fn lemma_range() {
    }

    proof fn lemma_in_range(self) {
    }

    fn zero() -> (r: i64) {
        0
    }

    fn one() -> (r: i64) {
        1
    }

    fn ten() -> (r: i64) {
        10
    }

    fn mul10(self) -> (r: i64) {
        self * 10
    }

    fn div_trunc(self, rhs: i64) -> (r: i64) {
        let am: u64 = if self >= 0 {
            self as u64
        } else if self == i64::MIN {
            0x8000_0000_0000_0000u64
        } else {
            (-self) as u64
        };
        let bm: u64 = if rhs >= 0 {
            rhs as u64
        } else if rhs == i64::MIN {
            0x8000_0000_0000_0000u64
        } else {
            (-rhs) as u64
        };
        let q: u64 = am / bm;
        proof {
            assert(am as int == abs(self as int));
            assert(bm as int == abs(rhs as int));
            lemma_udiv_bounds(am as int, bm as int);
        }
        if (self < 0) != (rhs < 0) {
            if q == 0x8000_0000_0000_0000u64 {
                i64::MIN
            } else {
                -(q as i64)
            }
        } else {
            proof {
                if bm >= 2 {
                    lemma_udiv_by_ge2(am as int, bm as int);
                } else {
                    lemma_div_basics(am as int);
                }
            }
            q as i64
        }
    }

    fn rem_trunc(self, rhs: i64) -> (r: i64) {
        let am: u64 = if self >= 0 {
            self as u64
        } else if self == i64::MIN {
            0x8000_0000_0000_0000u64
        } else {
            (-self) as u64
        };
        let bm: u64 = if rhs >= 0 {
            rhs as u64
        } else if rhs == i64::MIN {
            0x8000_0000_0000_0000u64
        } else {
            (-rhs) as u64
        };
        let rm: u64 = am % bm;
        proof {
            assert(am as int == abs(self as int));
            assert(bm as int == abs(rhs as int));
            lemma_mod_division_less_than_divisor(am as int, bm as int);
        }
        if self < 0 {
            -(rm as i64)
        } else {
            rm as i64
        }
    }

    fn from_sign_magnitude(negative: bool, magnitude: u64) -> (r: Option<i64>) {
        if negative {
            if magnitude <= 0x7fff_ffff_ffff_ffffu64 {
                Some(-(magnitude as i64))
            } else if magnitude == 0x8000_0000_0000_0000u64 {
                Some(i64::MIN)
            } else {
                None
            }
        } else if magnitude <= 0x7fff_ffff_ffff_ffffu64 {
            Some(magnitude as i64)
        } else {
            None
        }
    }

    fn magnitude_u64(self) -> (r: u64) {
        if self >= 0 {
            self as u64
        } else if self == i64::MIN {
            0x8000_0000_0000_0000u64
        } else {
            (-self) as u64
        }
    }

    fn is_negative(self) -> (r: bool) {
        self < 0
    }
}


impl Number for usize {
    open spec fn as_int(self) -> int {
        self as int
    }

    open spec fn min_val() -> int {
        0
    }

    open spec fn max_val() -> int {
        usize::MAX as int
    }

    proof fn lemma_range() {
    }

    proof fn lemma_in_range(self) {
    }

    fn zero() -> (r: usize) {
        0
    }

    fn one() -> (r: usize) {
        1
    }

    fn ten() -> (r: usize) {
        10
    }

    fn mul10(self) -> (r: usize) {
        self * 10
    }

    fn div_trunc(self, rhs: usize) -> (r: usize) {
        proof {
            lemma_udiv_bounds(self as int, rhs as int);
        }
        self / rhs
    }

    fn rem_trunc(self, rhs: usize) -> (r: usize) {
        self % rhs
    }

    fn from_sign_magnitude(negative: bool, magnitude: u64) -> (r: Option<usize>) {
        if negative {
            if magnitude == 0 {
                Some(0)
            } else {
                None
            }
        } else if magnitude <= usize::MAX as u64 {
            Some(magnitude as usize)
        } else {
            None
        }
    }

    fn magnitude_u64(self) -> (r: u64) {
        self as u64
    }

    fn is_negative(self) -> (r: bool) {
        false
    }
}

impl Number for isize {
    open spec fn as_int(self) -> int {
        self as int
    }

    open spec fn min_val() -> int {
        isize::MIN as int
    }

    open spec fn max_val() -> int {
        isize::MAX as int
    }

    proof fn lemma_range() {
    }

    proof fn lemma_in_range(self) {
    }

    fn zero() -> (r: isize) {
        0
    }

    fn one() -> (r: isize) {
        1
    }

    fn ten() -> (r: isize) {
        10
    }

    fn mul10(self) -> (r: isize) {
        self * 10
    }

    fn div_trunc(self, rhs: isize) -> (r: isize) {
        let am: usize = if self >= 0 {
            self as usize
        } else if self == isize::MIN {
            (isize::MAX as usize) + 1
        } else {
            (-self) as usize
        };
        let bm: usize = if rhs >= 0 {
            rhs as usize
        } else if rhs == isize::MIN {
            (isize::MAX as usize) + 1
        } else {
            (-rhs) as usize
        };
        let q: usize = am / bm;
        proof {
            assert(am as int == abs(self as int));
            assert(bm as int == abs(rhs as int));
            lemma_udiv_bounds(am as int, bm as int);
        }
        if (self < 0) != (rhs < 0) {
            if q == (isize::MAX as usize) + 1 {
                isize::MIN
            } else {
                -(q as isize)
            }
        } else {
            proof {
                if bm >= 2 {
                    lemma_udiv_by_ge2(am as int, bm as int);
                } else {
                    lemma_div_basics(am as int);
                }
            }
            q as isize
        }
    }

    fn rem_trunc(self, rhs: isize) -> (r: isize) {
        let am: usize = if self >= 0 {
            self as usize
        } else if self == isize::MIN {
            (isize::MAX as usize) + 1
        } else {
            (-self) as usize
        };
        let bm: usize = if rhs >= 0 {
            rhs as usize
        } else if rhs == isize::MIN {
            (isize::MAX as usize) + 1
        } else {
            (-rhs) as usize
        };
        let rm: usize = am % bm;
        proof {
            assert(am as int == abs(self as int));
            assert(bm as int == abs(rhs as int));
            lemma_mod_division_less_than_divisor(am as int, bm as int);
        }
        if self < 0 {
            -(rm as isize)
        } else {
            rm as isize
        }
    }

    fn from_sign_magnitude(negative: bool, magnitude: u64) -> (r: Option<isize>) {
        if negative {
            if magnitude <= isize::MAX as u64 {
                Some(-(magnitude as isize))
            } else if magnitude == (isize::MAX as u64) + 1 {
                Some(isize::MIN)
            } else {
                None
            }
        } else if magnitude <= isize::MAX as u64 {
            Some(magnitude as isize)
        } else {
            None
        }
    }

    fn magnitude_u64(self) -> (r: u64) {
        if self >= 0 {
            self as u64
        } else if self == isize::MIN {
            (isize::MAX as u64) + 1
        } else {
            (-self) as u64
        }
    }

    fn is_negative(self) -> (r: bool) {
        self < 0
    }
}

} // verus!
