//! The unsigned integer types that can hold the to-explore bit sets.

use vstd::prelude::*;
use crate::bits::{bit, lemma_bit_ops, lemma_trailing_zeros};

verus! {

/// An unsigned integer used as a fixed-width set of bit positions.
pub trait Word: Copy + Sized {
    /// The number of bits of the type.
    spec fn spec_width() -> int;

    /// Whether bit `i` is set.
    spec fn has_bit(self, i: int) -> bool;

    /// Set bits lie within the width, which is 8, 16, 32 or 64.
    proof fn lemma_width(self)
        ensures
            Self::spec_width() == 8 || Self::spec_width() == 16 || Self::spec_width() == 32
                || Self::spec_width() == 64,
            forall|i: int| #[trigger] self.has_bit(i) ==> 0 <= i < Self::spec_width(),
    ;

    /// The number of bits of the type.
    fn width() -> (r: usize)
        ensures
            r == Self::spec_width(),
            8 <= r <= 64,
    ;

    /// The word with no bit set.
    fn zero() -> (r: Self)
        ensures
            forall|i: int| !#[trigger] r.has_bit(i),
    ;

    /// Whether no bit is set.
    fn is_zero(self) -> (r: bool)
        ensures
            r <==> forall|i: int| !#[trigger] self.has_bit(i),
    ;

    /// The position of the lowest set bit, or the width when none is set.
    fn trailing_zeros(self) -> (r: u32)
        ensures
            r <= Self::spec_width(),
            (forall|i: int| !#[trigger] self.has_bit(i)) <==> r == Self::spec_width(),
            r < Self::spec_width() ==> self.has_bit(r as int),
            forall|j: int| 0 <= j < r ==> !#[trigger] self.has_bit(j),
    ;

    /// The word with bit `k` set as well.
    fn with_bit(self, k: usize) -> (r: Self)
        requires
            k < Self::spec_width(),
        ensures
            forall|i: int| #[trigger] r.has_bit(i) == (self.has_bit(i) || i == k),
    ;

    /// The word with bit `k` flipped.
    fn toggle_bit(self, k: usize) -> (r: Self)
        requires
            k < Self::spec_width(),
        ensures
            forall|i: int| #[trigger] r.has_bit(i) == (self.has_bit(i) != (i == k)),
    ;
}

impl Word for u64 {
    open spec fn spec_width() -> int {
        64
    }

    open spec fn has_bit(self, i: int) -> bool {
        bit(self, i)
    }

    proof fn lemma_width(self) {
    }

    fn width() -> (r: usize) {
        64
    }

    fn zero() -> (r: Self) {
        proof {
            lemma_bit_ops();
        }
        assert forall|i: int| !#[trigger] bit(0u64, i) by {}
        0
    }

    fn is_zero(self) -> (r: bool) {
        proof {
            lemma_bit_ops();
            if self != 0 {
                lemma_trailing_zeros(self);
                assert(self.has_bit(self.trailing_zeros() as int));
            } else {
                assert forall|i: int| !#[trigger] self.has_bit(i) by {}
            }
        }
        self == 0
    }

    fn trailing_zeros(self) -> (r: u32) {
        proof {
            lemma_bit_ops();
            vstd::std_specs::bits::axiom_u64_trailing_zeros(self);
            if self != 0 {
                lemma_trailing_zeros(self);
                assert(self.has_bit(u64::trailing_zeros(self) as int));
            } else {
                assert forall|i: int| !#[trigger] self.has_bit(i) by {}
            }
        }
        u64::trailing_zeros(self)
    }

    fn with_bit(self, k: usize) -> (r: Self) {
        proof {
            lemma_bit_ops();
        }
        self | (1u64 << (k as u64))
    }

    fn toggle_bit(self, k: usize) -> (r: Self) {
        proof {
            lemma_bit_ops();
        }
        self ^ (1u64 << (k as u64))
    }
}

/// Whether bit `i` of the byte `w` is set.
pub open spec fn bit8(w: u8, i: int) -> bool {
    0 <= i < 8 && (w >> (i as u8)) & 1u8 == 1u8
}

proof fn lemma_u8_ops(a: u8, k: u8, i: u8)
    by (bit_vector)
    requires
        i < 8,
        k < 8,
    ensures
        ((a | (1u8 << k)) >> i) & 1u8 == 1u8 <==> ((a >> i) & 1u8 == 1u8 || i == k),
        ((a ^ (1u8 << k)) >> i) & 1u8 == 1u8 <==> (((a >> i) & 1u8 == 1u8) != (i == k)),
        !((0u8 >> i) & 1u8 == 1u8),
{
}

impl Word for u8 {
    open spec fn spec_width() -> int {
        8
    }

    open spec fn has_bit(self, i: int) -> bool {
        bit8(self, i)
    }

    proof fn lemma_width(self) {
    }

    fn width() -> (r: usize) {
        8
    }

    fn zero() -> (r: Self) {
        assert forall|i: int| !#[trigger] bit8(0u8, i) by {
            if 0 <= i < 8 {
                lemma_u8_ops(0, 0, i as u8);
            }
        }
        assert forall|i: int| !#[trigger] 0u8.has_bit(i) by {}
        0
    }

    fn is_zero(self) -> (r: bool) {
        proof {
            assert forall|i: int| !#[trigger] bit8(0u8, i) by {
                if 0 <= i < 8 {
                    lemma_u8_ops(0, 0, i as u8);
                }
            }
            if self != 0 {
                vstd::std_specs::bits::axiom_u8_trailing_zeros(self);
                let tz = u8::trailing_zeros(self);
                assert(bit8(self, tz as int));
                assert(self.has_bit(tz as int));
            } else {
                assert forall|i: int| !#[trigger] self.has_bit(i) by {}
            }
        }
        self == 0
    }

    fn trailing_zeros(self) -> (r: u32) {
        proof {
            vstd::std_specs::bits::axiom_u8_trailing_zeros(self);
            let tz = u8::trailing_zeros(self);
            assert forall|j: int| 0 <= j < tz implies !#[trigger] bit8(self, j) by {
                let jj = j as u8;
                assert((self >> jj) & 1u8 == 0u8);
            }
            assert forall|i: int| !#[trigger] bit8(0u8, i) by {
                if 0 <= i < 8 {
                    lemma_u8_ops(0, 0, i as u8);
                }
            }
            if self != 0 {
                assert(self.has_bit(tz as int));
            } else {
                assert forall|i: int| !#[trigger] self.has_bit(i) by {}
            }
        }
        u8::trailing_zeros(self)
    }

    fn with_bit(self, k: usize) -> (r: Self) {
        let r = self | (1u8 << (k as u8));
        assert forall|i: int| #[trigger] bit8(r, i) == (bit8(self, i) || i == k) by {
            if 0 <= i < 8 {
                lemma_u8_ops(self, k as u8, i as u8);
            }
        }
        r
    }

    fn toggle_bit(self, k: usize) -> (r: Self) {
        let r = self ^ (1u8 << (k as u8));
        assert forall|i: int| #[trigger] bit8(r, i) == (bit8(self, i) != (i == k)) by {
            if 0 <= i < 8 {
                lemma_u8_ops(self, k as u8, i as u8);
            }
        }
        r
    }
}

} // verus!
