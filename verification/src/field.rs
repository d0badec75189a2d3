//! The prime field of the virtual machine and the four-element digest word.

use vstd::prelude::*;

verus! {

/// The field modulus: a 64-bit prime of the Goldilocks family.
pub const FIELD_MODULUS: u64 = 0xffff_ffff_0000_0001;

/// An element of the prime field.
///
/// The stored representative is always canonical: `0 <= v < FIELD_MODULUS`.
#[derive(Clone, Copy, PartialEq, Eq, Structural, Debug)]
pub struct Felt {
    v: u64,
}

/// The canonical representative of `a + b` in the field.
pub open spec fn fadd(a: u64, b: u64) -> u64 {
    (((a as int) + (b as int)) % (FIELD_MODULUS as int)) as u64
}

/// The canonical representative of `a * b` in the field.
pub open spec fn fmul(a: u64, b: u64) -> u64 {
    (((a as int) * (b as int)) % (FIELD_MODULUS as int)) as u64
}

impl Felt {
    /// Every `Felt` holds the canonical representative of its residue class.
    #[verifier::type_invariant]
    pub closed spec fn canonical(self) -> bool {
        self.v < FIELD_MODULUS
    }

    /// The integer value of the element.
    pub closed spec fn val(self) -> u64 {
        self.v
    }

    /// Builds the element for `v`, reducing it to its canonical representative.
    pub fn new(v: u64) -> (r: Felt)
        ensures
            r.val() == v % FIELD_MODULUS,
    {
        Felt { v: v % FIELD_MODULUS }
    }

    /// The additive identity.
    pub fn zero() -> (r: Felt)
        ensures
            r.val() == 0,
    {
        Felt { v: 0 }
    }

    /// The multiplicative identity.
    pub fn one() -> (r: Felt)
        ensures
            r.val() == 1,
    {
        Felt { v: 1 }
    }

    /// The canonical integer representative of the element.
    pub fn as_int(&self) -> (r: u64)
        ensures
            r == self.val(),
            r < FIELD_MODULUS,
    {
        proof {
            use_type_invariant(*self);
        }
        self.v
    }

    /// Field addition.
    pub fn add(self, rhs: Felt) -> (r: Felt)
        ensures
            r.val() == fadd(self.val(), rhs.val()),
    {
        let s: u128 = (self.v as u128) + (rhs.v as u128);
        let m: u128 = FIELD_MODULUS as u128;
        let rv: u128 = s % m;
        assert(rv < m);
        assert(rv == fadd(self.v, rhs.v));
        Felt { v: rv as u64 }
    }

    /// Field multiplication.
    pub fn mul(self, rhs: Felt) -> (r: Felt)
        ensures
            r.val() == fmul(self.val(), rhs.val()),
    {
        proof {
            use_type_invariant(self);
            use_type_invariant(rhs);
            assert((self.v as u128) * (rhs.v as u128) <= u128::MAX) by (nonlinear_arith)
                requires
                    self.v < FIELD_MODULUS,
                    rhs.v < FIELD_MODULUS,
            ;
        }
        let s: u128 = (self.v as u128) * (rhs.v as u128);
        let m: u128 = FIELD_MODULUS as u128;
        let rv: u128 = s % m;
        assert(rv < m);
        assert(rv == fmul(self.v, rhs.v));
        Felt { v: rv as u64 }
    }
}

/// The hasher position after reserving `n` eight-row absorptions from
/// position `pos`.
pub open spec fn hasher_advance(pos: u64, n: u64) -> u64 {
    fadd(pos, fmul(8, n % FIELD_MODULUS))
}

/// A four-element digest: the result word of the structural hash.
#[derive(Clone, Copy, PartialEq, Eq, Structural, Debug)]
pub struct Word {
    pub f0: Felt,
    pub f1: Felt,
    pub f2: Felt,
    pub f3: Felt,
}

impl Word {
    /// The four integer values of the digest, in order.
    pub open spec fn vals(self) -> Seq<u64> {
        seq![self.f0.val(), self.f1.val(), self.f2.val(), self.f3.val()]
    }

    /// The all-zero word.
    pub fn zero() -> (r: Word)
        ensures
            r.vals() == seq![0u64, 0u64, 0u64, 0u64],
    {
        Word { f0: Felt::zero(), f1: Felt::zero(), f2: Felt::zero(), f3: Felt::zero() }
    }

    /// The digest as plain integers.
    pub fn to_ints(&self) -> (r: Vec<u64>)
        ensures
            r@ == self.vals(),
    {
        let mut r: Vec<u64> = Vec::new();
        r.push(self.f0.as_int());
        r.push(self.f1.as_int());
        r.push(self.f2.as_int());
        r.push(self.f3.as_int());
        proof {
            assert(r@ =~= self.vals());
        }
        r
    }
}

} // verus!
