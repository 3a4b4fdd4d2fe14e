use vstd::prelude::*;

verus! {

/// `2^128`, the weight of the high half of a [`Uint256`].
pub open spec fn half_base() -> nat {
    0x1_0000_0000_0000_0000_0000_0000_0000_0000nat
}

/// An unsigned 256-bit quantity, as the chain stores reserves and limits.
#[derive(Clone, Copy, Debug, PartialEq, Eq, Structural)]
pub struct Uint256 {
    pub hi: u128,
    pub lo: u128,
}

impl View for Uint256 {
    type V = nat;

    open spec fn view(&self) -> nat {
        self.hi as nat * half_base() + self.lo as nat
    }
}

proof fn lemma_high_half_decides(a: Uint256, b: Uint256)
    requires
        a.hi < b.hi,
    ensures
        a@ < b@,
{
    assert((a.hi as nat) * half_base() + (a.lo as nat) < (a.hi as nat + 1) * half_base()) by (nonlinear_arith)
        requires
            a.lo < half_base(),
    ;
    assert((a.hi as nat + 1) * half_base() <= (b.hi as nat) * half_base()) by (nonlinear_arith)
        requires
            a.hi + 1 <= b.hi,
    ;
}

impl Uint256 {
    pub fn new(hi: u128, lo: u128) -> (r: Uint256)
        ensures
            r.hi == hi,
            r.lo == lo,
            r@ == hi as nat * half_base() + lo as nat,
    {
        Uint256 { hi, lo }
    }

    pub fn zero() -> (r: Uint256)
        ensures
            r@ == 0,
    {
        Uint256 { hi: 0, lo: 0 }
    }

    pub fn from_u128(v: u128) -> (r: Uint256)
        ensures
            r@ == v,
    {
        Uint256 { hi: 0, lo: v }
    }

    pub fn is_zero(&self) -> (r: bool)
        ensures
            r == (self@ == 0),
    {
        proof {
            assert(self.hi > 0 ==> self@ >= half_base()) by (nonlinear_arith)
                requires
                    self@ == (self.hi as nat) * half_base() + (self.lo as nat),
            ;
        }
        self.hi == 0 && self.lo == 0
    }

    /// `self < other` as numbers.
    pub fn lt(&self, other: &Uint256) -> (r: bool)
        ensures
            r == (self@ < other@),
    {
        proof {
            if self.hi < other.hi {
                lemma_high_half_decides(*self, *other);
            } else if other.hi < self.hi {
                lemma_high_half_decides(*other, *self);
            }
        }
        self.hi < other.hi || (self.hi == other.hi && self.lo < other.lo)
    }

    /// `self <= other` as numbers.
    pub fn le(&self, other: &Uint256) -> (r: bool)
        ensures
            r == (self@ <= other@),
    {
        !other.lt(self)
    }
}

} // verus!
