use vstd::prelude::*;

verus! {

/// The order of the scalar field of BN254, the field in which every RLN value lives.
pub open spec fn fr_modulus() -> nat {
    21888242871839275222246405745257275088548364400416034343698204186575808495617nat
}

/// The radix of one 64-bit limb.
pub open spec fn limb_base() -> nat {
    0x1_0000_0000_0000_0000nat
}

/// The integer written by four little-endian 64-bit limbs.
pub open spec fn limbs_value(l0: u64, l1: u64, l2: u64, l3: u64) -> nat {
    (l0 + limb_base() * (l1 + limb_base() * (l2 + limb_base() * l3))) as nat
}

/// The value of a limb array, least significant limb first.
pub open spec fn array_value(limbs: [u64; 4]) -> nat {
    limbs_value(limbs@[0], limbs@[1], limbs@[2], limbs@[3])
}

pub const MODULUS_L0: u64 = 0x43e1f593f0000001u64;

pub const MODULUS_L1: u64 = 0x2833e84879b97091u64;

pub const MODULUS_L2: u64 = 0xb85045b68181585du64;

pub const MODULUS_L3: u64 = 0x30644e72e131a029u64;

/// An element of the BN254 scalar field, kept as its canonical integer
/// (the one in `0..fr_modulus()`) in four little-endian 64-bit limbs.
///
/// Two elements are equal exactly when their integers are equal, so the
/// derived `==` is field equality.
#[derive(Clone, Copy, Debug, PartialEq, Eq, Structural)]
pub struct FieldElement {
    pub(crate) l0: u64,
    pub(crate) l1: u64,
    pub(crate) l2: u64,
    pub(crate) l3: u64,
}

impl View for FieldElement {
    type V = nat;

    /// The canonical integer of the element.
    closed spec fn view(&self) -> nat {
        limbs_value(self.l0, self.l1, self.l2, self.l3)
    }
}

/// Distinct limbs give distinct integers.
proof fn lemma_limbs_injective(a0: u64, a1: u64, a2: u64, a3: u64, b0: u64, b1: u64, b2: u64, b3: u64)
    requires
        limbs_value(a0, a1, a2, a3) == limbs_value(b0, b1, b2, b3),
    ensures
        a0 == b0,
        a1 == b1,
        a2 == b2,
        a3 == b3,
{
    let ta = a1 + limb_base() * (a2 + limb_base() * a3);
    let tb = b1 + limb_base() * (b2 + limb_base() * b3);
    assert(a0 == b0 && ta == tb) by {
        assert(a0 + limb_base() * ta == b0 + limb_base() * tb);
        assert(ta >= 0 && tb >= 0);
        if ta > tb {
            assert(limb_base() * ta >= limb_base() * tb + limb_base()) by (nonlinear_arith)
                requires ta >= tb + 1, limb_base() > 0;
        } else if ta < tb {
            assert(limb_base() * tb >= limb_base() * ta + limb_base()) by (nonlinear_arith)
                requires tb >= ta + 1, limb_base() > 0;
        }
    }
    let ua = a2 + limb_base() * a3;
    let ub = b2 + limb_base() * b3;
    assert(a1 == b1 && ua == ub) by {
        assert(ua >= 0 && ub >= 0);
        if ua > ub {
            assert(limb_base() * ua >= limb_base() * ub + limb_base()) by (nonlinear_arith)
                requires ua >= ub + 1, limb_base() > 0;
        } else if ua < ub {
            assert(limb_base() * ub >= limb_base() * ua + limb_base()) by (nonlinear_arith)
                requires ub >= ua + 1, limb_base() > 0;
        }
    }
    assert(a2 == b2 && a3 == b3) by {
        if a3 > b3 {
            assert(limb_base() * a3 >= limb_base() * b3 + limb_base()) by (nonlinear_arith)
                requires a3 >= b3 + 1, limb_base() > 0;
        } else if a3 < b3 {
            assert(limb_base() * b3 >= limb_base() * a3 + limb_base()) by (nonlinear_arith)
                requires b3 >= a3 + 1, limb_base() > 0;
        }
    }
}

/// Limbs ordered from the most significant one compare as their integers do.
proof fn lemma_limbs_lt(a0: u64, a1: u64, a2: u64, a3: u64, b0: u64, b1: u64, b2: u64, b3: u64)
    ensures
        limbs_value(a0, a1, a2, a3) < limbs_value(b0, b1, b2, b3) <==> (a3 < b3 || (a3 == b3 && (
        a2 < b2 || (a2 == b2 && (a1 < b1 || (a1 == b1 && a0 < b0)))))),
{
    let ua = a2 + limb_base() * a3;
    let ub = b2 + limb_base() * b3;
    let ta = a1 + limb_base() * ua;
    let tb = b1 + limb_base() * ub;
    assert(ua < ub <==> (a3 < b3 || (a3 == b3 && a2 < b2))) by {
        if a3 < b3 {
            assert(limb_base() * b3 >= limb_base() * a3 + limb_base()) by (nonlinear_arith)
                requires b3 >= a3 + 1, limb_base() > 0;
        } else if a3 > b3 {
            assert(limb_base() * a3 >= limb_base() * b3 + limb_base()) by (nonlinear_arith)
                requires a3 >= b3 + 1, limb_base() > 0;
        }
    }
    assert(ua >= 0 && ub >= 0);
    assert(ta < tb <==> (ua < ub || (ua == ub && a1 < b1))) by {
        if ua < ub {
            assert(limb_base() * ub >= limb_base() * ua + limb_base()) by (nonlinear_arith)
                requires ub >= ua + 1, limb_base() > 0;
        } else if ua > ub {
            assert(limb_base() * ua >= limb_base() * ub + limb_base()) by (nonlinear_arith)
                requires ua >= ub + 1, limb_base() > 0;
        }
    }
    assert(ta >= 0 && tb >= 0);
    assert(a0 + limb_base() * ta < b0 + limb_base() * tb <==> (ta < tb || (ta == tb && a0 < b0))) by {
        if ta < tb {
            assert(limb_base() * tb >= limb_base() * ta + limb_base()) by (nonlinear_arith)
                requires tb >= ta + 1, limb_base() > 0;
        } else if ta > tb {
            assert(limb_base() * ta >= limb_base() * tb + limb_base()) by (nonlinear_arith)
                requires ta >= tb + 1, limb_base() > 0;
        }
    }
    if ua == ub {
        lemma_limbs_injective(a2, a3, 0, 0, b2, b3, 0, 0);
    }
}

impl FieldElement {
    /// Every element is canonical: its integer is below the modulus.
    #[verifier::type_invariant]
    pub open spec fn canonical(self) -> bool {
        self@ < fr_modulus()
    }

    /// Two elements with the same integer are the same element.
    pub proof fn lemma_view_injective(a: Self, b: Self)
        requires
            a@ == b@,
        ensures
            a == b,
    {
        lemma_limbs_injective(a.l0, a.l1, a.l2, a.l3, b.l0, b.l1, b.l2, b.l3);
    }

    /// The element whose integer is `v`, as `Fr::from(v)` gives it.
    pub fn from_u64(v: u64) -> (r: Self)
        ensures
            r@ == v,
    {
        assert(limbs_value(v, 0, 0, 0) == v);
        FieldElement { l0: v, l1: 0, l2: 0, l3: 0 }
    }

    /// The zero element.
    pub fn zero() -> (r: Self)
        ensures
            r@ == 0,
    {
        Self::from_u64(0)
    }

    /// The element with the given little-endian limbs, or `None` where they
    /// write an integer that is not below the modulus.
    pub fn from_limbs(limbs: [u64; 4]) -> (r: Option<Self>)
        ensures
            r is Some <==> array_value(limbs) < fr_modulus(),
            r matches Some(f) ==> f@ == array_value(limbs),
    {
        let a0 = limbs[0];
        let a1 = limbs[1];
        let a2 = limbs[2];
        let a3 = limbs[3];
        proof {
            lemma_limbs_lt(a0, a1, a2, a3, MODULUS_L0, MODULUS_L1, MODULUS_L2, MODULUS_L3);
            assert(limbs_value(MODULUS_L0, MODULUS_L1, MODULUS_L2, MODULUS_L3) == fr_modulus());
        }
        let below = a3 < MODULUS_L3 || (a3 == MODULUS_L3 && (a2 < MODULUS_L2 || (a2 == MODULUS_L2
            && (a1 < MODULUS_L1 || (a1 == MODULUS_L1 && a0 < MODULUS_L0)))));
        if below {
            Some(FieldElement { l0: a0, l1: a1, l2: a2, l3: a3 })
        } else {
            None
        }
    }

    /// Whether this element's integer is at most the other's.
    pub fn value_le(&self, other: &Self) -> (r: bool)
        ensures
            r == (self@ <= other@),
    {
        proof {
            lemma_limbs_lt(other.l0, other.l1, other.l2, other.l3, self.l0, self.l1, self.l2, self.l3);
        }
        !(other.l3 < self.l3 || (other.l3 == self.l3 && (other.l2 < self.l2 || (other.l2 == self.l2
            && (other.l1 < self.l1 || (other.l1 == self.l1 && other.l0 < self.l0))))))
    }

    /// The element with the given limbs, which write an integer below the
    /// modulus, as `into_bigint` of a field element gives them.
    pub(crate) fn from_canonical_limbs(limbs: [u64; 4]) -> (r: Self)
        requires
            array_value(limbs) < fr_modulus(),
        ensures
            r@ == array_value(limbs),
    {
        FieldElement { l0: limbs[0], l1: limbs[1], l2: limbs[2], l3: limbs[3] }
    }

    /// The little-endian limbs of the element's integer.
    pub fn limbs(&self) -> (r: [u64; 4])
        ensures
            array_value(r) == self@,
    {
        [self.l0, self.l1, self.l2, self.l3]
    }
}

} // verus!
