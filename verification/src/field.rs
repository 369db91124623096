//! The scalar field of BLS12-381, the coefficient and witness domain of the
//! constraint system. An element is held as four little-endian 64-bit limbs
//! in canonical (fully reduced) form; its mathematical value is a natural
//! number below the field modulus. Addition and multiplication are carried
//! out by `blstrs`; everything else is verified code over the limbs.

use vstd::prelude::*;

verus! {

use vstd::arithmetic::div_mod::lemma_fundamental_div_mod_converse;

/// The order of the BLS12-381 scalar field.
pub open spec fn fr_modulus() -> nat {
    0x73eda753299d7d483339d80809a1d80553bda402fffe5bfeffffffff00000001nat
}

/// A scalar field element in canonical little-endian limb form.
#[derive(Clone, Copy, Debug, PartialEq, Eq, Structural)]
pub struct Fr {
    pub l0: u64,
    pub l1: u64,
    pub l2: u64,
    pub l3: u64,
}

impl Fr {
    /// The natural number an element's limbs denote.
    pub open spec fn as_nat(self) -> nat {
        self.l0 as nat
        + self.l1 as nat * 0x10000000000000000nat
        + self.l2 as nat * 0x100000000000000000000000000000000nat
        + self.l3 as nat * 0x1000000000000000000000000000000000000000000000000nat
    }

    /// Canonical form: the value is fully reduced.
    pub open spec fn wf(self) -> bool {
        self.as_nat() < fr_modulus()
    }

    /// The additive identity.
    pub fn zero() -> (r: Fr)
        ensures
            r.wf(),
            r.as_nat() == 0,
    {
        Fr { l0: 0, l1: 0, l2: 0, l3: 0 }
    }

    /// The multiplicative identity.
    pub fn one() -> (r: Fr)
        ensures
            r.wf(),
            r.as_nat() == 1,
    {
        Fr { l0: 1, l1: 0, l2: 0, l3: 0 }
    }

    /// The additive inverse of one, i.e. the modulus minus one.
    pub fn neg_one() -> (r: Fr)
        ensures
            r.wf(),
            r.as_nat() == fr_modulus() - 1,
    {
        Fr {
            l0: 0xffffffff00000000,
            l1: 0x53bda402fffe5bfe,
            l2: 0x3339d80809a1d805,
            l3: 0x73eda753299d7d48,
        }
    }

    /// Embeds a 64-bit integer; every such value is already reduced.
    pub fn from_u64(x: u64) -> (r: Fr)
        ensures
            r.wf(),
            r.as_nat() == x,
    {
        Fr { l0: x, l1: 0, l2: 0, l3: 0 }
    }

    /// Builds an element from little-endian limbs, which must be canonical.
    pub fn from_limbs(l0: u64, l1: u64, l2: u64, l3: u64) -> (r: Fr)
        requires
            (Fr { l0, l1, l2, l3 }).wf(),
        ensures
            r == (Fr { l0, l1, l2, l3 }),
    {
        Fr { l0, l1, l2, l3 }
    }

    /// Tests for the additive identity.
    pub fn is_zero(&self) -> (r: bool)
        ensures
            r == (self.as_nat() == 0),
    {
        proof {
            if self.l1 != 0 || self.l2 != 0 || self.l3 != 0 {
                assert(self.as_nat() > 0) by (nonlinear_arith)
                    requires
                        self.l1 != 0 || self.l2 != 0 || self.l3 != 0,
                ;
            }
        }
        self.l0 == 0 && self.l1 == 0 && self.l2 == 0 && self.l3 == 0
    }
}

/// Two elements with the same value have the same limbs: the limb form of a
/// value is unique, so canonical elements are equal exactly when their
/// values are.
pub proof fn lemma_fr_nat_injective(a: Fr, b: Fr)
    requires
        a.as_nat() == b.as_nat(),
    ensures
        a == b,
{
    let p: int = 0x10000000000000000int;
    assert(p * p == 0x100000000000000000000000000000000int);
    assert(p * (p * p) == 0x1000000000000000000000000000000000000000000000000int);
    let ha: int = a.l1 + a.l2 * p + a.l3 * (p * p);
    let hb: int = b.l1 + b.l2 * p + b.l3 * (p * p);
    let na: int = a.as_nat() as int;
    let nb: int = b.as_nat() as int;
    assert(na == a.l0 + a.l1 * p + a.l2 * (p * p) + a.l3 * (p * (p * p)));
    assert(nb == b.l0 + b.l1 * p + b.l2 * (p * p) + b.l3 * (p * (p * p)));
    assert(na == a.l0 + ha * p && nb == b.l0 + hb * p) by (nonlinear_arith)
        requires
            na == a.l0 + a.l1 * p + a.l2 * (p * p) + a.l3 * (p * (p * p)),
            nb == b.l0 + b.l1 * p + b.l2 * (p * p) + b.l3 * (p * (p * p)),
            ha == a.l1 + a.l2 * p + a.l3 * (p * p),
            hb == b.l1 + b.l2 * p + b.l3 * (p * p),
    ;
    lemma_fundamental_div_mod_converse(na, p, ha, a.l0 as int);
    lemma_fundamental_div_mod_converse(nb, p, hb, b.l0 as int);
    assert(a.l0 == b.l0 && ha == hb);
    let ga: int = a.l2 + a.l3 * p;
    let gb: int = b.l2 + b.l3 * p;
    assert(ha == a.l1 + ga * p && hb == b.l1 + gb * p) by (nonlinear_arith)
        requires
            ha == a.l1 + a.l2 * p + a.l3 * (p * p),
            hb == b.l1 + b.l2 * p + b.l3 * (p * p),
            ga == a.l2 + a.l3 * p,
            gb == b.l2 + b.l3 * p,
    ;
    lemma_fundamental_div_mod_converse(ha, p, ga, a.l1 as int);
    lemma_fundamental_div_mod_converse(hb, p, gb, b.l1 as int);
    assert(a.l1 == b.l1 && ga == gb);
    lemma_fundamental_div_mod_converse(ga, p, a.l3 as int, a.l2 as int);
    lemma_fundamental_div_mod_converse(gb, p, b.l3 as int, b.l2 as int);
    assert(a.l2 == b.l2 && a.l3 == b.l3);
}

/// Field addition. Relies on `blstrs::Scalar`: `from_u64s_le` accepts exactly
/// the canonical little-endian limb forms, `+` is addition modulo the field
/// order, and `to_bytes_le` returns the canonical little-endian bytes.
#[verifier::external_body]
pub(crate) fn fr_add(a: &Fr, b: &Fr) -> (r: Fr)
    requires
        a.wf(),
        b.wf(),
    ensures
        r.wf(),
        r.as_nat() == (a.as_nat() + b.as_nat()) % fr_modulus(),
{
    let x = blstrs::Scalar::from_u64s_le(&[a.l0, a.l1, a.l2, a.l3]).unwrap();
    let y = blstrs::Scalar::from_u64s_le(&[b.l0, b.l1, b.l2, b.l3]).unwrap();
    let s = (&x + &y).to_bytes_le();
    Fr {
        l0: u64::from_le_bytes(s[0..8].try_into().unwrap()),
        l1: u64::from_le_bytes(s[8..16].try_into().unwrap()),
        l2: u64::from_le_bytes(s[16..24].try_into().unwrap()),
        l3: u64::from_le_bytes(s[24..32].try_into().unwrap()),
    }
}

/// Field multiplication. Relies on `blstrs::Scalar`: `from_u64s_le` accepts
/// exactly the canonical little-endian limb forms, `*` is multiplication
/// modulo the field order, and `to_bytes_le` returns the canonical
/// little-endian bytes.
#[verifier::external_body]
pub(crate) fn fr_mul(a: &Fr, b: &Fr) -> (r: Fr)
    requires
        a.wf(),
        b.wf(),
    ensures
        r.wf(),
        r.as_nat() == (a.as_nat() * b.as_nat()) % fr_modulus(),
{
    let x = blstrs::Scalar::from_u64s_le(&[a.l0, a.l1, a.l2, a.l3]).unwrap();
    let y = blstrs::Scalar::from_u64s_le(&[b.l0, b.l1, b.l2, b.l3]).unwrap();
    let s = (&x * &y).to_bytes_le();
    Fr {
        l0: u64::from_le_bytes(s[0..8].try_into().unwrap()),
        l1: u64::from_le_bytes(s[8..16].try_into().unwrap()),
        l2: u64::from_le_bytes(s[16..24].try_into().unwrap()),
        l3: u64::from_le_bytes(s[24..32].try_into().unwrap()),
    }
}

} // verus!
