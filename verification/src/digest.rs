//! Deterministic content fingerprint. The digest summarizes only structural
//! and numeric content — variable tags and indices, coefficients, counts —
//! never names, so renaming paths leaves the fingerprint unchanged while any
//! change to a constraint's shape or coefficients changes the hashed bytes.
//! The byte layout is an external compatibility contract: a header of three
//! 8-byte big-endian counts, then for each constraint, for A then B then C,
//! an 8-byte big-endian count of canonical terms followed by each term as a
//! tag byte, an 8-byte big-endian index, and the coefficient's canonical
//! bytes in big-endian order.

use vstd::prelude::*;

verus! {

use vstd::arithmetic::div_mod::{
    lemma_div_denominator,
    lemma_fundamental_div_mod_converse,
    lemma_small_mod,
};
use vstd::arithmetic::power2::pow2;
use vstd::bits::lemma_u64_shr_is_div;
use vstd::string::StringExecFns;

use crate::canon::{canon, coeffs_reduced, proc_lc};
use crate::field::{Fr};
use crate::lc::{terms_view, terms_wf, Index, LinearCombination, Variable};
use crate::system::{Constraint, TestConstraintSystem};

/// The low 64-bit limb of a 256-bit value.
pub open spec fn limb0(n: nat) -> nat {
    n % 0x10000000000000000nat
}

pub open spec fn limb1(n: nat) -> nat {
    n / 0x10000000000000000nat % 0x10000000000000000nat
}

pub open spec fn limb2(n: nat) -> nat {
    n / 0x100000000000000000000000000000000nat % 0x10000000000000000nat
}

pub open spec fn limb3(n: nat) -> nat {
    n / 0x1000000000000000000000000000000000000000000000000nat % 0x10000000000000000nat
}

/// The eight big-endian bytes of a value below 2^64.
pub open spec fn be8(n: nat) -> Seq<u8> {
    Seq::new(8, |i: int| (n / pow2((8 * (7 - i)) as nat) % 256) as u8)
}

/// The 32 big-endian bytes of a value below 2^256: the little-endian
/// canonical storage read back to front.
pub open spec fn be32(n: nat) -> Seq<u8> {
    be8(limb3(n)) + be8(limb2(n)) + be8(limb1(n)) + be8(limb0(n))
}

/// The tag byte of a variable's kind: ASCII `I` for inputs, `A` for
/// auxiliaries.
pub open spec fn tag_byte(v: Variable) -> u8 {
    match v.0 {
        Index::Input(_) => 73u8,
        Index::Aux(_) => 65u8,
    }
}

/// The position of a variable within its kind's table.
pub open spec fn var_index(v: Variable) -> nat {
    match v.0 {
        Index::Input(i) => i as nat,
        Index::Aux(i) => i as nat,
    }
}

/// The bytes fed for one canonical term.
pub open spec fn term_bytes(t: (Variable, nat)) -> Seq<u8> {
    seq![tag_byte(t.0)] + be8(var_index(t.0)) + be32(t.1)
}

pub open spec fn terms_bytes(s: Seq<(Variable, nat)>) -> Seq<u8>
    decreases s.len(),
{
    if s.len() == 0 {
        Seq::empty()
    } else {
        terms_bytes(s.drop_last()) + term_bytes(s.last())
    }
}

/// The bytes fed for one linear combination: the canonical term count, then
/// the canonical terms in order.
pub open spec fn lc_bytes(s: Seq<(Variable, nat)>) -> Seq<u8> {
    be8(canon(s).len() as nat) + terms_bytes(canon(s))
}

/// The bytes fed for one constraint: A, then B, then C.
pub open spec fn constraint_bytes(c: Constraint) -> Seq<u8> {
    lc_bytes(c.a@) + lc_bytes(c.b@) + lc_bytes(c.c@)
}

pub open spec fn constraints_bytes(cs: Seq<Constraint>) -> Seq<u8>
    decreases cs.len(),
{
    if cs.len() == 0 {
        Seq::empty()
    } else {
        constraints_bytes(cs.drop_last()) + constraint_bytes(cs.last())
    }
}

/// Everything the fingerprint hashes: the three counts, then every
/// constraint in insertion order.
pub open spec fn fingerprint_bytes(sys: TestConstraintSystem) -> Seq<u8> {
    be8(sys.inputs@.len() as nat) + be8(sys.aux@.len() as nat) + be8(
        sys.constraints@.len() as nat,
    ) + constraints_bytes(sys.constraints@)
}

/// The 32-byte BLAKE2s-256 digest of a byte sequence; it depends on the
/// bytes alone.
pub uninterp spec fn blake2s_of(input: Seq<u8>) -> Seq<u8>;

/// Relies on `blake2s_simd::Params::hash` with a 32-byte output length: the
/// BLAKE2s-256 digest of the input bytes, a function of the bytes alone.
#[verifier::external_body]
fn blake2s256(input: &Vec<u8>) -> (r: Vec<u8>)
    ensures
        r@ == blake2s_of(input@),
        r@.len() == 32,
{
    let h = blake2s_simd::Params::new().hash_length(32).hash(input.as_slice());
    h.as_bytes().to_vec()
}

/// The lowercase hexadecimal digit of a value below sixteen.
pub open spec fn hex_digit(n: nat) -> char {
    seq!['0', '1', '2', '3', '4', '5', '6', '7', '8', '9', 'a', 'b', 'c', 'd', 'e', 'f'][n as int]
}

/// The lowercase hexadecimal rendering of a byte sequence, two digits per
/// byte, high nibble first.
pub open spec fn hex_of(bytes: Seq<u8>) -> Seq<char> {
    Seq::new(
        bytes.len() * 2,
        |i: int|
            if i % 2 == 0 {
                hex_digit(bytes[i / 2] as nat / 16)
            } else {
                hex_digit(bytes[i / 2] as nat % 16)
            },
    )
}

/// One lowercase hexadecimal digit as a string slice.
pub(crate) fn hex_char_str(n: u8) -> (r: &'static str)
    requires
        n < 16,
    ensures
        r@ =~= seq![hex_digit(n as nat)],
{
    proof {
        reveal_strlit("0");
        reveal_strlit("1");
        reveal_strlit("2");
        reveal_strlit("3");
        reveal_strlit("4");
        reveal_strlit("5");
        reveal_strlit("6");
        reveal_strlit("7");
        reveal_strlit("8");
        reveal_strlit("9");
        reveal_strlit("a");
        reveal_strlit("b");
        reveal_strlit("c");
        reveal_strlit("d");
        reveal_strlit("e");
        reveal_strlit("f");
    }
    match n {
        0 => "0",
        1 => "1",
        2 => "2",
        3 => "3",
        4 => "4",
        5 => "5",
        6 => "6",
        7 => "7",
        8 => "8",
        9 => "9",
        10 => "a",
        11 => "b",
        12 => "c",
        13 => "d",
        14 => "e",
        _ => "f",
    }
}

/// Appends the eight big-endian bytes of a 64-bit value.
fn push_be8(msg: &mut Vec<u8>, x: u64)
    ensures
        final(msg)@ == old(msg)@ + be8(x as nat),
{
    let ghost base = msg@;
    let mut k: usize = 0;
    proof {
        assert(msg@ =~= base + be8(x as nat).subrange(0, 0));
    }
    while k < 8
        invariant
            k <= 8,
            msg@ == base + be8(x as nat).subrange(0, k as int),
        decreases 8 - k,
    {
        let shift: u64 = (56 - 8 * (k as u64));
        let byte = ((x >> shift) & 0xff) as u8;
        proof {
            lemma_u64_shr_is_div(x, shift);
            assert((x >> shift) & 0xff == (x >> shift) % 256) by (bit_vector);
            assert(pow2((8 * (7 - k as int)) as nat) == pow2(shift as nat));
            assert(be8(x as nat)[k as int] == byte);
            assert(base + be8(x as nat).subrange(0, k + 1) =~= (base + be8(x as nat).subrange(
                0,
                k as int,
            )).push(byte));
        }
        msg.push(byte);
        k += 1;
    }
    proof {
        assert(be8(x as nat).subrange(0, 8) =~= be8(x as nat));
    }
}

/// The limbs of a canonical element are the limb decomposition of its value.
proof fn lemma_fr_limbs(f: Fr)
    ensures
        limb0(f.as_nat()) == f.l0,
        limb1(f.as_nat()) == f.l1,
        limb2(f.as_nat()) == f.l2,
        limb3(f.as_nat()) == f.l3,
{
    let p: int = 0x10000000000000000int;
    let n: int = f.as_nat() as int;
    assert(p * p == 0x100000000000000000000000000000000int);
    assert(p * (p * p) == 0x1000000000000000000000000000000000000000000000000int);
    let h1: int = f.l1 + f.l2 * p + f.l3 * (p * p);
    assert(n == f.l0 + h1 * p && h1 >= 0) by (nonlinear_arith)
        requires
            p >= 0,
            n == f.l0 + f.l1 * p + f.l2 * (p * p) + f.l3 * (p * (p * p)),
            h1 == f.l1 + f.l2 * p + f.l3 * (p * p),
    ;
    assert(n == f.l0 + f.l1 * p + f.l2 * (p * p) + f.l3 * (p * (p * p)));
    lemma_fundamental_div_mod_converse(n, p, h1, f.l0 as int);
    let h2: int = f.l2 + f.l3 * p;
    assert(h1 == f.l1 + h2 * p && h2 >= 0) by (nonlinear_arith)
        requires
            p >= 0,
            h1 == f.l1 + f.l2 * p + f.l3 * (p * p),
            h2 == f.l2 + f.l3 * p,
    ;
    lemma_fundamental_div_mod_converse(h1, p, h2, f.l1 as int);
    lemma_fundamental_div_mod_converse(h2, p, f.l3 as int, f.l2 as int);
    lemma_div_denominator(n, p, p);
    assert(n / p / p == h2);
    assert(limb2(f.as_nat()) == f.l2);
    lemma_div_denominator(n, p * p, p);
    assert(n / (p * p) / p == f.l3);
    assert((p * p) * p == 0x1000000000000000000000000000000000000000000000000int);
    lemma_small_mod(f.l3 as nat, 0x10000000000000000nat);
}

/// Appends the 32 big-endian bytes of a canonical field element.
pub(crate) fn push_fr_be(msg: &mut Vec<u8>, f: &Fr)
    ensures
        final(msg)@ == old(msg)@ + be32(f.as_nat()),
{
    proof {
        lemma_fr_limbs(*f);
    }
    push_be8(msg, f.l3);
    push_be8(msg, f.l2);
    push_be8(msg, f.l1);
    push_be8(msg, f.l0);
    proof {
        assert(msg@ =~= old(msg)@ + be32(f.as_nat()));
    }
}

/// Canonicalizes one combination and appends its fingerprint bytes: the
/// canonical term count, then each canonical term.
fn append_lc_bytes(msg: &mut Vec<u8>, lc: &LinearCombination)
    requires
        lc.wf(),
    ensures
        final(msg)@ == old(msg)@ + lc_bytes(lc@),
{
    let cl = proc_lc(lc);
    push_be8(msg, cl.len() as u64);
    let ghost cv = canon(lc@);
    let ghost base = msg@;
    proof {
        assert(terms_view(cl@).len() == cl@.len());
        assert(msg@ =~= base + terms_bytes(cv.subrange(0, 0)));
    }
    let n = cl.len();
    let mut j: usize = 0;
    while j < n
        invariant
            j <= n,
            n == cl@.len(),
            cv == terms_view(cl@),
            msg@ == base + terms_bytes(cv.subrange(0, j as int)),
        decreases n - j,
    {
        let (var, coeff) = cl[j];
        proof {
            assert(cv[j as int] == (var, coeff.as_nat()));
        }
        let tag: u8 = match var.get_unchecked() {
            Index::Input(_) => 73,
            Index::Aux(_) => 65,
        };
        msg.push(tag);
        let idx: usize = match var.get_unchecked() {
            Index::Input(i) => i,
            Index::Aux(i) => i,
        };
        push_be8(msg, idx as u64);
        push_fr_be(msg, &coeff);
        proof {
            let sub1 = cv.subrange(0, j + 1);
            assert(sub1.drop_last() =~= cv.subrange(0, j as int));
            assert(sub1.last() == cv[j as int]);
            assert(term_bytes(cv[j as int]) =~= seq![tag] + be8(idx as nat) + be32(
                coeff.as_nat(),
            ));
            assert(msg@ =~= base + terms_bytes(sub1));
        }
        j += 1;
    }
    proof {
        assert(cv.subrange(0, n as int) =~= cv);
        assert(old(msg)@ + lc_bytes(lc@) =~= msg@);
    }
}

/// Appends the lowercase hexadecimal rendering of the bytes.
pub(crate) fn append_hex(out: &mut String, bytes: &Vec<u8>)
    ensures
        final(out)@ == old(out)@ + hex_of(bytes@),
{
    let ghost base = out@;
    let ghost dv = bytes@;
    proof {
        assert(out@ =~= base + hex_of(dv).subrange(0, 0));
    }
    let dn = bytes.len();
    let mut k: usize = 0;
    while k < dn
        invariant
            k <= dn,
            dn == dv.len(),
            dv == bytes@,
            out@ == base + hex_of(dv).subrange(0, 2 * k as int),
        decreases dn - k,
    {
        let b = bytes[k];
        let hi = b / 16;
        let lo = b % 16;
        out.append(hex_char_str(hi));
        out.append(hex_char_str(lo));
        proof {
            assert(hex_of(dv)[2 * k as int] == hex_digit(hi as nat));
            assert(hex_of(dv)[2 * k as int + 1] == hex_digit(lo as nat));
            assert(out@ =~= base + hex_of(dv).subrange(0, 2 * (k + 1) as int));
        }
        k += 1;
    }
    proof {
        assert(hex_of(dv).subrange(0, 2 * dn as int) =~= hex_of(dv));
    }
}

impl TestConstraintSystem {
    /// The deterministic content fingerprint: the BLAKE2s-256 digest of the
    /// structural bytes, as 64 lowercase hexadecimal characters.
    pub fn hash(&self) -> (r: String)
        requires
            self.wf(),
        ensures
            r@ == hex_of(blake2s_of(fingerprint_bytes(*self))),
    {
        let mut msg: Vec<u8> = Vec::new();
        push_be8(&mut msg, self.inputs.len() as u64);
        push_be8(&mut msg, self.aux.len() as u64);
        push_be8(&mut msg, self.constraints.len() as u64);
        let ghost header = msg@;
        proof {
            assert(msg@ =~= header + constraints_bytes(self.constraints@.subrange(0, 0)));
        }
        let n = self.constraints.len();
        let mut i: usize = 0;
        while i < n
            invariant
                i <= n,
                n == self.constraints@.len(),
                self.wf(),
                msg@ == header + constraints_bytes(self.constraints@.subrange(0, i as int)),
            decreases n - i,
        {
            let ct = &self.constraints[i];
            proof {
                assert(crate::system::constraint_ok(
                    self.constraints@[i as int],
                    self.inputs@.len() as nat,
                    self.aux@.len() as nat,
                ));
            }
            append_lc_bytes(&mut msg, &ct.a);
            append_lc_bytes(&mut msg, &ct.b);
            append_lc_bytes(&mut msg, &ct.c);
            proof {
                let sub1 = self.constraints@.subrange(0, i + 1);
                assert(sub1.drop_last() =~= self.constraints@.subrange(0, i as int));
                assert(sub1.last() == self.constraints@[i as int]);
                assert(msg@ =~= header + constraints_bytes(sub1));
            }
            i += 1;
        }
        proof {
            assert(self.constraints@.subrange(0, n as int) =~= self.constraints@);
            assert(msg@ =~= fingerprint_bytes(*self));
        }
        let digest = blake2s256(&msg);
        let mut out = String::new();
        append_hex(&mut out, &digest);
        out
    }
}

/// Fingerprint invariance: two systems of the same counts whose constraints
/// hold the same terms combination by combination — in any order and however
/// duplicates were split across terms of equal variables — feed identical
/// bytes to the digest, so their fingerprints are equal.
pub proof fn lemma_fingerprint_order_insensitive(s1: TestConstraintSystem, s2: TestConstraintSystem)
    requires
        s1.wf(),
        s2.wf(),
        s1.inputs@.len() == s2.inputs@.len(),
        s1.aux@.len() == s2.aux@.len(),
        s1.constraints@.len() == s2.constraints@.len(),
        forall|i: int|
            0 <= i < s1.constraints@.len() ==> {
                &&& (#[trigger] s1.constraints@[i]).a@.to_multiset()
                    == (#[trigger] s2.constraints@[i]).a@.to_multiset()
                &&& s1.constraints@[i].b@.to_multiset() == s2.constraints@[i].b@.to_multiset()
                &&& s1.constraints@[i].c@.to_multiset() == s2.constraints@[i].c@.to_multiset()
            },
    ensures
        fingerprint_bytes(s1) == fingerprint_bytes(s2),
{
    lemma_constraints_bytes_pointwise(s1, s2, s1.constraints@.len() as int);
    assert(s1.constraints@.subrange(0, s1.constraints@.len() as int) =~= s1.constraints@);
    assert(s2.constraints@.subrange(0, s2.constraints@.len() as int) =~= s2.constraints@);
}

/// The first `k` constraints of the two systems feed the same bytes.
proof fn lemma_constraints_bytes_pointwise(
    s1: TestConstraintSystem,
    s2: TestConstraintSystem,
    k: int,
)
    requires
        s1.wf(),
        s2.wf(),
        s1.constraints@.len() == s2.constraints@.len(),
        0 <= k <= s1.constraints@.len(),
        forall|i: int|
            0 <= i < s1.constraints@.len() ==> {
                &&& (#[trigger] s1.constraints@[i]).a@.to_multiset()
                    == (#[trigger] s2.constraints@[i]).a@.to_multiset()
                &&& s1.constraints@[i].b@.to_multiset() == s2.constraints@[i].b@.to_multiset()
                &&& s1.constraints@[i].c@.to_multiset() == s2.constraints@[i].c@.to_multiset()
            },
    ensures
        constraints_bytes(s1.constraints@.subrange(0, k)) == constraints_bytes(
            s2.constraints@.subrange(0, k),
        ),
    decreases k,
{
    if k > 0 {
        lemma_constraints_bytes_pointwise(s1, s2, k - 1);
        let p1 = s1.constraints@.subrange(0, k);
        let p2 = s2.constraints@.subrange(0, k);
        assert(p1.drop_last() =~= s1.constraints@.subrange(0, k - 1));
        assert(p2.drop_last() =~= s2.constraints@.subrange(0, k - 1));
        let c1 = s1.constraints@[k - 1];
        let c2 = s2.constraints@[k - 1];
        assert(p1.last() == c1 && p2.last() == c2);
        assert(crate::system::constraint_ok(
            c1,
            s1.inputs@.len() as nat,
            s1.aux@.len() as nat,
        ));
        assert(crate::system::constraint_ok(
            c2,
            s2.inputs@.len() as nat,
            s2.aux@.len() as nat,
        ));
        crate::canon::lemma_terms_view_reduced(c1.a.terms@);
        crate::canon::lemma_terms_view_reduced(c1.b.terms@);
        crate::canon::lemma_terms_view_reduced(c1.c.terms@);
        crate::canon::lemma_terms_view_reduced(c2.a.terms@);
        crate::canon::lemma_terms_view_reduced(c2.b.terms@);
        crate::canon::lemma_terms_view_reduced(c2.c.terms@);
        crate::canon::lemma_canon_permutation(c1.a@, c2.a@);
        crate::canon::lemma_canon_permutation(c1.b@, c2.b@);
        crate::canon::lemma_canon_permutation(c1.c@, c2.c@);
    }
}

} // verus!
