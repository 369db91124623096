//! Human-oriented rendering of the recorded constraints. Every constraint is
//! printed as `path: (A) * (B) = (C)` using the canonical form of each
//! combination. A coefficient equal to one is omitted; one equal to negative
//! one renders as a leading ` - `; any other coefficient that is an exact
//! power of two is annotated `2^k . ` before its generic hexadecimal text;
//! variables render as their registered path in backticks; an all-cancelled
//! combination renders as the literal `0`.

use vstd::prelude::*;

verus! {

use vstd::string::StringExecFns;

use crate::canon::canon;
use crate::digest::{append_hex, be32, hex_digit, hex_of, push_fr_be};
use crate::eval::vars_in_range;
use crate::field::{fr_add, fr_modulus, Fr};
use crate::lc::{terms_view, Index, LinearCombination, Variable};
use crate::system::{Constraint, TestConstraintSystem};

/// The powers of two in the field: doubling from one, reduced at each step.
pub open spec fn pow2m(i: nat) -> nat
    decreases i,
{
    if i == 0 {
        1
    } else {
        (2 * pow2m((i - 1) as nat)) % fr_modulus()
    }
}

/// The exponent of the first power of two, below the field's bit width, that
/// equals the coefficient, searched upward from `i`.
pub open spec fn pow_search(c: nat, i: nat) -> Option<nat>
    decreases 255 - i,
{
    if i >= 255 {
        None
    } else if pow2m(i) == c {
        Some(i)
    } else {
        pow_search(c, (i + 1) as nat)
    }
}

/// The decimal rendering of a number.
pub open spec fn dec_of(n: nat) -> Seq<char>
    decreases n,
{
    if n < 10 {
        seq![hex_digit(n)]
    } else {
        dec_of(n / 10).push(hex_digit(n % 10))
    }
}

/// The generic text of a coefficient that is neither one nor negative one:
/// an optional power-of-two annotation, then its hexadecimal value, each
/// followed by ` . `.
pub open spec fn render_coeff_text(c: nat) -> Seq<char> {
    let annot = match pow_search(c, 0) {
        Some(i) => seq!['2', '^'] + dec_of(i) + seq![' ', '.', ' '],
        None => Seq::<char>::empty(),
    };
    annot + seq!['0', 'x'] + hex_of(be32(c)) + seq![' ', '.', ' ']
}

/// The registered path of a variable.
pub open spec fn var_path(
    v: Variable,
    inputs: Seq<(Fr, String)>,
    aux: Seq<(Fr, String)>,
) -> Seq<char> {
    match v.0 {
        Index::Input(i) => inputs[i as int].1@,
        Index::Aux(i) => aux[i as int].1@,
    }
}

/// One canonical term: separator, coefficient text where the coefficient is
/// neither one nor negative one, and the variable's path in backticks.
pub open spec fn render_term(
    t: (Variable, nat),
    first: bool,
    inputs: Seq<(Fr, String)>,
    aux: Seq<(Fr, String)>,
) -> Seq<char> {
    let sep = if t.1 == fr_modulus() - 1 {
        seq![' ', '-', ' ']
    } else if !first {
        seq![' ', '+', ' ']
    } else {
        Seq::<char>::empty()
    };
    let ctext = if t.1 != 1 && t.1 != fr_modulus() - 1 {
        render_coeff_text(t.1)
    } else {
        Seq::<char>::empty()
    };
    sep + ctext + seq!['`'] + var_path(t.0, inputs, aux) + seq!['`']
}

pub open spec fn render_terms(
    s: Seq<(Variable, nat)>,
    first: bool,
    inputs: Seq<(Fr, String)>,
    aux: Seq<(Fr, String)>,
) -> Seq<char>
    decreases s.len(),
{
    if s.len() == 0 {
        Seq::empty()
    } else {
        render_term(s[0], first, inputs, aux) + render_terms(s.drop_first(), false, inputs, aux)
    }
}

/// One combination in parentheses, canonicalized; all-cancelled renders as
/// `0`.
pub open spec fn render_lc(
    raw: Seq<(Variable, nat)>,
    inputs: Seq<(Fr, String)>,
    aux: Seq<(Fr, String)>,
) -> Seq<char> {
    let c = canon(raw);
    seq!['('] + (if c.len() == 0 {
        seq!['0']
    } else {
        render_terms(c, true, inputs, aux)
    }) + seq![')']
}

/// One constraint on its own line: `path: (A) * (B) = (C)`.
pub open spec fn render_constraint(
    ct: Constraint,
    inputs: Seq<(Fr, String)>,
    aux: Seq<(Fr, String)>,
) -> Seq<char> {
    seq!['\n'] + ct.path@ + seq![':', ' '] + render_lc(ct.a@, inputs, aux) + seq![' ', '*', ' ']
        + render_lc(ct.b@, inputs, aux) + seq![' ', '=', ' '] + render_lc(ct.c@, inputs, aux)
}

pub open spec fn render_constraints(
    cs: Seq<Constraint>,
    inputs: Seq<(Fr, String)>,
    aux: Seq<(Fr, String)>,
) -> Seq<char>
    decreases cs.len(),
{
    if cs.len() == 0 {
        Seq::empty()
    } else {
        render_constraints(cs.drop_last(), inputs, aux) + render_constraint(
            cs.last(),
            inputs,
            aux,
        )
    }
}

/// The whole rendering: every constraint in insertion order, and a final
/// newline.
pub open spec fn render_system(sys: TestConstraintSystem) -> Seq<char> {
    render_constraints(sys.constraints@, sys.inputs@, sys.aux@) + seq!['\n']
}

/// The decimal text of a number.
pub(crate) fn dec_str(n: u64) -> (r: String)
    ensures
        r@ == dec_of(n as nat),
    decreases n,
{
    if n < 10 {
        crate::digest::hex_char_str(n as u8).to_owned()
    } else {
        let mut s = dec_str(n / 10);
        s.append(crate::digest::hex_char_str((n % 10) as u8));
        proof {
            assert(s@ =~= dec_of(n as nat));
        }
        s
    }
}

/// Scans the power table for the coefficient and reports the exponent of the
/// first match.
fn find_pow(powers: &Vec<Fr>, coeff: &Fr) -> (r: Option<usize>)
    requires
        coeff.wf(),
        powers@.len() == 255,
        forall|j: int|
            0 <= j < 255 ==> (#[trigger] powers@[j]).wf() && powers@[j].as_nat() == pow2m(
                j as nat,
            ),
    ensures
        match r {
            Some(k) => pow_search(coeff.as_nat(), 0) == Some(k as nat) && k < 255,
            None => pow_search(coeff.as_nat(), 0) is None,
        },
{
    let v = *coeff;
    let mut k: usize = 0;
    while k < 255
        invariant
            k <= 255,
            v == *coeff,
            coeff.wf(),
            powers@.len() == 255,
            forall|j: int|
                0 <= j < 255 ==> (#[trigger] powers@[j]).wf() && powers@[j].as_nat() == pow2m(
                    j as nat,
                ),
            pow_search(coeff.as_nat(), 0) == pow_search(coeff.as_nat(), k as nat),
        decreases 255 - k,
    {
        let same = powers[k] == v;
        if same {
            return Some(k);
        }
        proof {
            if pow2m(k as nat) == coeff.as_nat() {
                crate::field::lemma_fr_nat_injective(powers@[k as int], v);
            }
        }
        k += 1;
    }
    None
}

/// Appends one canonical term's rendering: separator, coefficient text, and
/// the variable's path in backticks.
#[verifier::rlimit(50)]
fn append_term_text(
    out: &mut String,
    var: Variable,
    coeff: Fr,
    first: bool,
    powers: &Vec<Fr>,
    inputs: &Vec<(Fr, String)>,
    aux: &Vec<(Fr, String)>,
)
    requires
        coeff.wf(),
        match var.0 {
            Index::Input(k) => (k as nat) < inputs@.len(),
            Index::Aux(k) => (k as nat) < aux@.len(),
        },
        powers@.len() == 255,
        forall|j: int|
            0 <= j < 255 ==> (#[trigger] powers@[j]).wf() && powers@[j].as_nat() == pow2m(
                j as nat,
            ),
    ensures
        final(out)@ == old(out)@ + render_term(
            (var, coeff.as_nat()),
            first,
            inputs@,
            aux@,
        ),
{
    proof {
        reveal_strlit(" - ");
        reveal_strlit(" + ");
        reveal_strlit("2^");
        reveal_strlit(" . ");
        reveal_strlit("0x");
        reveal_strlit("`");
    }
    let neg = Fr::neg_one();
    let one = Fr::one();
    let is_neg = coeff == neg;
    let is_one = coeff == one;
    proof {
        if coeff.as_nat() == fr_modulus() - 1 {
            crate::field::lemma_fr_nat_injective(coeff, neg);
        }
        if coeff.as_nat() == 1 {
            crate::field::lemma_fr_nat_injective(coeff, one);
        }
    }
    if is_neg {
        out.append(" - ");
    } else if !first {
        out.append(" + ");
    }
    let ghost sep_done = out@;
    proof {
        assert(sep_done =~= old(out)@ + (if coeff.as_nat() == fr_modulus() - 1 {
            seq![' ', '-', ' ']
        } else if !first {
            seq![' ', '+', ' ']
        } else {
            Seq::<char>::empty()
        }));
    }
    if !is_one && !is_neg {
        match find_pow(powers, &coeff) {
            Some(k) => {
                out.append("2^");
                let d = dec_str(k as u64);
                out.append(d.as_str());
                out.append(" . ");
            },
            None => {},
        }
        out.append("0x");
        let mut bytes: Vec<u8> = Vec::new();
        push_fr_be(&mut bytes, &coeff);
        proof {
            assert(bytes@ =~= be32(coeff.as_nat()));
        }
        append_hex(out, &bytes);
        out.append(" . ");
        proof {
            assert(out@ =~= sep_done + render_coeff_text(coeff.as_nat()));
        }
    }
    let ghost coeff_done = out@;
    out.append("`");
    match var.get_unchecked() {
        Index::Input(k) => {
            out.append(inputs[k].1.as_str());
        },
        Index::Aux(k) => {
            out.append(aux[k].1.as_str());
        },
    }
    out.append("`");
    proof {
        assert(out@ =~= coeff_done + seq!['`'] + var_path(var, inputs@, aux@) + seq!['`']);
        assert(out@ =~= old(out)@ + render_term((var, coeff.as_nat()), first, inputs@, aux@));
    }
}

/// Appends one combination's rendering: parenthesized canonical terms, or
/// `0` when everything cancelled.
#[verifier::rlimit(50)]
fn append_lc_text(
    out: &mut String,
    lc: &LinearCombination,
    powers: &Vec<Fr>,
    inputs: &Vec<(Fr, String)>,
    aux: &Vec<(Fr, String)>,
)
    requires
        lc.wf(),
        vars_in_range(lc@, inputs@.len() as nat, aux@.len() as nat),
        powers@.len() == 255,
        forall|j: int|
            0 <= j < 255 ==> (#[trigger] powers@[j]).wf() && powers@[j].as_nat() == pow2m(
                j as nat,
            ),
    ensures
        final(out)@ == old(out)@ + render_lc(lc@, inputs@, aux@),
{
    proof {
        reveal_strlit("(");
        reveal_strlit(")");
        reveal_strlit("0");
        reveal_strlit(" - ");
        reveal_strlit(" + ");
        reveal_strlit("2^");
        reveal_strlit(" . ");
        reveal_strlit("0x");
        reveal_strlit("`");
    }
    let cl = crate::canon::proc_lc(lc);
    let ghost cv = canon(lc@);
    proof {
        crate::canon::lemma_terms_view_reduced(lc.terms@);
        crate::eval::lemma_canon_vars_in_range(lc@, inputs@.len() as nat, aux@.len() as nat);
    }
    out.append("(");
    let n = cl.len();
    if n == 0 {
        out.append("0");
        out.append(")");
        proof {
            assert(cv.len() == 0);
            assert(out@ =~= old(out)@ + render_lc(lc@, inputs@, aux@));
        }
        return ;
    }
    let ghost base = out@;
    proof {
        assert(cv.subrange(0, cv.len() as int) =~= cv);
        assert(render_terms(cv.subrange(0, 0), true, inputs@, aux@) == Seq::<char>::empty());
    }
    let mut j: usize = 0;
    while j < n
        invariant
            j <= n,
            n == cl@.len(),
            n > 0,
            cv == terms_view(cl@),
            crate::lc::terms_wf(cl@),
            vars_in_range(cv, inputs@.len() as nat, aux@.len() as nat),
            powers@.len() == 255,
            forall|k: int|
                0 <= k < 255 ==> (#[trigger] powers@[k]).wf() && powers@[k].as_nat() == pow2m(
                    k as nat,
                ),
            base + render_terms(cv, true, inputs@, aux@) == out@ + render_terms(
                cv.subrange(j as int, n as int),
                j == 0,
                inputs@,
                aux@,
            ),
        decreases n - j,
    {
        let (var, coeff) = cl[j];
        let ghost t = cv[j as int];
        let ghost pre = out@;
        proof {
            assert(t == (var, coeff.as_nat()));
            assert(cl@[j as int].1.wf());
            assert(match t.0.0 {
                Index::Input(k) => (k as nat) < inputs@.len(),
                Index::Aux(k) => (k as nat) < aux@.len(),
            });
        }
        append_term_text(out, var, coeff, j == 0, powers, inputs, aux);
        proof {
            assert(out@ == pre + render_term(t, j == 0, inputs@, aux@));
            let rest = cv.subrange(j as int, n as int);
            let rest1 = cv.subrange(j + 1, n as int);
            assert(rest.drop_first() =~= rest1);
            assert(rest[0] == t);
            assert(render_terms(rest, j == 0, inputs@, aux@) == render_term(
                t,
                j == 0,
                inputs@,
                aux@,
            ) + render_terms(rest1, false, inputs@, aux@));
        }
        j += 1;
        proof {
            assert(j > 0);
        }
    }
    proof {
        assert(cv.subrange(n as int, n as int) =~= Seq::<(Variable, nat)>::empty());
        assert(out@ =~= base + render_terms(cv, true, inputs@, aux@));
    }
    out.append(")");
    proof {
        assert(out@ =~= old(out)@ + render_lc(lc@, inputs@, aux@));
    }
}

impl TestConstraintSystem {
    /// Renders every constraint as `path: (A) * (B) = (C)` using the
    /// canonical form of each combination.
    #[verifier::rlimit(100)]
    pub fn pretty_print(&self) -> (r: String)
        requires
            self.wf(),
        ensures
            r@ == render_system(*self),
    {
        proof {
            reveal_strlit("\n");
            reveal_strlit(": ");
            reveal_strlit(" * ");
            reveal_strlit(" = ");
        }
        let mut powers: Vec<Fr> = Vec::new();
        powers.push(Fr::one());
        let mut pi: usize = 1;
        while pi < 255
            invariant
                1 <= pi <= 255,
                powers@.len() == pi,
                forall|j: int|
                    0 <= j < pi ==> (#[trigger] powers@[j]).wf() && powers@[j].as_nat() == pow2m(
                        j as nat,
                    ),
            decreases 255 - pi,
        {
            let prev = powers[pi - 1];
            let dbl = fr_add(&prev, &prev);
            powers.push(dbl);
            proof {
                assert(dbl.as_nat() == (2 * pow2m((pi - 1) as nat)) % fr_modulus());
            }
            pi += 1;
        }
        let mut out = String::new();
        let n = self.constraints.len();
        let mut i: usize = 0;
        proof {
            assert(self.constraints@.subrange(0, 0) =~= Seq::<Constraint>::empty());
        }
        while i < n
            invariant
                i <= n,
                n == self.constraints@.len(),
                self.wf(),
                powers@.len() == 255,
                forall|j: int|
                    0 <= j < 255 ==> (#[trigger] powers@[j]).wf() && powers@[j].as_nat()
                        == pow2m(j as nat),
                out@ == render_constraints(
                    self.constraints@.subrange(0, i as int),
                    self.inputs@,
                    self.aux@,
                ),
            decreases n - i,
        {
            proof {
                reveal_strlit("\n");
                reveal_strlit(": ");
                reveal_strlit(" * ");
                reveal_strlit(" = ");
            }
            let ct = &self.constraints[i];
            let ghost pre = out@;
            proof {
                assert(crate::system::constraint_ok(
                    self.constraints@[i as int],
                    self.inputs@.len() as nat,
                    self.aux@.len() as nat,
                ));
            }
            out.append("\n");
            out.append(ct.path.as_str());
            out.append(": ");
            append_lc_text(&mut out, &ct.a, &powers, &self.inputs, &self.aux);
            out.append(" * ");
            append_lc_text(&mut out, &ct.b, &powers, &self.inputs, &self.aux);
            out.append(" = ");
            append_lc_text(&mut out, &ct.c, &powers, &self.inputs, &self.aux);
            proof {
                let sub1 = self.constraints@.subrange(0, i + 1);
                assert(sub1.drop_last() =~= self.constraints@.subrange(0, i as int));
                assert(sub1.last() == self.constraints@[i as int]);
                assert(out@ =~= pre + render_constraint(
                    self.constraints@[i as int],
                    self.inputs@,
                    self.aux@,
                ));
                assert(out@ =~= render_constraints(sub1, self.inputs@, self.aux@));
            }
            i += 1;
        }
        proof {
            assert(self.constraints@.subrange(0, n as int) =~= self.constraints@);
        }
        out.append("\n");
        proof {
            assert(out@ =~= render_system(*self));
        }
        out
    }
}

} // verus!
