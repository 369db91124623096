//! Evaluation of linear combinations under an assignment. A raw combination
//! is evaluated term by term in its original order; because field addition
//! is associative and commutative, the result agrees with evaluating the
//! canonical form, even though no canonicalization happens here.

use vstd::prelude::*;

verus! {

use vstd::arithmetic::div_mod::{
    lemma_add_mod_noop,
    lemma_mul_mod_noop_left,
    lemma_small_mod,
};
use vstd::arithmetic::mul::lemma_mul_is_distributive_add_other_way;

use crate::canon::{
    canon,
    coeffs_reduced,
    drop_zeroes,
    fold_terms,
    insert_term,
    lemma_mod_add_left,
};
use crate::field::{fr_add, fr_modulus, fr_mul, Fr};
use crate::lc::{var_key, Index, LinearCombination, Variable};

/// The value the assignment tables give to a variable; variables are only
/// ever produced by this system's allocation, so their indices are in range
/// wherever evaluation is asked for.
pub open spec fn var_value(v: Variable, inputs: Seq<nat>, aux: Seq<nat>) -> int {
    match v.0 {
        Index::Input(i) => if i < inputs.len() {
            inputs[i as int] as int
        } else {
            0
        },
        Index::Aux(i) => if i < aux.len() {
            aux[i as int] as int
        } else {
            0
        },
    }
}

/// Every variable of the sequence refers to an existing slot.
pub open spec fn vars_in_range(s: Seq<(Variable, nat)>, n_inputs: nat, n_aux: nat) -> bool {
    forall|i: int|
        0 <= i < s.len() ==> match (#[trigger] s[i]).0.0 {
            Index::Input(k) => (k as nat) < n_inputs,
            Index::Aux(k) => (k as nat) < n_aux,
        }
}

/// One term's contribution: coefficient times assigned value, unreduced.
pub open spec fn term_value(t: (Variable, nat), inputs: Seq<nat>, aux: Seq<nat>) -> int {
    t.1 * var_value(t.0, inputs, aux)
}

/// The unreduced weighted sum of a term sequence under an assignment; the
/// field value of the combination is this sum modulo the field order.
pub open spec fn esum(s: Seq<(Variable, nat)>, inputs: Seq<nat>, aux: Seq<nat>) -> int
    decreases s.len(),
{
    if s.len() == 0 {
        0
    } else {
        esum(s.drop_last(), inputs, aux) + term_value(s.last(), inputs, aux)
    }
}

proof fn lemma_esum_cons(
    x: (Variable, nat),
    s: Seq<(Variable, nat)>,
    inputs: Seq<nat>,
    aux: Seq<nat>,
)
    ensures
        esum(seq![x] + s, inputs, aux) == term_value(x, inputs, aux) + esum(s, inputs, aux),
    decreases s.len(),
{
    let c = seq![x] + s;
    if s.len() == 0 {
        assert(c.len() == 1);
        assert(c.last() == x);
        assert(c.drop_last() =~= Seq::<(Variable, nat)>::empty());
        assert(esum(c.drop_last(), inputs, aux) == 0);
        assert(esum(c, inputs, aux) == esum(c.drop_last(), inputs, aux) + term_value(
            c.last(),
            inputs,
            aux,
        ));
    } else {
        assert(c.drop_last() =~= seq![x] + s.drop_last());
        assert(c.last() == s.last());
        lemma_esum_cons(x, s.drop_last(), inputs, aux);
        assert(esum(c, inputs, aux) == esum(c.drop_last(), inputs, aux) + term_value(
            c.last(),
            inputs,
            aux,
        ));
        assert(esum(s, inputs, aux) == esum(s.drop_last(), inputs, aux) + term_value(
            s.last(),
            inputs,
            aux,
        ));
    }
}

/// Inserting a term into a sorted accumulator preserves the evaluation
/// modulo the field order.
proof fn lemma_insert_esum(
    acc: Seq<(Variable, nat)>,
    t: (Variable, nat),
    inputs: Seq<nat>,
    aux: Seq<nat>,
)
    ensures
        esum(insert_term(acc, t), inputs, aux) % (fr_modulus() as int) == (esum(acc, inputs, aux)
            + term_value(t, inputs, aux)) % (fr_modulus() as int),
    decreases acc.len(),
{
    let m = fr_modulus() as int;
    let res = insert_term(acc, t);
    if acc.len() == 0 {
        assert(res.last() == t);
        assert(res.drop_last() =~= Seq::<(Variable, nat)>::empty());
        assert(esum(res, inputs, aux) == esum(res.drop_last(), inputs, aux) + term_value(
            t,
            inputs,
            aux,
        ));
        assert(esum(acc, inputs, aux) == 0);
    } else if var_key(t.0) < var_key(acc[0].0) {
        assert(res == seq![t] + acc);
        lemma_esum_cons(t, acc, inputs, aux);
    } else if var_key(t.0) == var_key(acc[0].0) {
        crate::lc::lemma_var_key_injective(t.0, acc[0].0);
        let a = acc[0].1;
        let b = t.1;
        let val = var_value(t.0, inputs, aux);
        let merged = (acc[0].0, ((a + b) % fr_modulus()));
        assert(res == seq![merged] + acc.drop_first());
        lemma_esum_cons(merged, acc.drop_first(), inputs, aux);
        assert(acc =~= seq![acc[0]] + acc.drop_first());
        lemma_esum_cons(acc[0], acc.drop_first(), inputs, aux);
        let rest = esum(acc.drop_first(), inputs, aux);
        assert(term_value(merged, inputs, aux) == ((a + b) % fr_modulus()) * val);
        lemma_mul_mod_noop_left((a + b) as int, val, m);
        lemma_mod_add_left(((a + b) as int) * val, rest, m);
        lemma_mod_add_left((a + b) as int % m * val, rest, m);
        lemma_mul_is_distributive_add_other_way(val, a as int, b as int);
        assert((a + b) as int * val == a * val + b * val);
        assert(term_value(acc[0], inputs, aux) == a * val);
        assert(term_value(t, inputs, aux) == b * val);
    } else {
        let tail = acc.drop_first();
        lemma_insert_esum(tail, t, inputs, aux);
        let rest = insert_term(tail, t);
        assert(res == seq![acc[0]] + rest);
        lemma_esum_cons(acc[0], rest, inputs, aux);
        assert(acc =~= seq![acc[0]] + acc.drop_first());
        lemma_esum_cons(acc[0], tail, inputs, aux);
        let h = term_value(acc[0], inputs, aux);
        lemma_mod_add_left(esum(rest, inputs, aux), h, m);
        lemma_mod_add_left(esum(tail, inputs, aux) + term_value(t, inputs, aux), h, m);
    }
}

proof fn lemma_fold_esum(s: Seq<(Variable, nat)>, inputs: Seq<nat>, aux: Seq<nat>)
    ensures
        esum(fold_terms(s), inputs, aux) % (fr_modulus() as int) == esum(s, inputs, aux) % (
        fr_modulus() as int),
    decreases s.len(),
{
    let m = fr_modulus() as int;
    if s.len() > 0 {
        let pre = s.drop_last();
        let t = s.last();
        lemma_fold_esum(pre, inputs, aux);
        lemma_insert_esum(fold_terms(pre), t, inputs, aux);
        lemma_mod_add_left(esum(fold_terms(pre), inputs, aux), term_value(t, inputs, aux), m);
        lemma_mod_add_left(esum(pre, inputs, aux), term_value(t, inputs, aux), m);
    }
}

proof fn lemma_drop_zeroes_esum(s: Seq<(Variable, nat)>, inputs: Seq<nat>, aux: Seq<nat>)
    ensures
        esum(drop_zeroes(s), inputs, aux) == esum(s, inputs, aux),
    decreases s.len(),
{
    if s.len() > 0 {
        let pre = s.drop_last();
        lemma_drop_zeroes_esum(pre, inputs, aux);
        if s.last().1 != 0 {
            let dz = drop_zeroes(pre).push(s.last());
            assert(drop_zeroes(s) == dz);
            assert(dz.drop_last() =~= drop_zeroes(pre));
            assert(dz.last() == s.last());
            assert(esum(dz, inputs, aux) == esum(dz.drop_last(), inputs, aux) + term_value(
                s.last(),
                inputs,
                aux,
            ));
        } else {
            assert(s.last().1 == 0);
            assert(term_value(s.last(), inputs, aux) == s.last().1 * var_value(
                s.last().0,
                inputs,
                aux,
            ));
            assert(0int * var_value(s.last().0, inputs, aux) == 0);
        }
    }
}

/// Evaluating a raw combination agrees with evaluating its canonical form,
/// under the same assignment, for any combination.
pub proof fn lemma_eval_canon(s: Seq<(Variable, nat)>, inputs: Seq<nat>, aux: Seq<nat>)
    requires
        coeffs_reduced(s),
    ensures
        esum(canon(s), inputs, aux) % (fr_modulus() as int) == esum(s, inputs, aux) % (
        fr_modulus() as int),
{
    lemma_fold_esum(s, inputs, aux);
    lemma_drop_zeroes_esum(fold_terms(s), inputs, aux);
}

/// Canonicalization introduces no variable that was not in the raw
/// combination, so canonical variables refer to existing slots wherever the
/// raw ones do.
pub proof fn lemma_canon_vars_in_range(s: Seq<(Variable, nat)>, n_inputs: nat, n_aux: nat)
    requires
        crate::canon::coeffs_reduced(s),
        vars_in_range(s, n_inputs, n_aux),
    ensures
        vars_in_range(canon(s), n_inputs, n_aux),
{
    crate::canon::lemma_canon_props(s);
    assert forall|i: int| 0 <= i < canon(s).len() implies match (#[trigger] canon(s)[i]).0.0 {
        Index::Input(k) => (k as nat) < n_inputs,
        Index::Aux(k) => (k as nat) < n_aux,
    } by {
        let kk = var_key(canon(s)[i].0);
        assert(crate::canon::has_key(s, kk));
        let w = choose|w: int| 0 <= w < s.len() && var_key((#[trigger] s[w]).0) == kk;
        crate::lc::lemma_var_key_injective(s[w].0, canon(s)[i].0);
        assert(match s[w].0.0 {
            Index::Input(k) => (k as nat) < n_inputs,
            Index::Aux(k) => (k as nat) < n_aux,
        });
    }
}

/// Evaluation reads only the slots a combination refers to, so extending the
/// assignment tables with new slots changes nothing.
pub proof fn lemma_esum_extend(
    s: Seq<(Variable, nat)>,
    ins1: Seq<nat>,
    axs1: Seq<nat>,
    ins2: Seq<nat>,
    axs2: Seq<nat>,
)
    requires
        vars_in_range(s, ins1.len(), axs1.len()),
        ins1.len() <= ins2.len(),
        axs1.len() <= axs2.len(),
        forall|i: int| 0 <= i < ins1.len() ==> ins2[i] == ins1[i],
        forall|i: int| 0 <= i < axs1.len() ==> axs2[i] == axs1[i],
    ensures
        esum(s, ins1, axs1) == esum(s, ins2, axs2),
    decreases s.len(),
{
    if s.len() > 0 {
        assert forall|i: int| 0 <= i < s.drop_last().len() implies match (#[trigger] s.drop_last()[i]).0.0 {
            Index::Input(k) => (k as nat) < ins1.len(),
            Index::Aux(k) => (k as nat) < axs1.len(),
        } by {
            assert(s.drop_last()[i] == s[i]);
        }
        lemma_esum_extend(s.drop_last(), ins1, axs1, ins2, axs2);
        assert(var_value(s.last().0, ins1, axs1) == var_value(s.last().0, ins2, axs2));
    }
}

/// The values a table of (value, path) entries assigns, slot by slot.
pub open spec fn table_vals(s: Seq<(Fr, String)>) -> Seq<nat> {
    s.map_values(|e: (Fr, String)| e.0.as_nat())
}

/// Every value held by a table is a canonical field element.
pub open spec fn table_wf(s: Seq<(Fr, String)>) -> bool {
    forall|i: int| 0 <= i < s.len() ==> (#[trigger] s[i]).0.wf()
}

/// Computes the field value of a raw combination under the given assignment
/// tables: the sum, in original term order, of coefficient times assigned
/// value.
pub fn eval_lc(
    lc: &LinearCombination,
    inputs: &Vec<(Fr, String)>,
    aux: &Vec<(Fr, String)>,
) -> (r: Fr)
    requires
        lc.wf(),
        table_wf(inputs@),
        table_wf(aux@),
        vars_in_range(lc@, inputs@.len() as nat, aux@.len() as nat),
    ensures
        r.wf(),
        r.as_nat() == esum(lc@, table_vals(inputs@), table_vals(aux@)) % (fr_modulus() as int),
{
    let ghost ins = table_vals(inputs@);
    let ghost axs = table_vals(aux@);
    let mut acc = Fr::zero();
    proof {
        assert(lc@.subrange(0, 0) =~= Seq::<(Variable, nat)>::empty());
        lemma_small_mod(0nat, fr_modulus());
    }
    let n = lc.terms.len();
    let mut i: usize = 0;
    while i < n
        invariant
            i <= n,
            n == lc.terms@.len(),
            lc.wf(),
            table_wf(inputs@),
            table_wf(aux@),
            vars_in_range(lc@, inputs@.len() as nat, aux@.len() as nat),
            ins == table_vals(inputs@),
            axs == table_vals(aux@),
            acc.wf(),
            acc.as_nat() == esum(lc@.subrange(0, i as int), ins, axs) % (fr_modulus() as int),
        decreases n - i,
    {
        let (var, coeff) = lc.terms[i];
        proof {
            assert(lc@[i as int] == (var, coeff.as_nat()));
        }
        let val = match var.get_unchecked() {
            Index::Input(k) => inputs[k].0,
            Index::Aux(k) => aux[k].0,
        };
        proof {
            assert(val.as_nat() == var_value(var, ins, axs));
        }
        let tmp = fr_mul(&coeff, &val);
        let prev = acc;
        acc = fr_add(&prev, &tmp);
        proof {
            let m = fr_modulus() as int;
            let sub = lc@.subrange(0, i as int);
            let sub1 = lc@.subrange(0, i + 1);
            assert(sub1.drop_last() =~= sub);
            assert(sub1.last() == lc@[i as int]);
            let e = esum(sub, ins, axs);
            let tv = term_value(lc@[i as int], ins, axs);
            assert(esum(sub1, ins, axs) == e + tv);
            assert(tmp.as_nat() == tv % m);
            lemma_add_mod_noop(e, tv, m);
            assert(acc.as_nat() == ((e % m) + (tv % m)) % m);
        }
        i += 1;
    }
    proof {
        assert(lc@.subrange(0, n as int) =~= lc@);
    }
    acc
}

} // verus!
