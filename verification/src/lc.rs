//! Variables and linear combinations. A variable is a typed reference to one
//! assignment slot, tagged as public input or private auxiliary and
//! identified by its position in the respective table. A linear combination
//! is an ordered sequence of (variable, coefficient) terms; duplicate
//! variables are legal before canonicalization and sum semantically.

use vstd::prelude::*;

verus! {

use crate::field::Fr;

/// Position of an assignment slot: public input or private auxiliary.
#[derive(Clone, Copy, Debug, PartialEq, Eq, Structural)]
pub enum Index {
    Input(usize),
    Aux(usize),
}

/// A reference to one assignment slot. Immutable once created; only the
/// backing assignment value may change.
#[derive(Clone, Copy, Debug, PartialEq, Eq, Structural)]
pub struct Variable(pub Index);

impl Variable {
    pub fn new_unchecked(idx: Index) -> (r: Variable)
        ensures
            r == (Variable(idx)),
    {
        Variable(idx)
    }

    pub fn get_unchecked(&self) -> (r: Index)
        ensures
            r == self.0,
    {
        self.0
    }
}

/// Total order on variables: inputs before auxiliaries, then by ascending
/// index. Input keys lie below 2^64 and auxiliary keys at or above it, so
/// the key determines the variable.
pub open spec fn var_key(v: Variable) -> nat {
    match v.0 {
        Index::Input(i) => i as nat,
        Index::Aux(i) => i as nat + 0x10000000000000000nat,
    }
}

pub proof fn lemma_var_key_injective(a: Variable, b: Variable)
    requires
        var_key(a) == var_key(b),
    ensures
        a == b,
{
}

pub(crate) fn var_key_exec(v: &Variable) -> (r: u128)
    ensures
        r == var_key(*v),
{
    match v.0 {
        Index::Input(i) => i as u128,
        Index::Aux(i) => i as u128 + 0x10000000000000000u128,
    }
}

/// The mathematical shape of one term: the variable and the coefficient's
/// value.
pub open spec fn term_view(t: (Variable, Fr)) -> (Variable, nat) {
    (t.0, t.1.as_nat())
}

/// The mathematical shape of a term sequence.
pub open spec fn terms_view(s: Seq<(Variable, Fr)>) -> Seq<(Variable, nat)> {
    s.map_values(|t: (Variable, Fr)| term_view(t))
}

/// Every coefficient is a canonical field element.
pub open spec fn terms_wf(s: Seq<(Variable, Fr)>) -> bool {
    forall|i: int| 0 <= i < s.len() ==> (#[trigger] s[i]).1.wf()
}

pub proof fn lemma_terms_view_push(s: Seq<(Variable, Fr)>, t: (Variable, Fr))
    ensures
        terms_view(s.push(t)) == terms_view(s).push(term_view(t)),
{
    assert(terms_view(s.push(t)) =~= terms_view(s).push(term_view(t)));
}

pub proof fn lemma_terms_view_update(s: Seq<(Variable, Fr)>, i: int, t: (Variable, Fr))
    requires
        0 <= i < s.len(),
    ensures
        terms_view(s.update(i, t)) == terms_view(s).update(i, term_view(t)),
{
    assert(terms_view(s.update(i, t)) =~= terms_view(s).update(i, term_view(t)));
}

pub proof fn lemma_terms_view_insert(s: Seq<(Variable, Fr)>, i: int, t: (Variable, Fr))
    requires
        0 <= i <= s.len(),
    ensures
        terms_view(s.insert(i, t)) == terms_view(s).insert(i, term_view(t)),
{
    assert(terms_view(s.insert(i, t)) =~= terms_view(s).insert(i, term_view(t)));
}

pub proof fn lemma_terms_view_subrange(s: Seq<(Variable, Fr)>, a: int, b: int)
    requires
        0 <= a <= b <= s.len(),
    ensures
        terms_view(s.subrange(a, b)) == terms_view(s).subrange(a, b),
{
    assert(terms_view(s.subrange(a, b)) =~= terms_view(s).subrange(a, b));
}

/// An ordered sequence of weighted variables, built incrementally and
/// consumed by value when a constraint is recorded.
#[derive(Debug)]
pub struct LinearCombination {
    pub terms: Vec<(Variable, Fr)>,
}

impl View for LinearCombination {
    type V = Seq<(Variable, nat)>;

    open spec fn view(&self) -> Seq<(Variable, nat)> {
        terms_view(self.terms@)
    }
}

impl LinearCombination {
    /// Every coefficient held is canonical.
    pub open spec fn wf(&self) -> bool {
        terms_wf(self.terms@)
    }

    /// The empty combination, the accumulator every builder starts from.
    pub fn zero() -> (r: LinearCombination)
        ensures
            r@ =~= Seq::<(Variable, nat)>::empty(),
            r.wf(),
    {
        LinearCombination { terms: Vec::new() }
    }

    /// Appends one term.
    pub fn add_term(self, coeff: Fr, var: Variable) -> (r: LinearCombination)
        requires
            coeff.wf(),
        ensures
            r@ == self@.push((var, coeff.as_nat())),
            self.wf() ==> r.wf(),
    {
        let mut terms = self.terms;
        proof {
            lemma_terms_view_push(terms@, (var, coeff));
        }
        terms.push((var, coeff));
        LinearCombination { terms }
    }

    /// Appends a variable with coefficient one.
    pub fn add_var(self, var: Variable) -> (r: LinearCombination)
        ensures
            r@ == self@.push((var, 1nat)),
            self.wf() ==> r.wf(),
    {
        self.add_term(Fr::one(), var)
    }

    /// The number of terms.
    pub fn len(&self) -> (r: usize)
        ensures
            r == self@.len(),
    {
        self.terms.len()
    }
}

} // verus!
