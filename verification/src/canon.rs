//! Canonicalization of linear combinations. The canonical form of a raw
//! combination merges duplicate-variable terms by field addition, drops terms
//! whose merged coefficient is zero, and orders the survivors with inputs
//! before auxiliaries and ascending indices within each kind. The form is
//! independent of the raw term order and idempotent under re-canonicalization.

use vstd::prelude::*;

verus! {

use vstd::arithmetic::div_mod::{
    lemma_add_mod_noop,
    lemma_mod_bound,
    lemma_mod_twice,
    lemma_small_mod,
};
use vstd::seq_lib::group_to_multiset_ensures;

use crate::field::{fr_add, fr_modulus, Fr};
use crate::lc::{
    lemma_terms_view_push,
    lemma_terms_view_update,
    lemma_var_key_injective,
    terms_view,
    terms_wf,
    var_key,
    var_key_exec,
    LinearCombination,
    Variable,
};

/// Strictly ascending variable keys: each variable appears at most once and
/// inputs come before auxiliaries.
pub open spec fn sorted_strict(s: Seq<(Variable, nat)>) -> bool {
    forall|i: int, j: int|
        0 <= i < j < s.len() ==> var_key((#[trigger] s[i]).0) < var_key((#[trigger] s[j]).0)
}

/// Every coefficient lies below the field modulus.
pub open spec fn coeffs_reduced(s: Seq<(Variable, nat)>) -> bool {
    forall|i: int| 0 <= i < s.len() ==> (#[trigger] s[i]).1 < fr_modulus()
}

/// Every coefficient differs from the additive identity.
pub open spec fn coeffs_nonzero(s: Seq<(Variable, nat)>) -> bool {
    forall|i: int| 0 <= i < s.len() ==> (#[trigger] s[i]).1 != 0
}

/// Some term uses a variable with the given key.
pub open spec fn has_key(s: Seq<(Variable, nat)>, k: nat) -> bool {
    exists|i: int| 0 <= i < s.len() && var_key((#[trigger] s[i]).0) == k
}

/// What one term contributes to the coefficient of a variable.
pub open spec fn term_csum(t: (Variable, nat), v: Variable) -> int {
    if t.0 == v {
        t.1 as int
    } else {
        0
    }
}

/// The (unreduced) sum of the coefficients attached to a variable.
pub open spec fn csum(s: Seq<(Variable, nat)>, v: Variable) -> int
    decreases s.len(),
{
    if s.len() == 0 {
        0
    } else {
        csum(s.drop_last(), v) + term_csum(s.last(), v)
    }
}

/// Inserts one term into a key-sorted accumulator: merge by field addition
/// when the variable is already present, otherwise place the term at its
/// ordered position.
pub open spec fn insert_term(acc: Seq<(Variable, nat)>, t: (Variable, nat)) -> Seq<
    (Variable, nat),
>
    decreases acc.len(),
{
    if acc.len() == 0 {
        seq![t]
    } else if var_key(t.0) < var_key(acc[0].0) {
        seq![t] + acc
    } else if var_key(t.0) == var_key(acc[0].0) {
        seq![(acc[0].0, ((acc[0].1 + t.1) % fr_modulus()))] + acc.drop_first()
    } else {
        seq![acc[0]] + insert_term(acc.drop_first(), t)
    }
}

/// Folds every term of a raw combination into the sorted accumulator.
pub open spec fn fold_terms(s: Seq<(Variable, nat)>) -> Seq<(Variable, nat)>
    decreases s.len(),
{
    if s.len() == 0 {
        Seq::empty()
    } else {
        insert_term(fold_terms(s.drop_last()), s.last())
    }
}

/// Removes the terms whose merged coefficient is the additive identity.
pub open spec fn drop_zeroes(s: Seq<(Variable, nat)>) -> Seq<(Variable, nat)>
    decreases s.len(),
{
    if s.len() == 0 {
        Seq::empty()
    } else if s.last().1 != 0 {
        drop_zeroes(s.drop_last()).push(s.last())
    } else {
        drop_zeroes(s.drop_last())
    }
}

/// The canonical form of a raw combination.
pub open spec fn canon(s: Seq<(Variable, nat)>) -> Seq<(Variable, nat)> {
    drop_zeroes(fold_terms(s))
}

/// The view of a well-formed term sequence has reduced coefficients.
pub proof fn lemma_terms_view_reduced(s: Seq<(Variable, Fr)>)
    requires
        terms_wf(s),
    ensures
        coeffs_reduced(terms_view(s)),
{
    assert forall|i: int| 0 <= i < terms_view(s).len() implies (#[trigger] terms_view(s)[i]).1
        < fr_modulus() by {
        assert(s[i].1.wf());
        assert(terms_view(s)[i] == (s[i].0, s[i].1.as_nat()));
    }
}

/// Adding a congruent left summand keeps the residue.
pub(crate) proof fn lemma_mod_add_left(x: int, y: int, m: int)
    requires
        m > 0,
    ensures
        ((x % m) + y) % m == (x + y) % m,
{
    lemma_add_mod_noop(x, y, m);
    lemma_add_mod_noop(x % m, y, m);
    lemma_mod_twice(x, m);
}

proof fn lemma_csum_cons(x: (Variable, nat), s: Seq<(Variable, nat)>, v: Variable)
    ensures
        csum(seq![x] + s, v) == term_csum(x, v) + csum(s, v),
    decreases s.len(),
{
    let c = seq![x] + s;
    if s.len() == 0 {
        assert(c.len() == 1);
        assert(c.last() == x);
        assert(c.drop_last() =~= Seq::<(Variable, nat)>::empty());
        assert(csum(c.drop_last(), v) == 0);
        assert(csum(c, v) == csum(c.drop_last(), v) + term_csum(c.last(), v));
    } else {
        assert(c.drop_last() =~= seq![x] + s.drop_last());
        assert(c.last() == s.last());
        lemma_csum_cons(x, s.drop_last(), v);
        assert(csum(c.drop_last(), v) == term_csum(x, v) + csum(s.drop_last(), v));
        assert(csum(c, v) == csum(c.drop_last(), v) + term_csum(c.last(), v));
        assert(csum(s, v) == csum(s.drop_last(), v) + term_csum(s.last(), v));
    }
}

proof fn lemma_csum_no_key(s: Seq<(Variable, nat)>, v: Variable)
    requires
        !has_key(s, var_key(v)),
    ensures
        csum(s, v) == 0,
    decreases s.len(),
{
    if s.len() > 0 {
        assert(!has_key(s.drop_last(), var_key(v)));
        lemma_csum_no_key(s.drop_last(), v);
        assert(s.last().0 != v);
    }
}

/// In a key-sorted sequence the coefficient sum of a present variable is
/// exactly the coefficient of its unique entry.
proof fn lemma_csum_sorted_at(s: Seq<(Variable, nat)>, i: int, v: Variable)
    requires
        sorted_strict(s),
        0 <= i < s.len(),
        s[i].0 == v,
    ensures
        csum(s, v) == s[i].1,
    decreases s.len(),
{
    if i == s.len() - 1 {
        assert(!has_key(s.drop_last(), var_key(v)));
        lemma_csum_no_key(s.drop_last(), v);
    } else {
        assert(var_key(s[i].0) < var_key(s.last().0));
        assert(s.last().0 != v);
        lemma_csum_sorted_at(s.drop_last(), i, v);
    }
}

/// What one insertion does: order and reduction are kept, no new keys beyond
/// the inserted one appear, and every variable's coefficient sum is preserved
/// modulo the field order.
proof fn lemma_insert_term_props(acc: Seq<(Variable, nat)>, t: (Variable, nat))
    requires
        sorted_strict(acc),
        coeffs_reduced(acc),
        t.1 < fr_modulus(),
    ensures
        sorted_strict(insert_term(acc, t)),
        coeffs_reduced(insert_term(acc, t)),
        forall|j: int|
            0 <= j < insert_term(acc, t).len() ==> (var_key(
                (#[trigger] insert_term(acc, t)[j]).0,
            ) == var_key(t.0) || has_key(acc, var_key(insert_term(acc, t)[j].0))),
        forall|v: Variable|
            #[trigger] csum(insert_term(acc, t), v) % (fr_modulus() as int) == (csum(acc, v)
                + term_csum(t, v)) % (fr_modulus() as int),
    decreases acc.len(),
{
    let m = fr_modulus() as int;
    let res = insert_term(acc, t);
    if acc.len() == 0 {
        assert forall|v: Variable| #[trigger]
            csum(res, v) % m == (csum(acc, v) + term_csum(t, v)) % m by {
            assert(res.drop_last() =~= Seq::<(Variable, nat)>::empty());
            assert(res.last() == t);
            assert(csum(res, v) == csum(res.drop_last(), v) + term_csum(res.last(), v));
            assert(csum(res.drop_last(), v) == 0);
            assert(csum(acc, v) == 0);
        }
    } else if var_key(t.0) < var_key(acc[0].0) {
        assert(res == seq![t] + acc);
        assert forall|v: Variable| #[trigger]
            csum(res, v) % m == (csum(acc, v) + term_csum(t, v)) % m by {
            lemma_csum_cons(t, acc, v);
            assert(csum(res, v) == term_csum(t, v) + csum(acc, v));
        }
    } else if var_key(t.0) == var_key(acc[0].0) {
        lemma_var_key_injective(t.0, acc[0].0);
        let merged = (acc[0].0, ((acc[0].1 + t.1) % fr_modulus()));
        assert(res == seq![merged] + acc.drop_first());
        lemma_mod_bound((acc[0].1 + t.1) as int, m);
        assert forall|v: Variable| #[trigger]
            csum(res, v) % m == (csum(acc, v) + term_csum(t, v)) % m by {
            lemma_csum_cons(merged, acc.drop_first(), v);
            assert(acc =~= seq![acc[0]] + acc.drop_first());
            lemma_csum_cons(acc[0], acc.drop_first(), v);
            if v == t.0 {
                lemma_mod_add_left((acc[0].1 + t.1) as int, csum(acc.drop_first(), v), m);
            }
        }
    } else {
        let tail = acc.drop_first();
        lemma_insert_term_props(tail, t);
        let rest = insert_term(tail, t);
        assert(res == seq![acc[0]] + rest);
        assert forall|i: int, j: int| 0 <= i < j < res.len() implies var_key(res[i].0) < var_key(
            res[j].0,
        ) by {
            if i == 0 {
                assert(res[j] == rest[j - 1]);
                assert(var_key(rest[j - 1].0) == var_key(t.0) || has_key(
                    tail,
                    var_key(rest[j - 1].0),
                ));
                if has_key(tail, var_key(rest[j - 1].0)) {
                    let w = choose|w: int|
                        0 <= w < tail.len() && var_key((#[trigger] tail[w]).0) == var_key(
                            rest[j - 1].0,
                        );
                    assert(tail[w] == acc[w + 1]);
                }
            } else {
                assert(res[i] == rest[i - 1] && res[j] == rest[j - 1]);
            }
        }
        assert forall|v: Variable| #[trigger]
            csum(res, v) % m == (csum(acc, v) + term_csum(t, v)) % m by {
            lemma_csum_cons(acc[0], rest, v);
            assert(acc =~= seq![acc[0]] + acc.drop_first());
            lemma_csum_cons(acc[0], tail, v);
            lemma_mod_add_left(csum(rest, v), term_csum(acc[0], v), m);
            assert((csum(rest, v) + term_csum(acc[0], v)) % m == ((csum(tail, v) + term_csum(
                t,
                v,
            )) % m + term_csum(acc[0], v)) % m);
            lemma_mod_add_left(csum(tail, v) + term_csum(t, v), term_csum(acc[0], v), m);
        }
    }
}

/// Folding preserves order, reduction, and every coefficient sum modulo the
/// field order.
proof fn lemma_fold_terms_props(s: Seq<(Variable, nat)>)
    requires
        coeffs_reduced(s),
    ensures
        sorted_strict(fold_terms(s)),
        coeffs_reduced(fold_terms(s)),
        forall|v: Variable| #[trigger]
            csum(fold_terms(s), v) % (fr_modulus() as int) == csum(s, v) % (fr_modulus() as int),
        forall|j: int|
            0 <= j < fold_terms(s).len() ==> has_key(
                s,
                var_key((#[trigger] fold_terms(s)[j]).0),
            ),
    decreases s.len(),
{
    let m = fr_modulus() as int;
    if s.len() > 0 {
        let pre = s.drop_last();
        let t = s.last();
        lemma_fold_terms_props(pre);
        lemma_insert_term_props(fold_terms(pre), t);
        assert forall|v: Variable| #[trigger] csum(fold_terms(s), v) % m == csum(s, v) % m by {
            lemma_mod_add_left(csum(fold_terms(pre), v), term_csum(t, v), m);
            lemma_mod_add_left(csum(pre, v), term_csum(t, v), m);
        }
        assert forall|j: int| 0 <= j < fold_terms(s).len() implies has_key(
            s,
            var_key((#[trigger] fold_terms(s)[j]).0),
        ) by {
            let k = var_key(fold_terms(s)[j].0);
            if k == var_key(t.0) {
                assert(s[s.len() - 1] == t);
                assert(has_key(s, k));
            } else {
                assert(has_key(fold_terms(pre), k));
                assert(has_key(pre, k));
                let w = choose|w: int|
                    0 <= w < pre.len() && var_key((#[trigger] pre[w]).0) == k;
                assert(s[w] == pre[w]);
                assert(has_key(s, k));
            }
        }
    }
}

/// Dropping zero terms keeps order, reduction, key membership, and every
/// coefficient sum exactly.
proof fn lemma_drop_zeroes_props(s: Seq<(Variable, nat)>)
    ensures
        sorted_strict(s) ==> sorted_strict(drop_zeroes(s)),
        coeffs_reduced(s) ==> coeffs_reduced(drop_zeroes(s)),
        coeffs_nonzero(drop_zeroes(s)),
        forall|j: int|
            0 <= j < drop_zeroes(s).len() ==> has_key(
                s,
                var_key((#[trigger] drop_zeroes(s)[j]).0),
            ),
        forall|v: Variable| #[trigger] csum(drop_zeroes(s), v) == csum(s, v),
    decreases s.len(),
{
    if s.len() > 0 {
        let pre = s.drop_last();
        lemma_drop_zeroes_props(pre);
        let dzp = drop_zeroes(pre);
        assert(sorted_strict(s) ==> sorted_strict(pre));
        assert(coeffs_reduced(s) ==> coeffs_reduced(pre));
        assert forall|j: int| 0 <= j < dzp.len() implies has_key(s, var_key(dzp[j].0)) by {
            let w = choose|w: int|
                0 <= w < pre.len() && var_key((#[trigger] pre[w]).0) == var_key(dzp[j].0);
            assert(s[w] == pre[w]);
        }
        if s.last().1 != 0 {
            let dz = dzp.push(s.last());
            assert(drop_zeroes(s) == dz);
            if sorted_strict(s) {
                assert forall|i: int, j: int| 0 <= i < j < dz.len() implies var_key(dz[i].0)
                    < var_key(dz[j].0) by {
                    if j == dz.len() - 1 {
                        let w = choose|w: int|
                            0 <= w < pre.len() && var_key((#[trigger] pre[w]).0) == var_key(
                                dz[i].0,
                            );
                        assert(var_key(s[w].0) < var_key(s.last().0));
                    }
                }
            }
            assert forall|v: Variable| #[trigger] csum(dz, v) == csum(s, v) by {
                assert(dz.drop_last() =~= dzp);
                assert(dz.last() == s.last());
                assert(csum(dzp, v) == csum(pre, v));
                assert(csum(dz, v) == csum(dz.drop_last(), v) + term_csum(dz.last(), v));
                assert(csum(s, v) == csum(pre, v) + term_csum(s.last(), v));
            }
        } else {
            assert(drop_zeroes(s) == dzp);
            assert forall|v: Variable| #[trigger] csum(drop_zeroes(s), v) == csum(s, v) by {
                assert(term_csum(s.last(), v) == 0);
                assert(csum(dzp, v) == csum(pre, v));
                assert(csum(s, v) == csum(pre, v) + term_csum(s.last(), v));
            }
        }
    }
}

/// The canonical form of any reduced combination is key-sorted, zero-free,
/// reduced, and preserves every variable's coefficient sum modulo the field
/// order.
pub proof fn lemma_canon_props(s: Seq<(Variable, nat)>)
    requires
        coeffs_reduced(s),
    ensures
        sorted_strict(canon(s)),
        coeffs_reduced(canon(s)),
        coeffs_nonzero(canon(s)),
        forall|v: Variable| #[trigger]
            csum(canon(s), v) % (fr_modulus() as int) == csum(s, v) % (fr_modulus() as int),
        forall|j: int|
            0 <= j < canon(s).len() ==> has_key(s, var_key((#[trigger] canon(s)[j]).0)),
{
    lemma_fold_terms_props(s);
    lemma_drop_zeroes_props(fold_terms(s));
    assert forall|j: int| 0 <= j < canon(s).len() implies has_key(
        s,
        var_key((#[trigger] canon(s)[j]).0),
    ) by {
        let k = var_key(canon(s)[j].0);
        assert(has_key(fold_terms(s), k));
        let w = choose|w: int|
            0 <= w < fold_terms(s).len() && var_key((#[trigger] fold_terms(s)[w]).0) == k;
        assert(has_key(s, var_key(fold_terms(s)[w].0)));
    }
}

/// A key-sorted, zero-free, reduced sequence is determined by its coefficient
/// sums modulo the field order: no two distinct such sequences agree on all
/// of them.
pub proof fn lemma_canonical_shape_unique(s1: Seq<(Variable, nat)>, s2: Seq<(Variable, nat)>)
    requires
        sorted_strict(s1),
        sorted_strict(s2),
        coeffs_reduced(s1),
        coeffs_reduced(s2),
        coeffs_nonzero(s1),
        coeffs_nonzero(s2),
        forall|v: Variable| #[trigger]
            csum(s1, v) % (fr_modulus() as int) == csum(s2, v) % (fr_modulus() as int),
    ensures
        s1 == s2,
    decreases s1.len(),
{
    let m = fr_modulus() as int;
    if s1.len() == 0 && s2.len() == 0 {
        assert(s1 =~= s2);
    } else if s1.len() == 0 {
        let v = s2.last().0;
        lemma_csum_sorted_at(s2, s2.len() - 1, v);
        lemma_small_mod(s2.last().1, fr_modulus());
        lemma_small_mod(0nat, fr_modulus());
        assert(csum(s1, v) == 0);
        assert(csum(s1, v) % m == csum(s2, v) % m);
        assert(false);
    } else if s2.len() == 0 {
        let v = s1.last().0;
        lemma_csum_sorted_at(s1, s1.len() - 1, v);
        lemma_small_mod(s1.last().1, fr_modulus());
        lemma_small_mod(0nat, fr_modulus());
        assert(csum(s2, v) == 0);
        assert(csum(s1, v) % m == csum(s2, v) % m);
        assert(false);
    } else {
        let k1 = var_key(s1.last().0);
        let k2 = var_key(s2.last().0);
        if k1 < k2 {
            let v = s2.last().0;
            lemma_csum_sorted_at(s2, s2.len() - 1, v);
            assert(!has_key(s1, var_key(v)));
            lemma_csum_no_key(s1, v);
            lemma_small_mod(s2.last().1, fr_modulus());
            lemma_small_mod(0nat, fr_modulus());
            assert(csum(s1, v) % m == csum(s2, v) % m);
            assert(false);
        } else if k2 < k1 {
            let v = s1.last().0;
            lemma_csum_sorted_at(s1, s1.len() - 1, v);
            assert(!has_key(s2, var_key(v)));
            lemma_csum_no_key(s2, v);
            lemma_small_mod(s1.last().1, fr_modulus());
            lemma_small_mod(0nat, fr_modulus());
            assert(csum(s1, v) % m == csum(s2, v) % m);
            assert(false);
        } else {
            lemma_var_key_injective(s1.last().0, s2.last().0);
            let v = s1.last().0;
            lemma_csum_sorted_at(s1, s1.len() - 1, v);
            lemma_csum_sorted_at(s2, s2.len() - 1, v);
            lemma_small_mod(s1.last().1, fr_modulus());
            lemma_small_mod(s2.last().1, fr_modulus());
            assert(csum(s1, v) % m == csum(s2, v) % m);
            assert(s1.last() == s2.last());
            let d1 = s1.drop_last();
            let d2 = s2.drop_last();
            assert forall|w: Variable| #[trigger] csum(d1, w) % m == csum(d2, w) % m by {
                assert(csum(s1, w) % m == csum(s2, w) % m);
                assert(csum(s1, w) == csum(d1, w) + term_csum(s1.last(), w));
                assert(csum(s2, w) == csum(d2, w) + term_csum(s2.last(), w));
                if w == v {
                    assert(!has_key(d1, var_key(w)));
                    assert(!has_key(d2, var_key(w)));
                    lemma_csum_no_key(d1, w);
                    lemma_csum_no_key(d2, w);
                }
            }
            lemma_canonical_shape_unique(d1, d2);
            assert(s1 =~= d1.push(s1.last()));
            assert(s2 =~= d2.push(s2.last()));
            assert(s1 == s2);
        }
    }
}

proof fn lemma_csum_remove(s: Seq<(Variable, nat)>, j: int, v: Variable)
    requires
        0 <= j < s.len(),
    ensures
        csum(s.remove(j), v) == csum(s, v) - term_csum(s[j], v),
    decreases s.len(),
{
    if j == s.len() - 1 {
        assert(s.remove(j) =~= s.drop_last());
    } else {
        let r = s.remove(j);
        assert(r.drop_last() =~= s.drop_last().remove(j));
        assert(r.last() == s.last());
        lemma_csum_remove(s.drop_last(), j, v);
    }
}

/// Coefficient sums depend only on the multiset of terms, not on their order.
pub proof fn lemma_csum_multiset(s1: Seq<(Variable, nat)>, s2: Seq<(Variable, nat)>, v: Variable)
    requires
        s1.to_multiset() == s2.to_multiset(),
    ensures
        csum(s1, v) == csum(s2, v),
    decreases s1.len(),
{
    broadcast use group_to_multiset_ensures;

    if s1.len() == 0 {
        assert(s1.to_multiset().len() == s1.len());
        assert(s2.to_multiset().len() == s2.len());
        assert(s2.len() == 0);
    } else {
        let t = s1.last();
        assert(s1.contains(t));
        assert(s2.to_multiset().count(t) > 0);
        assert(s2.contains(t));
        let j = choose|j: int| 0 <= j < s2.len() && s2[j] == t;
        lemma_csum_remove(s2, j, v);
        lemma_csum_remove(s1, s1.len() - 1, v);
        assert(s1.remove(s1.len() - 1) =~= s1.drop_last());
        assert(s1.drop_last().to_multiset() == s1.to_multiset().remove(t));
        assert(s2.remove(j).to_multiset() == s2.to_multiset().remove(t));
        lemma_csum_multiset(s1.drop_last(), s2.remove(j), v);
    }
}

/// Canonicalization is idempotent: re-canonicalizing a canonical form leaves
/// it unchanged.
pub proof fn lemma_canon_idempotent(s: Seq<(Variable, nat)>)
    requires
        coeffs_reduced(s),
    ensures
        canon(canon(s)) == canon(s),
{
    lemma_canon_props(s);
    lemma_canon_props(canon(s));
    lemma_canonical_shape_unique(canon(canon(s)), canon(s));
}

/// Canonicalization is order-insensitive: any two permutations of the same
/// terms canonicalize to the same form.
pub proof fn lemma_canon_permutation(s1: Seq<(Variable, nat)>, s2: Seq<(Variable, nat)>)
    requires
        coeffs_reduced(s1),
        coeffs_reduced(s2),
        s1.to_multiset() == s2.to_multiset(),
    ensures
        canon(s1) == canon(s2),
{
    lemma_canon_props(s1);
    lemma_canon_props(s2);
    assert forall|v: Variable| #[trigger]
        csum(canon(s1), v) % (fr_modulus() as int) == csum(canon(s2), v) % (
        fr_modulus() as int) by {
        lemma_csum_multiset(s1, s2, v);
    }
    lemma_canonical_shape_unique(canon(s1), canon(s2));
}

/// Terms whose coefficients sum to the additive identity vanish entirely
/// from the canonical form.
pub proof fn lemma_cancelled_terms_vanish(s: Seq<(Variable, nat)>, v: Variable)
    requires
        coeffs_reduced(s),
        csum(s, v) % (fr_modulus() as int) == 0,
    ensures
        forall|j: int| 0 <= j < canon(s).len() ==> (#[trigger] canon(s)[j]).0 != v,
{
    lemma_canon_props(s);
    assert forall|j: int| 0 <= j < canon(s).len() implies (#[trigger] canon(s)[j]).0 != v by {
        if canon(s)[j].0 == v {
            lemma_csum_sorted_at(canon(s), j, v);
            lemma_small_mod(canon(s)[j].1, fr_modulus());
            assert(false);
        }
    }
}

/// Relates the ordered-position description used by the executable insertion
/// to the recursive `insert_term`.
proof fn lemma_insert_position(acc: Seq<(Variable, nat)>, t: (Variable, nat), p: int)
    requires
        sorted_strict(acc),
        0 <= p <= acc.len(),
        forall|i: int| 0 <= i < p ==> var_key((#[trigger] acc[i]).0) < var_key(t.0),
        p < acc.len() ==> var_key(acc[p].0) >= var_key(t.0),
    ensures
        insert_term(acc, t) == if p < acc.len() && var_key(acc[p].0) == var_key(t.0) {
            acc.update(p, (acc[p].0, ((acc[p].1 + t.1) % fr_modulus())))
        } else {
            acc.insert(p, t)
        },
    decreases p,
{
    if p == 0 {
        if acc.len() == 0 {
            assert(insert_term(acc, t) =~= acc.insert(0, t));
        } else if var_key(t.0) < var_key(acc[0].0) {
            assert(seq![t] + acc =~= acc.insert(0, t));
        } else {
            assert(var_key(t.0) == var_key(acc[0].0));
            assert(seq![(acc[0].0, ((acc[0].1 + t.1) % fr_modulus()))] + acc.drop_first()
                =~= acc.update(0, (acc[0].0, ((acc[0].1 + t.1) % fr_modulus()))));
        }
    } else {
        let tail = acc.drop_first();
        assert(var_key(acc[0].0) < var_key(t.0));
        assert(forall|i: int| 0 <= i < p - 1 ==> var_key((#[trigger] tail[i]).0) < var_key(t.0));
        lemma_insert_position(tail, t, p - 1);
        if p < acc.len() && var_key(acc[p].0) == var_key(t.0) {
            assert(tail[p - 1] == acc[p]);
            assert(seq![acc[0]] + tail.update(p - 1, (acc[p].0, ((acc[p].1 + t.1) % fr_modulus())))
                =~= acc.update(p, (acc[p].0, ((acc[p].1 + t.1) % fr_modulus()))));
        } else {
            assert(seq![acc[0]] + tail.insert(p - 1, t) =~= acc.insert(p, t));
        }
    }
}

/// Merges duplicate-variable terms by field addition and removes terms whose
/// merged coefficient is zero, returning the order-independent canonical form
/// sorted by variable key.
pub fn proc_lc(lc: &LinearCombination) -> (r: Vec<(Variable, Fr)>)
    requires
        lc.wf(),
    ensures
        terms_view(r@) == canon(lc@),
        terms_wf(r@),
{
    let n = lc.terms.len();
    let mut acc: Vec<(Variable, Fr)> = Vec::new();
    proof {
        assert(lc@.subrange(0, 0) =~= Seq::<(Variable, nat)>::empty());
        assert(terms_view(acc@) =~= Seq::<(Variable, nat)>::empty());
    }
    let mut idx: usize = 0;
    while idx < n
        invariant
            idx <= n,
            n == lc.terms@.len(),
            lc.wf(),
            terms_wf(acc@),
            terms_view(acc@) == fold_terms(lc@.subrange(0, idx as int)),
            sorted_strict(terms_view(acc@)),
        decreases n - idx,
    {
        let t = lc.terms[idx];
        let tk = var_key_exec(&t.0);
        proof {
            assert(lc@[idx as int] == (t.0, t.1.as_nat()));
            assert(t.1.wf());
        }
        let mut p: usize = 0;
        while p < acc.len() && var_key_exec(&acc[p].0) < tk
            invariant
                p <= acc@.len(),
                tk == var_key(t.0),
                terms_wf(acc@),
                sorted_strict(terms_view(acc@)),
                forall|i: int| 0 <= i < p ==> var_key((#[trigger] acc@[i]).0) < var_key(t.0),
            decreases acc@.len() - p,
        {
            p += 1;
        }
        let ghost prev = terms_view(acc@);
        let ghost tv = (t.0, t.1.as_nat());
        proof {
            assert(forall|i: int|
                0 <= i < p ==> var_key((#[trigger] prev[i]).0) < var_key(tv.0));
            assert(p < acc@.len() ==> var_key(prev[p as int].0) >= var_key(tv.0));
            lemma_insert_position(prev, tv, p as int);
        }
        let ghost pre_vec = acc@;
        if p < acc.len() && var_key_exec(&acc[p].0) == tk {
            let cur = acc[p];
            let merged = fr_add(&cur.1, &t.1);
            acc[p] = (cur.0, merged);
            proof {
                lemma_terms_view_update(pre_vec, p as int, (cur.0, merged));
                assert(terms_view(acc@) == prev.update(
                    p as int,
                    (cur.0, merged.as_nat()),
                ));
            }
        } else {
            acc.insert(p, t);
            proof {
                crate::lc::lemma_terms_view_insert(pre_vec, p as int, t);
                assert(terms_view(acc@) == prev.insert(p as int, tv));
            }
        }
        proof {
            let sub1 = lc@.subrange(0, idx + 1);
            assert(sub1.drop_last() =~= lc@.subrange(0, idx as int));
            assert(sub1.last() == tv);
            lemma_insert_term_props(prev, tv);
        }
        idx += 1;
    }
    proof {
        assert(lc@.subrange(0, n as int) =~= lc@);
    }
    let mut out: Vec<(Variable, Fr)> = Vec::new();
    proof {
        assert(terms_view(acc@).subrange(0, 0) =~= Seq::<(Variable, nat)>::empty());
        assert(terms_view(out@) =~= Seq::<(Variable, nat)>::empty());
        assert(drop_zeroes(Seq::<(Variable, nat)>::empty()) =~= Seq::<(Variable, nat)>::empty());
    }
    let m = acc.len();
    let mut j: usize = 0;
    while j < m
        invariant
            j <= m,
            m == acc@.len(),
            terms_wf(acc@),
            terms_wf(out@),
            terms_view(acc@) == fold_terms(lc@),
            terms_view(out@) == drop_zeroes(terms_view(acc@).subrange(0, j as int)),
        decreases m - j,
    {
        let t = acc[j];
        let ghost seen = terms_view(acc@).subrange(0, j as int);
        let ghost seen1 = terms_view(acc@).subrange(0, j + 1);
        proof {
            assert(seen1.drop_last() =~= seen);
            assert(seen1.last() == terms_view(acc@)[j as int]);
        }
        if !t.1.is_zero() {
            proof {
                lemma_terms_view_push(out@, t);
            }
            out.push(t);
        }
        j += 1;
    }
    proof {
        assert(terms_view(acc@).subrange(0, m as int) =~= terms_view(acc@));
    }
    out
}

} // verus!
