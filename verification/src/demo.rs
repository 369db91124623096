//! A synthetic squaring circuit used to exercise the constraint system: a
//! chain of `x * x = x2` constraints whose first variables are public inputs
//! and the rest private, closed by one constraint tying the last value to
//! the constant-one input. Allocations and constraints are named by
//! position, `v` or `c` followed by a decimal number, so every resolved path
//! is unique.

use vstd::prelude::*;

verus! {

use vstd::string::StringExecFns;

use crate::error::SynthesisError;
use crate::field::{fr_modulus, fr_mul, Fr};
use crate::lc::{Index, LinearCombination, Variable};
use crate::digest::hex_digit;
use crate::pretty::{dec_of, dec_str};
use crate::system::{
    join_path,
    lemma_sat_preserved,
    no_slash,
    reg_contains,
    NamedObject,
    TestConstraintSystem,
};

/// The name of the allocation with the given position.
pub open spec fn vname(k: nat) -> Seq<char> {
    seq!['v'] + dec_of(k)
}

/// The name of the constraint with the given position.
pub open spec fn cname(k: nat) -> Seq<char> {
    seq!['c'] + dec_of(k)
}

/// The value a digit character stands for.
spec fn digit_val(c: char) -> nat {
    if c == '0' {
        0
    } else if c == '1' {
        1
    } else if c == '2' {
        2
    } else if c == '3' {
        3
    } else if c == '4' {
        4
    } else if c == '5' {
        5
    } else if c == '6' {
        6
    } else if c == '7' {
        7
    } else if c == '8' {
        8
    } else {
        9
    }
}

proof fn lemma_digit_roundtrip(a: nat)
    requires
        a < 10,
    ensures
        digit_val(hex_digit(a)) == a,
{
    if a == 0 {
        assert(hex_digit(0) == '0');
    } else if a == 1 {
        assert(hex_digit(1) == '1');
    } else if a == 2 {
        assert(hex_digit(2) == '2');
    } else if a == 3 {
        assert(hex_digit(3) == '3');
    } else if a == 4 {
        assert(hex_digit(4) == '4');
    } else if a == 5 {
        assert(hex_digit(5) == '5');
    } else if a == 6 {
        assert(hex_digit(6) == '6');
    } else if a == 7 {
        assert(hex_digit(7) == '7');
    } else if a == 8 {
        assert(hex_digit(8) == '8');
    } else {
        assert(hex_digit(9) == '9');
    }
}

proof fn lemma_dec_len(n: nat)
    ensures
        dec_of(n).len() >= 1,
        n >= 10 ==> dec_of(n).len() >= 2,
    decreases n,
{
    if n >= 10 {
        lemma_dec_len(n / 10);
    }
}

/// Distinct numbers have distinct decimal renderings.
proof fn lemma_dec_of_injective(a: nat, b: nat)
    requires
        a != b,
    ensures
        dec_of(a) != dec_of(b),
    decreases a + b,
{
    if dec_of(a) == dec_of(b) {
        lemma_dec_len(a);
        lemma_dec_len(b);
        if a < 10 && b < 10 {
            assert(dec_of(a)[0] == hex_digit(a));
            assert(dec_of(b)[0] == hex_digit(b));
            lemma_digit_roundtrip(a);
            lemma_digit_roundtrip(b);
            assert(false);
        } else if a < 10 || b < 10 {
            assert(dec_of(a).len() != dec_of(b).len());
            assert(false);
        } else {
            assert(dec_of(a).last() == hex_digit(a % 10));
            assert(dec_of(b).last() == hex_digit(b % 10));
            lemma_digit_roundtrip(a % 10);
            lemma_digit_roundtrip(b % 10);
            assert(a % 10 == b % 10);
            assert(dec_of(a).drop_last() =~= dec_of(a / 10));
            assert(dec_of(b).drop_last() =~= dec_of(b / 10));
            if a / 10 == b / 10 {
                vstd::arithmetic::div_mod::lemma_fundamental_div_mod(a as int, 10);
                vstd::arithmetic::div_mod::lemma_fundamental_div_mod(b as int, 10);
                assert(false);
            } else {
                lemma_dec_of_injective(a / 10, b / 10);
                assert(false);
            }
        }
    }
}

proof fn lemma_digit_not_slash(a: nat)
    requires
        a < 10,
    ensures
        hex_digit(a) != '/',
{
    lemma_digit_roundtrip(a);
    if hex_digit(a) == '/' {
        assert(digit_val('/') == 9);
        assert(hex_digit(9) == '9');
        assert(false);
    }
}

proof fn lemma_dec_no_slash(n: nat)
    ensures
        no_slash(dec_of(n)),
    decreases n,
{
    if n < 10 {
        lemma_digit_not_slash(n);
    } else {
        lemma_dec_no_slash(n / 10);
        lemma_digit_not_slash(n % 10);
        assert forall|i: int| 0 <= i < dec_of(n).len() implies dec_of(n)[i] != '/' by {
            if i < dec_of(n / 10).len() {
                assert(dec_of(n)[i] == dec_of(n / 10)[i]);
            }
        }
    }
}

/// The positional names never contain the path separator.
proof fn lemma_names_no_slash(k: nat)
    ensures
        no_slash(vname(k)),
        no_slash(cname(k)),
{
    lemma_dec_no_slash(k);
    assert forall|i: int| 0 <= i < vname(k).len() implies vname(k)[i] != '/' by {
        if i > 0 {
            assert(vname(k)[i] == dec_of(k)[i - 1]);
        }
    }
    assert forall|i: int| 0 <= i < cname(k).len() implies cname(k)[i] != '/' by {
        if i > 0 {
            assert(cname(k)[i] == dec_of(k)[i - 1]);
        }
    }
}

/// The registry shape this circuit maintains: the reserved constant entry,
/// then only positionally named allocations and constraints.
pub open spec fn demo_reg_ok(reg: Seq<(String, NamedObject)>, a: nat, e: nat) -> bool {
    &&& reg.len() == 1 + a + e
    &&& reg[0].0@ == "ONE"@
    &&& forall|j: int|
        1 <= j < reg.len() ==> vc_named((#[trigger] reg[j]).0@, a, e)
}

/// The path is a positional allocation or constraint name below the counts.
pub open spec fn vc_named(p: Seq<char>, a: nat, e: nat) -> bool {
    (exists|k: nat| k < a && p == vname(k)) || (exists|k: nat| k < e && p == cname(k))
}

proof fn lemma_vc_named_mono(p: Seq<char>, a: nat, e: nat, a2: nat, e2: nat)
    requires
        vc_named(p, a, e),
        a <= a2,
        e <= e2,
    ensures
        vc_named(p, a2, e2),
{
    if exists|k: nat| k < a && p == vname(k) {
        let k = choose|k: nat| k < a && p == vname(k);
        assert(k < a2 && p == vname(k));
    } else {
        let k = choose|k: nat| k < e && p == cname(k);
        assert(k < e2 && p == cname(k));
    }
}

proof fn lemma_prefixed_name_injective(c: char, x: nat, d: char, y: nat)
    requires
        seq![c] + dec_of(x) == seq![d] + dec_of(y),
    ensures
        c == d,
        dec_of(x) == dec_of(y),
{
    let l = seq![c] + dec_of(x);
    let r = seq![d] + dec_of(y);
    assert(l == r);
    assert(l.len() == 1 + dec_of(x).len());
    assert(r.len() == 1 + dec_of(y).len());
    assert(l[0] == c && r[0] == d);
    assert(dec_of(x).len() == dec_of(y).len());
    assert forall|i: int| 0 <= i < dec_of(x).len() implies dec_of(x)[i] == dec_of(y)[i] by {
        assert(l[i + 1] == dec_of(x)[i]);
        assert(r[i + 1] == dec_of(y)[i]);
    }
    assert(dec_of(x) =~= dec_of(y));
}

/// The next allocation name is fresh in a registry of this shape.
proof fn lemma_fresh_vname(reg: Seq<(String, NamedObject)>, a: nat, e: nat)
    requires
        demo_reg_ok(reg, a, e),
    ensures
        !reg_contains(reg, vname(a)),
{
    reveal_strlit("ONE");
    lemma_dec_len(a);
    if reg_contains(reg, vname(a)) {
        let j = choose|j: int| 0 <= j < reg.len() && (#[trigger] reg[j]).0@ == vname(a);
        if j == 0 {
            assert(reg[0].0@[0] == 'O');
            assert(vname(a)[0] == 'v');
            assert(false);
        } else {
            assert(vc_named(reg[j].0@, a, e));
            if exists|k: nat| k < a && reg[j].0@ == vname(k) {
                let k = choose|k: nat| k < a && reg[j].0@ == vname(k);
                lemma_prefixed_name_injective('v', k, 'v', a);
                lemma_dec_of_injective(k, a);
                assert(false);
            } else {
                let k = choose|k: nat| k < e && reg[j].0@ == cname(k);
                lemma_prefixed_name_injective('c', k, 'v', a);
                assert(false);
            }
        }
    }
}

/// The next constraint name is fresh in a registry of this shape.
proof fn lemma_fresh_cname(reg: Seq<(String, NamedObject)>, a: nat, e: nat)
    requires
        demo_reg_ok(reg, a, e),
    ensures
        !reg_contains(reg, cname(e)),
{
    reveal_strlit("ONE");
    lemma_dec_len(e);
    if reg_contains(reg, cname(e)) {
        let j = choose|j: int| 0 <= j < reg.len() && (#[trigger] reg[j]).0@ == cname(e);
        if j == 0 {
            assert(reg[0].0@[0] == 'O');
            assert(cname(e)[0] == 'c');
            assert(false);
        } else {
            assert(vc_named(reg[j].0@, a, e));
            if exists|k: nat| k < a && reg[j].0@ == vname(k) {
                let k = choose|k: nat| k < a && reg[j].0@ == vname(k);
                lemma_prefixed_name_injective('v', k, 'c', e);
                assert(false);
            } else {
                let k = choose|k: nat| k < e && reg[j].0@ == cname(k);
                lemma_prefixed_name_injective('c', k, 'c', e);
                lemma_dec_of_injective(k, e);
                assert(false);
            }
        }
    }
}

/// Registering one more allocation name keeps the registry shape.
proof fn lemma_demo_reg_push(
    reg: Seq<(String, NamedObject)>,
    entry: (String, NamedObject),
    a: nat,
    e: nat,
    new_a: nat,
    new_e: nat,
)
    requires
        demo_reg_ok(reg, a, e),
        (new_a == a + 1 && new_e == e && entry.0@ == vname(a)) || (new_a == a && new_e == e + 1
            && entry.0@ == cname(e)),
    ensures
        demo_reg_ok(reg.push(entry), new_a, new_e),
{
    let r2 = reg.push(entry);
    assert(r2[0] == reg[0]);
    assert forall|j: int| 1 <= j < r2.len() implies vc_named(
        (#[trigger] r2[j]).0@,
        new_a,
        new_e,
    ) by {
        if j < reg.len() {
            assert(r2[j] == reg[j]);
            lemma_vc_named_mono(reg[j].0@, a, e, new_a, new_e);
        } else {
            if new_a == a + 1 {
                assert(a < new_a && r2[j].0@ == vname(a));
            } else {
                assert(e < new_e && r2[j].0@ == cname(e));
            }
        }
    }
}

/// Builds the positional allocation name.
fn vname_str(k: u64) -> (r: String)
    ensures
        r@ == vname(k as nat),
{
    proof {
        reveal_strlit("v");
    }
    let mut s: String = "v".to_owned();
    let d = dec_str(k);
    s.append(d.as_str());
    proof {
        assert(s@ =~= vname(k as nat));
    }
    s
}

/// Builds the positional constraint name.
fn cname_str(k: u64) -> (r: String)
    ensures
        r@ == cname(k as nat),
{
    proof {
        reveal_strlit("c");
    }
    let mut s: String = "c".to_owned();
    let d = dec_str(k);
    s.append(d.as_str());
    proof {
        assert(s@ =~= cname(k as nat));
    }
    s
}

/// The value currently assigned to a variable of the system.
pub open spec fn val_of(cs: TestConstraintSystem, v: Variable) -> int {
    crate::eval::var_value(v, cs.input_vals(), cs.aux_vals())
}

/// A synthetic circuit: a chain of squarings, with the given numbers of
/// public and private variables.
#[derive(Clone, Copy, Debug)]
pub struct DummyDemo {
    pub public: usize,
    pub private: usize,
}

impl DummyDemo {
    /// Synthesizes the squaring chain into a freshly created system:
    /// `public` inputs beyond the constant one, `private` auxiliaries, one
    /// constraint per allocated variable, and every recorded constraint
    /// satisfied by the values chosen along the way.
    pub fn synthesize(self, cs: &mut TestConstraintSystem) -> (r: Result<(), SynthesisError>)
        requires
            old(cs).wf(),
            old(cs).named_objects@.len() == 1,
            old(cs).named_objects@[0].0@ == "ONE"@,
            old(cs).current_namespace@.len() == 0,
            old(cs).constraints@.len() == 0,
            old(cs).inputs@.len() == 1,
            old(cs).aux@.len() == 0,
            self.public >= 1,
            self.public + self.private <= 0xffffffff,
        ensures
            final(cs).wf(),
            final(cs).inputs@.len() == self.public + 1,
            final(cs).aux@.len() == self.private,
            final(cs).constraints@.len() == self.public + self.private,
            forall|i: int| 0 <= i < final(cs).constraints@.len() ==> final(cs).sat_at(i),
            r == Ok::<(), SynthesisError>(()),
    {
        let total: usize = self.public + self.private - 1;
        let mut x_val = Fr::from_u64(2);
        proof {
            assert(demo_reg_ok(cs.named_objects@, 0, 0));
            lemma_fresh_vname(cs.named_objects@, 0, 0);
            lemma_names_no_slash(0);
            assert(join_path(cs.ns_view(), vname(0)) == vname(0));
        }
        let name0 = vname_str(0);
        let alloc_res = cs.alloc_input(name0.as_str(), Ok(x_val));
        let mut x = match alloc_res {
            Ok(v) => v,
            Err(_) => {
                proof {
                    assert(false);
                }
                return Ok(());
            },
        };
        proof {
            lemma_demo_reg_push(
                old(cs).named_objects@,
                (cs.named_objects@.last()),
                0,
                0,
                1,
                0,
            );
            assert(cs.named_objects@ =~= old(cs).named_objects@.push(
                cs.named_objects@.last(),
            ));
            assert(cs.input_vals()[1] == cs.inputs@[1].0.as_nat());
            assert(val_of(*cs, x) == x_val.as_nat());
        }
        let mut pubs: usize = 1;
        let mut t: usize = 0;
        let mut nv: usize = 1;
        while t < total
            invariant
                t <= total,
                total == self.public + self.private - 1,
                self.public >= 1,
                self.public + self.private <= 0xffffffff,
                cs.wf(),
                cs.current_namespace@.len() == 0,
                1 <= pubs <= self.public,
                pubs <= t + 1,
                t < self.public ==> pubs == t + 1,
                t >= self.public ==> pubs == self.public,
                nv == t + 1,
                cs.inputs@.len() == 1 + pubs,
                cs.aux@.len() == t + 1 - pubs,
                cs.constraints@.len() == t,
                demo_reg_ok(cs.named_objects@, (t + 1) as nat, t as nat),
                x_val.wf(),
                match x.0 {
                    Index::Input(k) => (k as nat) < cs.inputs@.len(),
                    Index::Aux(k) => (k as nat) < cs.aux@.len(),
                },
                val_of(*cs, x) == x_val.as_nat(),
                forall|i: int| 0 <= i < cs.constraints@.len() ==> cs.sat_at(i),
            decreases total - t,
        {
            let x2_val = fr_mul(&x_val, &x_val);
            let ghost pre1 = *cs;
            proof {
                lemma_fresh_vname(cs.named_objects@, (t + 1) as nat, t as nat);
                lemma_names_no_slash((t + 1) as nat);
                assert(join_path(cs.ns_view(), vname((t + 1) as nat)) == vname(
                    (t + 1) as nat,
                ));
            }
            let namev = vname_str(nv as u64);
            let x2 = if pubs < self.public {
                pubs = pubs + 1;
                let got = match cs.alloc_input(namev.as_str(), Ok(x2_val)) {
                    Ok(v) => v,
                    Err(_) => {
                        proof {
                            assert(false);
                        }
                        return Ok(());
                    },
                };
                proof {
                    assert(cs.inputs@.drop_last() == pre1.inputs@);
                    assert forall|j: int| 0 <= j < pre1.inputs@.len() implies cs.inputs@[j]
                        == pre1.inputs@[j] by {
                        assert(cs.inputs@.drop_last()[j] == cs.inputs@[j]);
                    }
                    assert(cs.inputs@.last().0 == x2_val);
                    assert(val_of(*cs, got) == x2_val.as_nat());
                }
                got
            } else {
                let got = match cs.alloc_aux(namev.as_str(), Ok(x2_val)) {
                    Ok(v) => v,
                    Err(_) => {
                        proof {
                            assert(false);
                        }
                        return Ok(());
                    },
                };
                proof {
                    assert(cs.aux@.drop_last() == pre1.aux@);
                    assert forall|j: int| 0 <= j < pre1.aux@.len() implies cs.aux@[j]
                        == pre1.aux@[j] by {
                        assert(cs.aux@.drop_last()[j] == cs.aux@[j]);
                    }
                    assert(cs.aux@.last().0 == x2_val);
                    assert(val_of(*cs, got) == x2_val.as_nat());
                }
                got
            };
            proof {
                lemma_demo_reg_push(
                    pre1.named_objects@,
                    (cs.named_objects@.last()),
                    (t + 1) as nat,
                    t as nat,
                    (t + 2) as nat,
                    t as nat,
                );
                assert(cs.named_objects@ =~= pre1.named_objects@.push(
                    cs.named_objects@.last(),
                ));
                assert forall|j: int| 0 <= j < pre1.inputs@.len() implies cs.inputs@[j]
                    == pre1.inputs@[j] by {}
                assert forall|j: int| 0 <= j < pre1.aux@.len() implies cs.aux@[j]
                    == pre1.aux@[j] by {}
                assert forall|i: int| 0 <= i < cs.constraints@.len() implies cs.sat_at(
                    i,
                ) by {
                    lemma_sat_preserved(pre1, *cs, i);
                }
                assert(val_of(*cs, x) == x_val.as_nat()) by {
                    match x.0 {
                        Index::Input(k) => {
                            assert(cs.inputs@[k as int] == pre1.inputs@[k as int]);
                            assert(cs.input_vals()[k as int] == pre1.input_vals()[k as int]);
                        },
                        Index::Aux(k) => {
                            assert(cs.aux@[k as int] == pre1.aux@[k as int]);
                            assert(cs.aux_vals()[k as int] == pre1.aux_vals()[k as int]);
                        },
                    }
                }
            }
            let ghost pre2 = *cs;
            proof {
                lemma_fresh_cname(cs.named_objects@, (t + 2) as nat, t as nat);
                lemma_names_no_slash(t as nat);
                assert(join_path(cs.ns_view(), cname(t as nat)) == cname(t as nat));
            }
            let namec = cname_str(t as u64);
            let la = LinearCombination::zero().add_var(x);
            let lb = LinearCombination::zero().add_var(x);
            let lcc = LinearCombination::zero().add_var(x2);
            cs.enforce(namec.as_str(), la, lb, lcc);
            proof {
                lemma_demo_reg_push(
                    pre2.named_objects@,
                    (cs.named_objects@.last()),
                    (t + 2) as nat,
                    t as nat,
                    (t + 2) as nat,
                    (t + 1) as nat,
                );
                assert(cs.named_objects@ =~= pre2.named_objects@.push(
                    cs.named_objects@.last(),
                ));
                lemma_single_term_sat(pre2, *cs, x, x2, x_val, x2_val, t as int);
                assert forall|i: int| 0 <= i < cs.constraints@.len() implies cs.sat_at(
                    i,
                ) by {
                    if i < t {
                        assert(cs.constraints@.drop_last()[i] == cs.constraints@[i]);
                        lemma_sat_preserved(pre2, *cs, i);
                    }
                }
                assert(val_of(*cs, x2) == x2_val.as_nat());
            }
            x = x2;
            x_val = x2_val;
            nv = nv + 1;
            t = t + 1;
        }
        let ghost pre3 = *cs;
        proof {
            lemma_fresh_cname(cs.named_objects@, (total + 1) as nat, total as nat);
            lemma_names_no_slash(total as nat);
            assert(join_path(cs.ns_view(), cname(total as nat)) == cname(total as nat));
        }
        let namec = cname_str(total as u64);
        let one = TestConstraintSystem::one();
        let la = LinearCombination::zero().add_term(x_val, one);
        let lb = LinearCombination::zero().add_var(one);
        let lcc = LinearCombination::zero().add_var(x);
        cs.enforce(namec.as_str(), la, lb, lcc);
        proof {
            lemma_demo_reg_push(
                pre3.named_objects@,
                (cs.named_objects@.last()),
                (total + 1) as nat,
                total as nat,
                (total + 1) as nat,
                (total + 1) as nat,
            );
            lemma_closing_sat(pre3, *cs, one, x, x_val, total as int);
            assert forall|i: int| 0 <= i < cs.constraints@.len() implies cs.sat_at(i) by {
                if i < total {
                    assert(cs.constraints@.drop_last()[i] == cs.constraints@[i]);
                    lemma_sat_preserved(pre3, *cs, i);
                }
            }
        }
        Ok(())
    }
}

/// The weighted sum of a one-term combination is its coefficient times the
/// variable's assigned value.
proof fn lemma_esum_single(t: (Variable, nat), ins: Seq<nat>, axs: Seq<nat>)
    ensures
        crate::eval::esum(seq![t], ins, axs) == t.1 * crate::eval::var_value(t.0, ins, axs),
{
    let s = seq![t];
    assert(s.drop_last() =~= Seq::<(Variable, nat)>::empty());
    assert(s.last() == t);
    assert(crate::eval::esum(s, ins, axs) == crate::eval::esum(s.drop_last(), ins, axs)
        + crate::eval::term_value(t, ins, axs));
}

/// A constraint `x * x = x2`, recorded while `x` holds a value whose square
/// reduced is `x2`'s value, is satisfied.
proof fn lemma_single_term_sat(
    pre: TestConstraintSystem,
    post: TestConstraintSystem,
    x: Variable,
    x2: Variable,
    x_val: Fr,
    x2_val: Fr,
    t: int,
)
    requires
        x_val.wf(),
        x2_val.wf(),
        x2_val.as_nat() == (x_val.as_nat() * x_val.as_nat()) % fr_modulus(),
        val_of(pre, x) == x_val.as_nat(),
        val_of(pre, x2) == x2_val.as_nat(),
        post.inputs == pre.inputs,
        post.aux == pre.aux,
        0 <= t < post.constraints@.len(),
        post.constraints@[t].a@ == Seq::<(Variable, nat)>::empty().push((x, 1nat)),
        post.constraints@[t].b@ == Seq::<(Variable, nat)>::empty().push((x, 1nat)),
        post.constraints@[t].c@ == Seq::<(Variable, nat)>::empty().push((x2, 1nat)),
    ensures
        post.sat_at(t),
{
    let m = fr_modulus() as int;
    let ins = post.input_vals();
    let axs = post.aux_vals();
    let xv = x_val.as_nat() as int;
    lemma_esum_single((x, 1nat), ins, axs);
    lemma_esum_single((x2, 1nat), ins, axs);
    assert(crate::eval::var_value(x, ins, axs) == xv);
    assert(1 * crate::eval::var_value(x, ins, axs) == xv);
    assert(1 * crate::eval::var_value(x2, ins, axs) == x2_val.as_nat() as int);
    vstd::arithmetic::div_mod::lemma_small_mod(x_val.as_nat(), fr_modulus());
    vstd::arithmetic::div_mod::lemma_small_mod(x2_val.as_nat(), fr_modulus());
    assert(post.constraints@[t].a@ =~= seq![(x, 1nat)]);
    assert(post.constraints@[t].b@ =~= seq![(x, 1nat)]);
    assert(post.constraints@[t].c@ =~= seq![(x2, 1nat)]);
}

/// The closing constraint `v * ONE = x`, recorded while `x` holds exactly
/// the value `v`, is satisfied.
proof fn lemma_closing_sat(
    pre: TestConstraintSystem,
    post: TestConstraintSystem,
    one: Variable,
    x: Variable,
    x_val: Fr,
    t: int,
)
    requires
        pre.wf(),
        x_val.wf(),
        one == (Variable(Index::Input(0))),
        val_of(pre, x) == x_val.as_nat(),
        post.inputs == pre.inputs,
        post.aux == pre.aux,
        0 <= t < post.constraints@.len(),
        post.constraints@[t].a@ == Seq::<(Variable, nat)>::empty().push(
            (one, x_val.as_nat()),
        ),
        post.constraints@[t].b@ == Seq::<(Variable, nat)>::empty().push((one, 1nat)),
        post.constraints@[t].c@ == Seq::<(Variable, nat)>::empty().push((x, 1nat)),
    ensures
        post.sat_at(t),
{
    let m = fr_modulus() as int;
    let ins = post.input_vals();
    let axs = post.aux_vals();
    let xv = x_val.as_nat() as int;
    lemma_esum_single((one, x_val.as_nat()), ins, axs);
    lemma_esum_single((one, 1nat), ins, axs);
    lemma_esum_single((x, 1nat), ins, axs);
    assert(ins[0] == pre.inputs@[0].0.as_nat());
    assert(crate::eval::var_value(one, ins, axs) == 1);
    assert(x_val.as_nat() * 1 == xv);
    assert(1 * 1 == 1int);
    assert(1 * crate::eval::var_value(x, ins, axs) == xv);
    vstd::arithmetic::div_mod::lemma_small_mod(x_val.as_nat(), fr_modulus());
    vstd::arithmetic::div_mod::lemma_small_mod(1nat, fr_modulus());
    vstd::arithmetic::div_mod::lemma_mod_twice(xv, m);
    assert((xv % m) * 1 == xv % m);
    assert(post.constraints@[t].a@ =~= seq![(one, x_val.as_nat())]);
    assert(post.constraints@[t].b@ =~= seq![(one, 1nat)]);
    assert(post.constraints@[t].c@ =~= seq![(x, 1nat)]);
}

} // verus!
