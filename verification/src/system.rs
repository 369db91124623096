//! The reference constraint system: owns all variable, constraint, and
//! naming state, and exposes satisfiability checking, a deterministic
//! fingerprint, and path-addressed reading and overriding of witness values.
//! Every named object lives in one flat registry keyed by a globally unique
//! `/`-joined path; the namespace stack scopes the paths of newly created
//! objects.

use vstd::prelude::*;

verus! {

use vstd::string::StringExecFns;

use crate::error::SynthesisError;
use crate::eval::{esum, eval_lc, table_vals, table_wf, var_value, vars_in_range};
use crate::field::{fr_modulus, fr_mul, Fr};
use crate::lc::{Index, LinearCombination, Variable};

/// A registry entry: what lives at a resolved path.
#[derive(Clone, Copy, Debug, PartialEq, Eq, Structural)]
pub enum NamedObject {
    /// A recorded constraint, by its position in the constraint table.
    Constraint(usize),
    /// An allocated variable.
    Var(Variable),
    /// A namespace marker.
    Namespace,
}

/// One recorded constraint: `a * b = c` under the current assignment, plus
/// the human-readable path it was enforced under.
#[derive(Debug)]
pub struct Constraint {
    pub a: LinearCombination,
    pub b: LinearCombination,
    pub c: LinearCombination,
    pub path: String,
}

/// No character of the name is the path separator.
pub open spec fn no_slash(s: Seq<char>) -> bool {
    forall|i: int| 0 <= i < s.len() ==> s[i] != '/'
}

/// The `/`-joined path of a local name inside a namespace stack.
pub open spec fn join_path(ns: Seq<Seq<char>>, this: Seq<char>) -> Seq<char>
    decreases ns.len(),
{
    if ns.len() == 0 {
        this
    } else {
        ns[0] + seq!['/'] + join_path(ns.drop_first(), this)
    }
}

/// Some registry entry is keyed by the given path.
pub open spec fn reg_contains(s: Seq<(String, NamedObject)>, path: Seq<char>) -> bool {
    exists|i: int| 0 <= i < s.len() && (#[trigger] s[i]).0@ == path
}

/// The index of the entry keyed by the given path.
pub open spec fn reg_index(s: Seq<(String, NamedObject)>, path: Seq<char>) -> int {
    choose|i: int| 0 <= i < s.len() && (#[trigger] s[i]).0@ == path
}

/// The object registered at the given path.
pub open spec fn reg_lookup(s: Seq<(String, NamedObject)>, path: Seq<char>) -> NamedObject {
    s[reg_index(s, path)].1
}

/// Every path keys at most one entry.
pub open spec fn reg_unique(s: Seq<(String, NamedObject)>) -> bool {
    forall|i: int, j: int|
        0 <= i < j < s.len() ==> (#[trigger] s[i]).0@ != (#[trigger] s[j]).0@
}

/// In a unique registry, a matching entry at index `i` is the entry the
/// lookup finds.
pub proof fn lemma_reg_lookup_at(s: Seq<(String, NamedObject)>, path: Seq<char>, i: int)
    requires
        reg_unique(s),
        0 <= i < s.len(),
        s[i].0@ == path,
    ensures
        reg_contains(s, path),
        reg_index(s, path) == i,
        reg_lookup(s, path) == s[i].1,
{
    assert(reg_contains(s, path));
    let w = reg_index(s, path);
    if w != i {
        assert(s[w].0@ == path);
        assert(false);
    }
}

/// The variable registered at the given path.
pub open spec fn lookup_var(s: Seq<(String, NamedObject)>, path: Seq<char>) -> Variable {
    reg_lookup(s, path)->Var_0
}

/// Constraint system for testing purposes: the reference implementation
/// that bookkeeps variables, constraints and names, checks satisfiability,
/// and fingerprints the accumulated structure.
#[derive(Debug)]
pub struct TestConstraintSystem {
    pub named_objects: Vec<(String, NamedObject)>,
    pub current_namespace: Vec<String>,
    pub constraints: Vec<Constraint>,
    pub inputs: Vec<(Fr, String)>,
    pub aux: Vec<(Fr, String)>,
}

/// A constraint's combinations are canonical-coefficient and refer only to
/// existing slots.
pub open spec fn constraint_ok(c: Constraint, n_inputs: nat, n_aux: nat) -> bool {
    &&& c.a.wf()
    &&& c.b.wf()
    &&& c.c.wf()
    &&& vars_in_range(c.a@, n_inputs, n_aux)
    &&& vars_in_range(c.b@, n_inputs, n_aux)
    &&& vars_in_range(c.c@, n_inputs, n_aux)
}

/// A registry object refers only to existing state.
pub open spec fn named_object_ok(
    o: NamedObject,
    n_inputs: nat,
    n_aux: nat,
    n_constraints: nat,
) -> bool {
    match o {
        NamedObject::Constraint(k) => (k as nat) < n_constraints,
        NamedObject::Var(v) => match v.0 {
            Index::Input(k) => (k as nat) < n_inputs,
            Index::Aux(k) => (k as nat) < n_aux,
        },
        NamedObject::Namespace => true,
    }
}

impl TestConstraintSystem {
    /// The namespace stack as a sequence of names.
    pub open spec fn ns_view(&self) -> Seq<Seq<char>> {
        self.current_namespace@.map_values(|s: String| s@)
    }

    /// The values currently assigned to the public inputs.
    pub open spec fn input_vals(&self) -> Seq<nat> {
        table_vals(self.inputs@)
    }

    /// The values currently assigned to the auxiliary variables.
    pub open spec fn aux_vals(&self) -> Seq<nat> {
        table_vals(self.aux@)
    }

    /// Structural invariant: paths are unique; field values are canonical;
    /// the fixed slot 0 of the inputs holds field one under the reserved
    /// name; constraints and registry entries refer only to existing slots;
    /// namespace segments are free of the separator.
    pub open spec fn wf(&self) -> bool {
        &&& reg_unique(self.named_objects@)
        &&& table_wf(self.inputs@)
        &&& table_wf(self.aux@)
        &&& self.inputs@.len() >= 1
        &&& self.inputs@[0].0.as_nat() == 1
        &&& self.inputs@[0].1@ == "ONE"@
        &&& forall|i: int|
            0 <= i < self.constraints@.len() ==> constraint_ok(
                #[trigger] self.constraints@[i],
                self.inputs@.len() as nat,
                self.aux@.len() as nat,
            )
        &&& forall|i: int|
            0 <= i < self.named_objects@.len() ==> named_object_ok(
                (#[trigger] self.named_objects@[i]).1,
                self.inputs@.len() as nat,
                self.aux@.len() as nat,
                self.constraints@.len() as nat,
            )
        &&& forall|i: int|
            0 <= i < self.current_namespace@.len() ==> no_slash(
                (#[trigger] self.current_namespace@[i])@,
            )
    }

    /// The fixed reference to the constant-one input slot.
    pub fn one() -> (r: Variable)
        ensures
            r == (Variable(Index::Input(0))),
    {
        Variable::new_unchecked(Index::Input(0))
    }

    /// Whether two independently synthesized systems can be concatenated
    /// onto this one; this implementation does not support it.
    pub fn is_extensible() -> (r: bool)
        ensures
            !r,
    {
        false
    }

    /// A fresh system: only the constant-one input, registered under the
    /// reserved path, with no constraints and an empty namespace stack.
    pub fn new() -> (r: TestConstraintSystem)
        ensures
            r.wf(),
            r.named_objects@.len() == 1,
            r.named_objects@[0].0@ == "ONE"@,
            r.named_objects@[0].1 == NamedObject::Var(Variable(Index::Input(0))),
            r.current_namespace@.len() == 0,
            r.constraints@.len() == 0,
            r.inputs@.len() == 1,
            r.inputs@[0].0.as_nat() == 1,
            r.inputs@[0].1@ == "ONE"@,
            r.aux@.len() == 0,
    {
        let one_var = NamedObject::Var(Variable::new_unchecked(Index::Input(0)));
        let mut named_objects: Vec<(String, NamedObject)> = Vec::new();
        named_objects.push(("ONE".to_owned(), one_var));
        let mut inputs: Vec<(Fr, String)> = Vec::new();
        inputs.push((Fr::one(), "ONE".to_owned()));
        TestConstraintSystem {
            named_objects,
            current_namespace: Vec::new(),
            constraints: Vec::new(),
            inputs,
            aux: Vec::new(),
        }
    }

    /// The number of recorded constraints.
    pub fn num_constraints(&self) -> (r: usize)
        ensures
            r == self.constraints@.len(),
    {
        self.constraints.len()
    }

    /// The number of input slots, the constant one included.
    pub fn num_inputs(&self) -> (r: usize)
        ensures
            r == self.inputs@.len(),
    {
        self.inputs.len()
    }

    /// Registers an object at a path that must not be taken yet.
    fn set_named_obj(&mut self, path: String, to: NamedObject)
        requires
            reg_unique(old(self).named_objects@),
            !reg_contains(old(self).named_objects@, path@),
        ensures
            final(self).named_objects@ == old(self).named_objects@.push((path, to)),
            reg_unique(final(self).named_objects@),
            final(self).current_namespace == old(self).current_namespace,
            final(self).constraints == old(self).constraints,
            final(self).inputs == old(self).inputs,
            final(self).aux == old(self).aux,
    {
        let ghost pre = self.named_objects@;
        self.named_objects.push((path, to));
        proof {
            let reg = self.named_objects@;
            assert forall|i: int, j: int| 0 <= i < j < reg.len() implies (#[trigger] reg[i]).0@
                != (#[trigger] reg[j]).0@ by {
                if j == reg.len() - 1 {
                    assert(reg[i] == pre[i]);
                    if reg[i].0@ == path@ {
                        assert(reg_contains(pre, path@));
                    }
                }
            }
        }
    }

    /// Enters a sub-namespace: registers a namespace marker at the resolved
    /// path and extends the stack.
    pub fn push_namespace(&mut self, name: &str)
        requires
            old(self).wf(),
            no_slash(name@),
            !reg_contains(
                old(self).named_objects@,
                join_path(old(self).ns_view(), name@),
            ),
        ensures
            final(self).wf(),
            final(self).current_namespace@.len() == old(self).current_namespace@.len() + 1,
            final(self).ns_view() == old(self).ns_view().push(name@),
            final(self).named_objects@.len() == old(self).named_objects@.len() + 1,
            final(self).named_objects@.drop_last() == old(self).named_objects@,
            final(self).named_objects@.last().0@ == join_path(old(self).ns_view(), name@),
            final(self).named_objects@.last().1 == NamedObject::Namespace,
            final(self).constraints == old(self).constraints,
            final(self).inputs == old(self).inputs,
            final(self).aux == old(self).aux,
    {
        let path = compute_path(&self.current_namespace, name);
        self.set_named_obj(path, NamedObject::Namespace);
        let ghost pre_ns = self.current_namespace@;
        self.current_namespace.push(name.to_owned());
        proof {
            assert(self.current_namespace@.drop_last() =~= pre_ns);
            assert(self.ns_view() =~= old(self).ns_view().push(name@));
            assert(self.named_objects@.drop_last() =~= old(self).named_objects@);
            assert forall|i: int|
                0 <= i < self.named_objects@.len() implies named_object_ok(
                (#[trigger] self.named_objects@[i]).1,
                self.inputs@.len() as nat,
                self.aux@.len() as nat,
                self.constraints@.len() as nat,
            ) by {
                if i < self.named_objects@.len() - 1 {
                    assert(self.named_objects@[i] == old(self).named_objects@[i]);
                }
            }
        }
    }

    /// Leaves the innermost namespace, which must exist.
    pub fn pop_namespace(&mut self)
        requires
            old(self).wf(),
            old(self).current_namespace@.len() > 0,
        ensures
            final(self).wf(),
            final(self).current_namespace@ == old(self).current_namespace@.drop_last(),
            final(self).ns_view() == old(self).ns_view().drop_last(),
            final(self).named_objects == old(self).named_objects,
            final(self).constraints == old(self).constraints,
            final(self).inputs == old(self).inputs,
            final(self).aux == old(self).aux,
    {
        let popped = self.current_namespace.pop();
        proof {
            assert(old(self).current_namespace@.drop_last() =~= self.current_namespace@);
            assert(self.ns_view() =~= old(self).ns_view().drop_last());
        }
    }
}

/// Monotonicity of slot ranges: a sequence whose variables fit in smaller
/// tables fits in larger ones.
proof fn lemma_vars_in_range_mono(s: Seq<(Variable, nat)>, n1: nat, m1: nat, n2: nat, m2: nat)
    requires
        vars_in_range(s, n1, m1),
        n1 <= n2,
        m1 <= m2,
    ensures
        vars_in_range(s, n2, m2),
{
    assert forall|i: int| 0 <= i < s.len() implies match (#[trigger] s[i]).0.0 {
        Index::Input(k) => (k as nat) < n2,
        Index::Aux(k) => (k as nat) < m2,
    } by {
        assert(match s[i].0.0 {
            Index::Input(k) => (k as nat) < n1,
            Index::Aux(k) => (k as nat) < m1,
        });
    }
}

/// A constraint satisfies `a * b = c` under the given assignment, in the
/// field.
pub open spec fn constraint_satisfied(c: Constraint, ins: Seq<nat>, axs: Seq<nat>) -> bool {
    let m = fr_modulus() as int;
    ((esum(c.a@, ins, axs) % m) * (esum(c.b@, ins, axs) % m)) % m == esum(c.c@, ins, axs) % m
}

impl TestConstraintSystem {
    /// Growing the tables and constraint list keeps every old constraint and
    /// registry entry valid.
    proof fn lemma_wf_grow(pre: TestConstraintSystem, post: TestConstraintSystem)
        requires
            pre.wf(),
            pre.inputs@.len() <= post.inputs@.len(),
            pre.aux@.len() <= post.aux@.len(),
        ensures
            forall|i: int|
                0 <= i < pre.constraints@.len() ==> constraint_ok(
                    #[trigger] pre.constraints@[i],
                    post.inputs@.len() as nat,
                    post.aux@.len() as nat,
                ),
            forall|i: int|
                0 <= i < pre.named_objects@.len() ==> named_object_ok(
                    (#[trigger] pre.named_objects@[i]).1,
                    post.inputs@.len() as nat,
                    post.aux@.len() as nat,
                    pre.constraints@.len() as nat + 1,
                ),
            forall|i: int|
                0 <= i < pre.named_objects@.len() ==> named_object_ok(
                    (#[trigger] pre.named_objects@[i]).1,
                    post.inputs@.len() as nat,
                    post.aux@.len() as nat,
                    pre.constraints@.len() as nat,
                ),
    {
        assert forall|i: int| 0 <= i < pre.constraints@.len() implies constraint_ok(
            #[trigger] pre.constraints@[i],
            post.inputs@.len() as nat,
            post.aux@.len() as nat,
        ) by {
            let c = pre.constraints@[i];
            lemma_vars_in_range_mono(
                c.a@,
                pre.inputs@.len() as nat,
                pre.aux@.len() as nat,
                post.inputs@.len() as nat,
                post.aux@.len() as nat,
            );
            lemma_vars_in_range_mono(
                c.b@,
                pre.inputs@.len() as nat,
                pre.aux@.len() as nat,
                post.inputs@.len() as nat,
                post.aux@.len() as nat,
            );
            lemma_vars_in_range_mono(
                c.c@,
                pre.inputs@.len() as nat,
                pre.aux@.len() as nat,
                post.inputs@.len() as nat,
                post.aux@.len() as nat,
            );
        }
    }

    /// Allocates a private (auxiliary) variable under the resolved path,
    /// with its value computed eagerly by the caller; a failed witness
    /// computation aborts the allocation and leaves the system unchanged.
    pub fn alloc_aux(&mut self, name: &str, value: Result<Fr, SynthesisError>) -> (r: Result<
        Variable,
        SynthesisError,
    >)
        requires
            old(self).wf(),
            no_slash(name@),
            !reg_contains(old(self).named_objects@, join_path(old(self).ns_view(), name@)),
            value matches Ok(v) ==> v.wf(),
        ensures
            final(self).wf(),
            value is Err ==> *final(self) == *old(self) && r == Err::<Variable, SynthesisError>(
                value->Err_0,
            ),
            value matches Ok(v) ==> {
                &&& r == Ok::<Variable, SynthesisError>(
                    Variable(Index::Aux(old(self).aux@.len() as usize)),
                )
                &&& final(self).aux@.len() == old(self).aux@.len() + 1
                &&& final(self).aux@.drop_last() == old(self).aux@
                &&& final(self).aux@.last().0 == v
                &&& final(self).aux@.last().1@ == join_path(old(self).ns_view(), name@)
                &&& final(self).named_objects@.len() == old(self).named_objects@.len() + 1
                &&& final(self).named_objects@.drop_last() == old(self).named_objects@
                &&& final(self).named_objects@.last().0@ == join_path(
                    old(self).ns_view(),
                    name@,
                )
                &&& final(self).named_objects@.last().1 == NamedObject::Var(
                    Variable(Index::Aux(old(self).aux@.len() as usize)),
                )
                &&& final(self).inputs == old(self).inputs
                &&& final(self).constraints == old(self).constraints
                &&& final(self).current_namespace == old(self).current_namespace
            },
    {
        let index = self.aux.len();
        let path = compute_path(&self.current_namespace, name);
        let v = match value {
            Ok(v) => v,
            Err(e) => {
                return Err(e);
            },
        };
        let path_for_reg = path.clone();
        let ghost pre = *self;
        self.aux.push((v, path));
        let var = Variable::new_unchecked(Index::Aux(index));
        self.set_named_obj(path_for_reg, NamedObject::Var(var));
        proof {
            assert(self.aux@.drop_last() =~= pre.aux@);
            assert(self.named_objects@.drop_last() =~= pre.named_objects@);
            Self::lemma_wf_grow(pre, *self);
        }
        Ok(var)
    }

    /// Allocates a public input variable under the resolved path; the order
    /// of these calls (after the fixed slot 0) defines the external
    /// public-input vector.
    pub fn alloc_input(&mut self, name: &str, value: Result<Fr, SynthesisError>) -> (r: Result<
        Variable,
        SynthesisError,
    >)
        requires
            old(self).wf(),
            no_slash(name@),
            !reg_contains(old(self).named_objects@, join_path(old(self).ns_view(), name@)),
            value matches Ok(v) ==> v.wf(),
        ensures
            final(self).wf(),
            value is Err ==> *final(self) == *old(self) && r == Err::<Variable, SynthesisError>(
                value->Err_0,
            ),
            value matches Ok(v) ==> {
                &&& r == Ok::<Variable, SynthesisError>(
                    Variable(Index::Input(old(self).inputs@.len() as usize)),
                )
                &&& final(self).inputs@.len() == old(self).inputs@.len() + 1
                &&& final(self).inputs@.drop_last() == old(self).inputs@
                &&& final(self).inputs@.last().0 == v
                &&& final(self).inputs@.last().1@ == join_path(old(self).ns_view(), name@)
                &&& final(self).named_objects@.len() == old(self).named_objects@.len() + 1
                &&& final(self).named_objects@.drop_last() == old(self).named_objects@
                &&& final(self).named_objects@.last().0@ == join_path(
                    old(self).ns_view(),
                    name@,
                )
                &&& final(self).named_objects@.last().1 == NamedObject::Var(
                    Variable(Index::Input(old(self).inputs@.len() as usize)),
                )
                &&& final(self).aux == old(self).aux
                &&& final(self).constraints == old(self).constraints
                &&& final(self).current_namespace == old(self).current_namespace
            },
    {
        let index = self.inputs.len();
        let path = compute_path(&self.current_namespace, name);
        let v = match value {
            Ok(v) => v,
            Err(e) => {
                return Err(e);
            },
        };
        let path_for_reg = path.clone();
        let ghost pre = *self;
        self.inputs.push((v, path));
        let var = Variable::new_unchecked(Index::Input(index));
        self.set_named_obj(path_for_reg, NamedObject::Var(var));
        proof {
            assert(self.inputs@.drop_last() =~= pre.inputs@);
            assert(self.named_objects@.drop_last() =~= pre.named_objects@);
            assert(self.inputs@[0] == pre.inputs@[0]);
            Self::lemma_wf_grow(pre, *self);
        }
        Ok(var)
    }

    /// Records the constraint `a * b = c` under the resolved path. The
    /// combinations are the populated accumulators the caller's builders
    /// returned, each starting from the empty combination.
    pub fn enforce(
        &mut self,
        name: &str,
        a: LinearCombination,
        b: LinearCombination,
        c: LinearCombination,
    )
        requires
            old(self).wf(),
            no_slash(name@),
            !reg_contains(old(self).named_objects@, join_path(old(self).ns_view(), name@)),
            a.wf(),
            b.wf(),
            c.wf(),
            vars_in_range(a@, old(self).inputs@.len() as nat, old(self).aux@.len() as nat),
            vars_in_range(b@, old(self).inputs@.len() as nat, old(self).aux@.len() as nat),
            vars_in_range(c@, old(self).inputs@.len() as nat, old(self).aux@.len() as nat),
        ensures
            final(self).wf(),
            final(self).constraints@.len() == old(self).constraints@.len() + 1,
            final(self).constraints@.drop_last() == old(self).constraints@,
            final(self).constraints@.last().a == a,
            final(self).constraints@.last().b == b,
            final(self).constraints@.last().c == c,
            final(self).constraints@.last().path@ == join_path(old(self).ns_view(), name@),
            final(self).named_objects@.len() == old(self).named_objects@.len() + 1,
            final(self).named_objects@.drop_last() == old(self).named_objects@,
            final(self).named_objects@.last().0@ == join_path(old(self).ns_view(), name@),
            final(self).named_objects@.last().1 == NamedObject::Constraint(
                old(self).constraints@.len() as usize,
            ),
            final(self).inputs == old(self).inputs,
            final(self).aux == old(self).aux,
            final(self).current_namespace == old(self).current_namespace,
    {
        let path = compute_path(&self.current_namespace, name);
        let index = self.constraints.len();
        let path_for_reg = path.clone();
        let ghost pre = *self;
        self.set_named_obj(path_for_reg, NamedObject::Constraint(index));
        self.constraints.push(Constraint { a, b, c, path });
        proof {
            assert(self.constraints@.drop_last() =~= pre.constraints@);
            assert(self.named_objects@.drop_last() =~= pre.named_objects@);
            Self::lemma_wf_grow(pre, *self);
            assert forall|i: int| 0 <= i < self.named_objects@.len() implies named_object_ok(
                (#[trigger] self.named_objects@[i]).1,
                self.inputs@.len() as nat,
                self.aux@.len() as nat,
                self.constraints@.len() as nat,
            ) by {
                if i < self.named_objects@.len() - 1 {
                    assert(self.named_objects@[i] == pre.named_objects@[i]);
                }
            }
        }
    }

    /// Whether any object is registered at the given path.
    pub fn has_path(&self, path: &str) -> (r: bool)
        ensures
            r == reg_contains(self.named_objects@, path@),
    {
        let p: String = path.to_owned();
        let n = self.named_objects.len();
        let mut i: usize = 0;
        while i < n
            invariant
                i <= n,
                n == self.named_objects@.len(),
                p@ == path@,
                forall|j: int| 0 <= j < i ==> (#[trigger] self.named_objects@[j]).0@ != path@,
            decreases n - i,
        {
            if self.named_objects[i].0 == p {
                return true;
            }
            i += 1;
        }
        false
    }

    /// Reads the value of input slot `index`, whose recorded path must match
    /// the given one.
    pub fn get_input(&mut self, index: usize, path: &str) -> (r: Fr)
        requires
            old(self).wf(),
            index < old(self).inputs@.len(),
            old(self).inputs@[index as int].1@ == path@,
        ensures
            *final(self) == *old(self),
            r == old(self).inputs@[index as int].0,
    {
        self.inputs[index].0
    }

    /// Reads the witness value backing the variable registered at `path`,
    /// which must name a variable.
    pub fn get(&mut self, path: &str) -> (r: Fr)
        requires
            old(self).wf(),
            reg_contains(old(self).named_objects@, path@),
            reg_lookup(old(self).named_objects@, path@) is Var,
        ensures
            *final(self) == *old(self),
            r.wf(),
            r.as_nat() == var_value(
                lookup_var(old(self).named_objects@, path@),
                old(self).input_vals(),
                old(self).aux_vals(),
            ),
    {
        let p: String = path.to_owned();
        let n = self.named_objects.len();
        let mut i: usize = 0;
        while i < n
            invariant
                i <= n,
                n == self.named_objects@.len(),
                *self == *old(self),
                p@ == path@,
                old(self).wf(),
                reg_contains(old(self).named_objects@, path@),
                reg_lookup(old(self).named_objects@, path@) is Var,
                forall|j: int| 0 <= j < i ==> (#[trigger] self.named_objects@[j]).0@ != path@,
            decreases n - i,
        {
            if self.named_objects[i].0 == p {
                let obj = self.named_objects[i].1;
                proof {
                    lemma_reg_lookup_at(self.named_objects@, path@, i as int);
                }
                match obj {
                    NamedObject::Var(v) => {
                        let r = match v.get_unchecked() {
                            Index::Input(k) => self.inputs[k].0,
                            Index::Aux(k) => self.aux[k].0,
                        };
                        return r;
                    },
                    _ => {
                        proof {
                            assert(false);
                        }
                        return Fr::zero();
                    },
                }
            }
            i += 1;
        }
        proof {
            assert(!reg_contains(old(self).named_objects@, path@));
            assert(false);
        }
        Fr::zero()
    }

    /// Overrides the witness value backing the variable registered at
    /// `path`, which must name a variable other than the fixed constant-one
    /// slot; the structure of the system is untouched.
    pub fn set(&mut self, path: &str, to: Fr)
        requires
            old(self).wf(),
            to.wf(),
            reg_contains(old(self).named_objects@, path@),
            reg_lookup(old(self).named_objects@, path@) is Var,
            lookup_var(old(self).named_objects@, path@) != (Variable(Index::Input(0))),
        ensures
            final(self).wf(),
            final(self).named_objects == old(self).named_objects,
            final(self).constraints == old(self).constraints,
            final(self).current_namespace == old(self).current_namespace,
            match lookup_var(old(self).named_objects@, path@).0 {
                Index::Input(k) => final(self).inputs@ == old(self).inputs@.update(
                    k as int,
                    (to, old(self).inputs@[k as int].1),
                ) && final(self).aux == old(self).aux,
                Index::Aux(k) => final(self).aux@ == old(self).aux@.update(
                    k as int,
                    (to, old(self).aux@[k as int].1),
                ) && final(self).inputs == old(self).inputs,
            },
    {
        let p: String = path.to_owned();
        let n = self.named_objects.len();
        let mut i: usize = 0;
        while i < n
            invariant
                i <= n,
                n == self.named_objects@.len(),
                *self == *old(self),
                p@ == path@,
                old(self).wf(),
                to.wf(),
                reg_contains(old(self).named_objects@, path@),
                reg_lookup(old(self).named_objects@, path@) is Var,
                lookup_var(old(self).named_objects@, path@) != (Variable(Index::Input(0))),
                forall|j: int| 0 <= j < i ==> (#[trigger] self.named_objects@[j]).0@ != path@,
            decreases n - i,
        {
            if self.named_objects[i].0 == p {
                let obj = self.named_objects[i].1;
                proof {
                    lemma_reg_lookup_at(self.named_objects@, path@, i as int);
                }
                match obj {
                    NamedObject::Var(v) => {
                        match v.get_unchecked() {
                            Index::Input(k) => {
                                let entry_path = self.inputs[k].1.clone();
                                self.inputs[k] = (to, entry_path);
                            },
                            Index::Aux(k) => {
                                let entry_path = self.aux[k].1.clone();
                                self.aux[k] = (to, entry_path);
                            },
                        };
                        proof {
                            assert(self.inputs@.len() == old(self).inputs@.len());
                            assert(self.aux@.len() == old(self).aux@.len());
                            assert(self.inputs@[0].0.as_nat() == 1 && self.inputs@[0].1@
                                == "ONE"@) by {
                                assert(v.0 != Index::Input(0));
                            }
                        }
                        return ;
                    },
                    _ => {
                        proof {
                            assert(false);
                        }
                        return ;
                    },
                }
            }
            i += 1;
        }
        proof {
            assert(!reg_contains(old(self).named_objects@, path@));
            assert(false);
        }
    }

    /// Elementwise comparison of the public inputs after the fixed slot 0
    /// against the expected vector, which must account for every input.
    pub fn verify(&self, expected: &Vec<Fr>) -> (r: bool)
        requires
            self.wf(),
            expected@.len() + 1 == self.inputs@.len(),
            forall|i: int| 0 <= i < expected@.len() ==> (#[trigger] expected@[i]).wf(),
        ensures
            r == (forall|i: int|
                0 <= i < expected@.len() ==> (#[trigger] expected@[i]).as_nat()
                    == self.input_vals()[i + 1]),
    {
        let n = expected.len();
        let mut i: usize = 0;
        while i < n
            invariant
                i <= n,
                n == expected@.len(),
                self.wf(),
                expected@.len() + 1 == self.inputs@.len(),
                forall|k: int| 0 <= k < expected@.len() ==> (#[trigger] expected@[k]).wf(),
                forall|k: int|
                    0 <= k < i ==> (#[trigger] expected@[k]).as_nat() == self.input_vals()[k + 1],
            decreases n - i,
        {
            let same = self.inputs[i + 1].0 == expected[i];
            if !same {
                proof {
                    if expected@[i as int].as_nat() == self.input_vals()[i + 1] {
                        crate::field::lemma_fr_nat_injective(
                            self.inputs@[i + 1].0,
                            expected@[i as int],
                        );
                    }
                }
                return false;
            }
            i += 1;
        }
        true
    }

    /// Whether the constraint at the given position holds under the current
    /// assignments.
    pub open spec fn sat_at(&self, i: int) -> bool {
        constraint_satisfied(self.constraints@[i], self.input_vals(), self.aux_vals())
    }

    /// Walks the constraints in insertion order and reports the path of the
    /// first one whose `a * b = c` does not hold under the current
    /// assignments; later failures are not reported in the same call.
    pub fn which_is_unsatisfied(&self) -> (r: Option<String>)
        requires
            self.wf(),
        ensures
            r is None <==> (forall|i: int| 0 <= i < self.constraints@.len() ==> self.sat_at(i)),
            r matches Some(p) ==> exists|i: int|
                {
                    &&& 0 <= i < self.constraints@.len()
                    &&& !self.sat_at(i)
                    &&& (forall|j: int| 0 <= j < i ==> self.sat_at(j))
                    &&& p@ == (#[trigger] self.constraints@[i]).path@
                },
    {
        let n = self.constraints.len();
        let mut i: usize = 0;
        while i < n
            invariant
                i <= n,
                n == self.constraints@.len(),
                self.wf(),
                forall|j: int| 0 <= j < i ==> self.sat_at(j),
            decreases n - i,
        {
            let ct = &self.constraints[i];
            proof {
                assert(constraint_ok(
                    self.constraints@[i as int],
                    self.inputs@.len() as nat,
                    self.aux@.len() as nat,
                ));
            }
            let av = eval_lc(&ct.a, &self.inputs, &self.aux);
            let bv = eval_lc(&ct.b, &self.inputs, &self.aux);
            let cv = eval_lc(&ct.c, &self.inputs, &self.aux);
            let prod = fr_mul(&av, &bv);
            let same = prod == cv;
            if !same {
                proof {
                    if self.sat_at(i as int) {
                        crate::field::lemma_fr_nat_injective(prod, cv);
                    }
                }
                return Some(ct.path.clone());
            }
            proof {
                assert(prod.as_nat() == cv.as_nat());
                assert(self.sat_at(i as int));
            }
            i += 1;
        }
        None
    }

    /// Whether every recorded constraint satisfies `a * b = c` under the
    /// current assignments.
    pub fn is_satisfied(&self) -> (r: bool)
        requires
            self.wf(),
        ensures
            r == (forall|i: int| 0 <= i < self.constraints@.len() ==> self.sat_at(i)),
    {
        let w = self.which_is_unsatisfied();
        w.is_none()
    }
}

/// Satisfaction of a recorded constraint is stable under pure growth: as
/// long as a constraint itself and every slot it refers to are unchanged,
/// appending new slots or constraints cannot change whether it holds.
pub proof fn lemma_sat_preserved(pre: TestConstraintSystem, post: TestConstraintSystem, i: int)
    requires
        pre.wf(),
        0 <= i < pre.constraints@.len(),
        i < post.constraints@.len(),
        post.constraints@[i] == pre.constraints@[i],
        pre.sat_at(i),
        pre.inputs@.len() <= post.inputs@.len(),
        pre.aux@.len() <= post.aux@.len(),
        forall|j: int| 0 <= j < pre.inputs@.len() ==> post.inputs@[j] == pre.inputs@[j],
        forall|j: int| 0 <= j < pre.aux@.len() ==> post.aux@[j] == pre.aux@[j],
    ensures
        post.sat_at(i),
{
    let c = pre.constraints@[i];
    assert(constraint_ok(c, pre.inputs@.len() as nat, pre.aux@.len() as nat));
    assert forall|j: int| 0 <= j < pre.input_vals().len() implies post.input_vals()[j]
        == pre.input_vals()[j] by {
        assert(post.inputs@[j] == pre.inputs@[j]);
    }
    assert forall|j: int| 0 <= j < pre.aux_vals().len() implies post.aux_vals()[j]
        == pre.aux_vals()[j] by {
        assert(post.aux@[j] == pre.aux@[j]);
    }
    crate::eval::lemma_esum_extend(
        c.a@,
        pre.input_vals(),
        pre.aux_vals(),
        post.input_vals(),
        post.aux_vals(),
    );
    crate::eval::lemma_esum_extend(
        c.b@,
        pre.input_vals(),
        pre.aux_vals(),
        post.input_vals(),
        post.aux_vals(),
    );
    crate::eval::lemma_esum_extend(
        c.c@,
        pre.input_vals(),
        pre.aux_vals(),
        post.input_vals(),
        post.aux_vals(),
    );
}

/// After overriding the value at a previously allocated variable path,
/// reading that path yields exactly the value written: the contract of
/// `set` composed with the contract of `get`.
pub proof fn lemma_get_after_set(
    pre: TestConstraintSystem,
    post: TestConstraintSystem,
    path: Seq<char>,
    to: Fr,
)
    requires
        pre.wf(),
        to.wf(),
        reg_contains(pre.named_objects@, path),
        reg_lookup(pre.named_objects@, path) is Var,
        lookup_var(pre.named_objects@, path) != (Variable(Index::Input(0))),
        post.named_objects == pre.named_objects,
        match lookup_var(pre.named_objects@, path).0 {
            Index::Input(k) => post.inputs@ == pre.inputs@.update(
                k as int,
                (to, pre.inputs@[k as int].1),
            ) && post.aux == pre.aux,
            Index::Aux(k) => post.aux@ == pre.aux@.update(
                k as int,
                (to, pre.aux@[k as int].1),
            ) && post.inputs == pre.inputs,
        },
    ensures
        var_value(lookup_var(post.named_objects@, path), post.input_vals(), post.aux_vals())
            == to.as_nat(),
{
    let v = lookup_var(pre.named_objects@, path);
    let w = reg_index(pre.named_objects@, path);
    assert(named_object_ok(
        pre.named_objects@[w].1,
        pre.inputs@.len() as nat,
        pre.aux@.len() as nat,
        pre.constraints@.len() as nat,
    ));
    match v.0 {
        Index::Input(k) => {
            assert(post.input_vals() =~= pre.input_vals().update(k as int, to.as_nat()));
        },
        Index::Aux(k) => {
            assert(post.aux_vals() =~= pre.aux_vals().update(k as int, to.as_nat()));
        },
    }
}

/// Resolves a local name against a namespace stack: the stack's segments and
/// the name, joined by `/`. The name must not contain the separator.
pub fn compute_path(ns: &Vec<String>, this: &str) -> (r: String)
    requires
        no_slash(this@),
    ensures
        r@ == join_path(ns@.map_values(|s: String| s@), this@),
{
    let ghost segs = ns@.map_values(|s: String| s@);
    let mut name = String::new();
    let n = ns.len();
    let mut i: usize = 0;
    proof {
        assert(segs.subrange(0, n as int) =~= segs);
    }
    while i < n
        invariant
            i <= n,
            n == ns@.len(),
            segs == ns@.map_values(|s: String| s@),
            name@ + join_path(segs.subrange(i as int, n as int), this@) == join_path(
                segs,
                this@,
            ),
        decreases n - i,
    {
        let ghost pre = name@;
        name.append(ns[i].as_str());
        name.append("/");
        proof {
            reveal_strlit("/");
            assert("/"@ =~= seq!['/']);
            let rest = segs.subrange(i as int, n as int);
            assert(rest.drop_first() =~= segs.subrange(i + 1, n as int));
            assert(rest[0] == segs[i as int]);
            assert(join_path(rest, this@) == segs[i as int] + seq!['/'] + join_path(
                segs.subrange(i + 1, n as int),
                this@,
            ));
            assert(name@ =~= pre + segs[i as int] + seq!['/']);
            assert(name@ + join_path(segs.subrange(i + 1, n as int), this@) =~= pre + join_path(
                rest,
                this@,
            ));
        }
        i += 1;
    }
    proof {
        assert(segs.subrange(n as int, n as int) =~= Seq::<Seq<char>>::empty());
        assert(join_path(segs.subrange(n as int, n as int), this@) == this@);
    }
    name.append(this);
    name
}

} // verus!
