//! A rank-1 constraint system: variables with values that a prover knows and a
//! verifier does not, multiplication gates and linear constraints.
use vstd::prelude::*;
use crate::field::{Fe, fmul, fe_mul};
use crate::lc::{LinearCombination, assignment, known_wf, lemma_terms_sum_frame};

verus! {

/// One constraint of the system.
pub enum Gate {
    /// Wires `l`, `r`, `o` with `l = left`, `r = right` and `o = l * r`.
    Multiply { left: LinearCombination, right: LinearCombination, l: usize, r: usize, o: usize },
    /// The value on wire `value` is not zero; `inverse` holds its inverse.
    Nonzero { value: usize, inverse: usize },
    /// The combination equals the constant.
    Equal { lc: LinearCombination, constant: Fe },
}

/// Whether `g` names only variables below `n`, with canonical coefficients.
pub open spec fn gate_wf(g: Gate, n: nat) -> bool {
    match g {
        Gate::Multiply { left, right, l, r, o } => left.wf(n) && right.wf(n) && l < n && r < n && o < n,
        Gate::Nonzero { value, inverse } => value < n && inverse < n,
        Gate::Equal { lc, constant } => lc.wf(n) && constant.wf(),
    }
}

/// Whether `g` holds under the assignment `w`.
pub open spec fn gate_holds(g: Gate, w: Seq<nat>) -> bool {
    match g {
        Gate::Multiply { left, right, l, r, o } => w[l as int] == left.eval(w) && w[r as int]
            == right.eval(w) && w[o as int] == fmul(w[l as int], w[r as int]),
        Gate::Nonzero { value, inverse } => w[value as int] != 0 && fmul(
            w[value as int],
            w[inverse as int],
        ) == 1,
        Gate::Equal { lc, constant } => lc.eval(w) == constant.value(),
    }
}

/// Why a gadget could not be built.
#[derive(Clone, Copy, Debug, PartialEq, Eq, Structural)]
pub enum CircuitError {
    /// The inverse S-box met a known zero: the non-zero proof cannot be made.
    GadgetError,
}

/// A constraint system under construction: the variables, with their values
/// where known, and the gates.
pub struct Circuit {
    pub witness: Vec<Option<Fe>>,
    pub gates: Vec<Gate>,
    /// Whether this is the prover's system, which knows every value, or the
    /// verifier's, which knows none.
    pub prover: bool,
}

impl Circuit {
    /// The values of the variables, zero where unknown.
    pub open spec fn vals(&self) -> Seq<nat> {
        assignment(self.witness@)
    }

    /// The prover's system: every variable's value is known.
    pub open spec fn all_known(&self) -> bool {
        &&& self.prover
        &&& forall|i: int| 0 <= i < self.witness@.len() ==> (#[trigger] self.witness@[i]).is_some()
    }

    /// The verifier's system: no variable's value is known.
    pub open spec fn all_unknown(&self) -> bool {
        &&& !self.prover
        &&& forall|i: int| 0 <= i < self.witness@.len() ==> (#[trigger] self.witness@[i]).is_none()
    }

    pub open spec fn wf(&self) -> bool {
        &&& self.all_known() || self.all_unknown()
        &&& known_wf(self.witness@)
        &&& forall|g: int|
            0 <= g < self.gates@.len() ==> gate_wf(#[trigger] self.gates@[g], self.witness@.len() as nat)
    }

    /// `self` is `old` with variables and gates appended.
    pub open spec fn extends(&self, old: &Circuit) -> bool {
        &&& self.witness@.len() >= old.witness@.len()
        &&& self.witness@.subrange(0, old.witness@.len() as int) == old.witness@
        &&& self.gates@.len() >= old.gates@.len()
        &&& self.gates@.subrange(0, old.gates@.len() as int) == old.gates@
    }

    /// Every gate holds under the values.
    pub open spec fn gates_hold(&self) -> bool {
        forall|g: int| 0 <= g < self.gates@.len() ==> gate_holds(#[trigger] self.gates@[g], self.vals())
    }

    /// Every gate holds and every value is known.
    pub open spec fn satisfied(&self) -> bool {
        &&& self.all_known()
        &&& self.gates_hold()
    }

    /// An empty system, for the prover or for the verifier.
    pub fn new(prover: bool) -> (r: Circuit)
        ensures
            r.wf(),
            r.prover == prover,
            r.witness@.len() == 0,
            r.gates@.len() == 0,
    {
        Circuit { witness: Vec::new(), gates: Vec::new(), prover }
    }

    /// Adds a variable, with its value where known: the prover gives one, the
    /// verifier none.
    pub fn allocate(&mut self, value: Option<Fe>) -> (r: usize)
        requires
            old(self).wf(),
            value.is_some() ==> value->0.wf(),
            value.is_some() == old(self).prover,
        ensures
            final(self).wf(),
            final(self).prover == old(self).prover,
            r == old(self).witness@.len(),
            final(self).witness@ == old(self).witness@.push(value),
            final(self).gates@ == old(self).gates@,
            old(self).gates_hold() ==> final(self).gates_hold(),
    {
        let r = self.witness.len();
        self.witness.push(value);
        proof {
            assert(self.witness@.subrange(0, r as int) =~= old(self).witness@);
            assert(self.gates@.subrange(0, self.gates@.len() as int) =~= self.gates@);
            if old(self).gates_hold() {
                lemma_gates_hold_extend(*self, *old(self));
            }
            assert forall|g: int| 0 <= g < self.gates@.len() implies gate_wf(
                #[trigger] self.gates@[g],
                self.witness@.len() as nat,
            ) by {
                lemma_gate_wf_grows(self.gates@[g], r as nat, self.witness@.len() as nat);
            }
        }
        r
    }

    fn add_gate(&mut self, g: Gate)
        requires
            old(self).wf(),
            gate_wf(g, old(self).witness@.len() as nat),
        ensures
            final(self).wf(),
            final(self).prover == old(self).prover,
            final(self).witness@ == old(self).witness@,
            final(self).gates@ == old(self).gates@.push(g),
            final(self).gates_hold() <==> old(self).gates_hold() && gate_holds(g, old(self).vals()),
    {
        self.gates.push(g);
        proof {
            if self.gates_hold() {
                assert forall|k: int| 0 <= k < old(self).gates@.len() implies gate_holds(
                    #[trigger] old(self).gates@[k],
                    old(self).vals(),
                ) by {
                    assert(self.gates@[k] == old(self).gates@[k]);
                }
                assert(self.gates@[old(self).gates@.len() as int] == g);
            }
            if old(self).gates_hold() && gate_holds(g, old(self).vals()) {
                assert forall|k: int| 0 <= k < self.gates@.len() implies gate_holds(
                    #[trigger] self.gates@[k],
                    self.vals(),
                ) by {
                    if k < old(self).gates@.len() {
                        assert(self.gates@[k] == old(self).gates@[k]);
                    }
                }
            }
        }
    }

    /// Adds a multiplication gate on two combinations and returns its three wires.
    pub fn multiply(&mut self, left: LinearCombination, right: LinearCombination) -> (r: (
        usize,
        usize,
        usize,
    ))
        requires
            old(self).wf(),
            left.wf(old(self).witness@.len() as nat),
            right.wf(old(self).witness@.len() as nat),
        ensures
            final(self).wf(),
            final(self).extends(old(self)),
            final(self).witness@.len() == old(self).witness@.len() + 3,
            final(self).gates@.len() == old(self).gates@.len() + 1,
            r.0 == old(self).witness@.len(),
            r.1 == old(self).witness@.len() + 1,
            r.2 == old(self).witness@.len() + 2,
            final(self).gates@ == old(self).gates@.push(
                (Gate::Multiply { left, right, l: r.0, r: r.1, o: r.2 }),
            ),
            old(self).all_known() ==> {
                &&& final(self).all_known()
                &&& final(self).vals()[r.0 as int] == left.eval(old(self).vals())
                &&& final(self).vals()[r.1 as int] == right.eval(old(self).vals())
                &&& final(self).vals()[r.2 as int] == fmul(
                    left.eval(old(self).vals()),
                    right.eval(old(self).vals()),
                )
            },
            old(self).all_unknown() ==> final(self).all_unknown(),
            final(self).prover == old(self).prover,
            old(self).all_known() && old(self).gates_hold() ==> final(self).gates_hold(),
    {
        let ghost w0 = self.witness@;
        let lv = self.evaluate_lc(&left);
        let rv = self.evaluate_lc(&right);
        let ov = match (lv, rv) {
            (Some(a), Some(b)) => Some(fe_mul(&a, &b)),
            _ => None,
        };
        let l = self.allocate(lv);
        let r = self.allocate(rv);
        let o = self.allocate(ov);
        proof {
            assert(self.witness@.subrange(0, w0.len() as int) =~= w0);
            assert(left.wf(self.witness@.len() as nat));
            assert(right.wf(self.witness@.len() as nat));
        }
        let ghost c3 = *self;
        proof {
            if old(self).all_known() {
                let c0 = *old(self);
                assert(self.witness@.subrange(0, w0.len() as int) =~= w0);
                assert(self.gates@.subrange(0, c0.gates@.len() as int) =~= c0.gates@);
                lemma_assignment_extends(*self, c0);
                lemma_eval_frame(left, w0.len() as nat, c0.vals(), self.vals());
                lemma_eval_frame(right, w0.len() as nat, c0.vals(), self.vals());
                assert(self.witness@[l as int] == lv);
                assert(self.witness@[r as int] == rv);
                assert(self.witness@[o as int] == ov);
                assert(gate_holds(Gate::Multiply { left, right, l, r, o }, self.vals()));
            }
        }
        self.add_gate(Gate::Multiply { left, right, l, r, o });
        proof {
            let w = self.witness@;
            assert(w.subrange(0, w0.len() as int) =~= w0);
            assert(self.gates@.subrange(0, old(self).gates@.len() as int) =~= old(self).gates@);
        }
        (l, r, o)
    }

    /// Constrains a combination to equal a constant.
    pub fn constrain_equal(&mut self, lc: LinearCombination, constant: Fe)
        requires
            old(self).wf(),
            lc.wf(old(self).witness@.len() as nat),
            constant.wf(),
        ensures
            final(self).wf(),
            final(self).prover == old(self).prover,
            final(self).witness@ == old(self).witness@,
            final(self).gates@ == old(self).gates@.push(Gate::Equal { lc, constant }),
            final(self).gates_hold() <==> old(self).gates_hold() && lc.eval(old(self).vals())
                == constant.value(),
    {
        self.add_gate(Gate::Equal { lc, constant });
    }

    /// Constrains the value on a wire to be non-zero, with `inverse` its inverse.
    pub fn constrain_nonzero(&mut self, value: usize, inverse: usize)
        requires
            old(self).wf(),
            value < old(self).witness@.len(),
            inverse < old(self).witness@.len(),
        ensures
            final(self).wf(),
            final(self).prover == old(self).prover,
            final(self).witness@ == old(self).witness@,
            final(self).gates@ == old(self).gates@.push(Gate::Nonzero { value, inverse }),
            final(self).gates_hold() <==> old(self).gates_hold() && old(self).vals()[value as int]
                != 0 && fmul(old(self).vals()[value as int], old(self).vals()[inverse as int]) == 1,
    {
        self.add_gate(Gate::Nonzero { value, inverse });
    }

    /// The value of a combination for the prover; `None` for the verifier.
    pub fn evaluate_lc(&self, lc: &LinearCombination) -> (r: Option<Fe>)
        requires
            self.wf(),
            lc.wf(self.witness@.len() as nat),
        ensures
            r.is_some() == self.prover,
            r.is_some() ==> r->0.wf() && r->0.value() == lc.eval(self.vals()),
    {
        if self.prover {
            lc.evaluate(&self.witness)
        } else {
            None
        }
    }

    /// Whether every value is known and every gate holds.
    pub fn is_satisfied(&self) -> (r: bool)
        requires
            self.wf(),
        ensures
            r == self.satisfied(),
    {
        if !self.prover {
            return false;
        }
        let mut i: usize = 0;
        while i < self.witness.len()
            invariant
                self.prover,
                0 <= i <= self.witness@.len(),
                forall|k: int| 0 <= k < i ==> (#[trigger] self.witness@[k]).is_some(),
            decreases self.witness@.len() - i,
        {
            if self.witness[i].is_none() {
                return false;
            }
            i = i + 1;
        }
        let one = Fe::one();
        let mut g: usize = 0;
        while g < self.gates.len()
            invariant
                self.wf(),
                self.all_known(),
                one.wf() && one.value() == 1,
                0 <= g <= self.gates@.len(),
                forall|k: int| 0 <= k < g ==> gate_holds(#[trigger] self.gates@[k], self.vals()),
            decreases self.gates@.len() - g,
        {
            assert(gate_wf(self.gates@[g as int], self.witness@.len() as nat));
            let ok = match &self.gates[g] {
                Gate::Multiply { left, right, l, r, o } => {
                    let lv = self.known_value(*l);
                    let rv = self.known_value(*r);
                    let ov = self.known_value(*o);
                    let le = self.evaluate_lc(left);
                    let re = self.evaluate_lc(right);
                    let prod = fe_mul(&lv, &rv);
                    match (le, re) {
                        (Some(a), Some(b)) => lv.equals(&a) && rv.equals(&b) && ov.equals(&prod),
                        _ => false,
                    }
                },
                Gate::Nonzero { value, inverse } => {
                    let v = self.known_value(*value);
                    let inv = self.known_value(*inverse);
                    let prod = fe_mul(&v, &inv);
                    !v.is_zero() && prod.equals(&one)
                },
                Gate::Equal { lc, constant } => {
                    match self.evaluate_lc(lc) {
                        Some(a) => a.equals(constant),
                        None => false,
                    }
                },
            };
            if !ok {
                return false;
            }
            g = g + 1;
        }
        true
    }

    fn known_value(&self, v: usize) -> (r: Fe)
        requires
            self.wf(),
            self.all_known(),
            v < self.witness@.len(),
        ensures
            r.wf(),
            r.value() == self.vals()[v as int],
    {
        match self.witness[v] {
            Some(x) => x,
            None => Fe::zero(),
        }
    }
}

/// Raising the bound on variables keeps a gate well formed.
pub proof fn lemma_gate_wf_grows(g: Gate, n: nat, m: nat)
    requires
        gate_wf(g, n),
        n <= m,
    ensures
        gate_wf(g, m),
{
}

/// A combination over the first `n` variables has the same value under two
/// assignments that agree on them.
pub proof fn lemma_eval_frame(lc: LinearCombination, n: nat, w1: Seq<nat>, w2: Seq<nat>)
    requires
        lc.wf(n),
        forall|k: int| 0 <= k < n ==> w1[k] == w2[k],
    ensures
        lc.eval(w1) == lc.eval(w2),
{
    assert forall|k: int| 0 <= k < lc.terms@.len() implies w1[(#[trigger] lc.terms@[k]).0 as int]
        == w2[lc.terms@[k].0 as int] by {
        assert(lc.terms@[k].0 < n);
    }
    lemma_terms_sum_frame(lc.terms@, w1, w2);
}

/// The gates that `c1` has beyond those of `c0` all hold under `w`.
pub open spec fn appended_hold(c0: Circuit, c1: Circuit, w: Seq<nat>) -> bool {
    forall|g: int| c0.gates@.len() <= g < c1.gates@.len() ==> gate_holds(#[trigger] c1.gates@[g], w)
}

/// Gates appended in two steps hold when those appended in one go do.
pub proof fn lemma_appended_split(c2: Circuit, c1: Circuit, c0: Circuit, w: Seq<nat>)
    requires
        c2.extends(&c1),
        c1.extends(&c0),
        appended_hold(c0, c2, w),
    ensures
        appended_hold(c0, c1, w),
        appended_hold(c1, c2, w),
{
    assert forall|g: int| c0.gates@.len() <= g < c1.gates@.len() implies gate_holds(
        #[trigger] c1.gates@[g],
        w,
    ) by {
        assert(c1.gates@[g] == c2.gates@.subrange(0, c1.gates@.len() as int)[g]);
        assert(gate_holds(c2.gates@[g], w));
    }
    assert forall|g: int| c1.gates@.len() <= g < c2.gates@.len() implies gate_holds(
        #[trigger] c2.gates@[g],
        w,
    ) by {
        assert(gate_holds(c2.gates@[g], w));
    }
}

/// A gate over the first `n` variables holds under two assignments that agree
/// on them alike.
pub proof fn lemma_gate_holds_frame(g: Gate, n: nat, w1: Seq<nat>, w2: Seq<nat>)
    requires
        gate_wf(g, n),
        gate_holds(g, w1),
        forall|k: int| 0 <= k < n ==> w1[k] == w2[k],
    ensures
        gate_holds(g, w2),
{
    match g {
        Gate::Multiply { left, right, l, r, o } => {
            lemma_eval_frame(left, n, w1, w2);
            lemma_eval_frame(right, n, w1, w2);
        },
        Gate::Nonzero { value, inverse } => {},
        Gate::Equal { lc, constant } => {
            lemma_eval_frame(lc, n, w1, w2);
        },
    }
}

/// Gates that hold keep holding when variables are appended, so a system
/// whose new gates hold has all its gates holding.
pub proof fn lemma_gates_hold_extend(c2: Circuit, c1: Circuit)
    requires
        c1.wf(),
        c2.extends(&c1),
        c1.gates_hold(),
        forall|g: int|
            c1.gates@.len() <= g < c2.gates@.len() ==> gate_holds(#[trigger] c2.gates@[g], c2.vals()),
    ensures
        c2.gates_hold(),
{
    lemma_assignment_extends(c2, c1);
    assert forall|g: int| 0 <= g < c2.gates@.len() implies gate_holds(
        #[trigger] c2.gates@[g],
        c2.vals(),
    ) by {
        if g < c1.gates@.len() {
            assert(c2.gates@[g] == c2.gates@.subrange(0, c1.gates@.len() as int)[g]);
            lemma_gate_holds_frame(c1.gates@[g], c1.witness@.len() as nat, c1.vals(), c2.vals());
        }
    }
}

/// Appending variables keeps the values of the earlier ones.
pub proof fn lemma_assignment_extends(c2: Circuit, c1: Circuit)
    requires
        c2.extends(&c1),
    ensures
        forall|k: int| 0 <= k < c1.witness@.len() ==> c2.vals()[k] == c1.vals()[k],
{
    assert forall|k: int| 0 <= k < c1.witness@.len() implies c2.vals()[k] == c1.vals()[k] by {
        assert(c2.witness@[k] == c2.witness@.subrange(0, c1.witness@.len() as int)[k]);
    }
}

} // verus!
