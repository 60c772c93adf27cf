//! The permutation and the 2:1 hash as constraints: the circuit engine.
use vstd::prelude::*;
use vstd::arithmetic::div_mod::lemma_small_mod;
use crate::field::{
    Fe, fadd, fmul, fe_invert, group_order, lemma_field_bounds, lemma_finv_unique,
};
use crate::sbox::SboxType;
use crate::lc::LinearCombination;
use crate::circuit::{
    Circuit, CircuitError, Gate, gate_holds, appended_hold, lemma_eval_frame,
    lemma_assignment_extends, lemma_appended_split,
};
use crate::params::{PoseidonParams, values, all_wf, matrix_values};
use crate::permutation::{
    add_keys, full_sbox, partial_sbox, dot, mix, is_full_round, rounds, permutation, hash2,
    hash_input, lemma_rounds_undefined,
};

verus! {

/// Multiplication gates, and constraints, that one S-box adds.
pub open spec fn sbox_gates(sbox: SboxType) -> nat {
    match sbox {
        SboxType::Cube => 2,
        SboxType::Inverse => 3,
    }
}

/// Variables that one S-box adds.
pub open spec fn sbox_vars(sbox: SboxType) -> nat {
    match sbox {
        SboxType::Cube => 6,
        SboxType::Inverse => 4,
    }
}

/// What building one S-box on `input` with round key `k` guarantees: `c1`
/// extends `c0` by a fixed number of variables and gates; the output wire
/// carries the S-box of `input + k` when values are known; and under every
/// assignment that satisfies the appended gates, the output wire holds the
/// S-box of `input + k` under that assignment.
pub open spec fn sbox_post(
    sbox: SboxType,
    c0: Circuit,
    c1: Circuit,
    input: LinearCombination,
    k: nat,
    r: Result<usize, CircuitError>,
) -> bool {
    let x = input.eval(c0.vals());
    &&& c1.wf()
    &&& c1.extends(&c0)
    &&& r.is_ok() ==> {
        &&& r->Ok_0 < c1.witness@.len()
        &&& c1.witness@.len() == c0.witness@.len() + sbox_vars(sbox)
        &&& c1.gates@.len() == c0.gates@.len() + sbox_gates(sbox)
    }
    &&& c0.all_known() ==> c1.all_known() && match r {
        Ok(v) => sbox.spec_apply(fadd(x, k)) == Some(c1.vals()[v as int]),
        Err(_) => sbox.spec_apply(fadd(x, k)).is_none(),
    }
    &&& c0.all_unknown() ==> r.is_ok() && c1.all_unknown()
    &&& c0.all_known() && c0.gates_hold() && r.is_ok() ==> c1.gates_hold()
    &&& c0.all_known() && r.is_ok() && sbox == SboxType::Inverse ==> fmul(
        fadd(x, k),
        c1.vals()[r->Ok_0 as int],
    ) == 1
    &&& r.is_ok() ==> sbox_shape(
        sbox,
        input,
        k,
        c0.witness@.len() as nat,
        c1.gates@.subrange(c0.gates@.len() as int, c1.gates@.len() as int),
    )
    &&& r.is_ok() ==> forall|w: Seq<nat>|
        #[trigger] appended_hold(c0, c1, w) ==> sbox.spec_apply(fadd(input.eval(w), k)) == Some(
            w[r->Ok_0 as int] % group_order(),
        )
}

/// `l` is `input + k`: the same terms, the constant shifted by `k`.
pub open spec fn is_keyed(l: LinearCombination, input: LinearCombination, k: nat) -> bool {
    l.terms@ == input.terms@ && l.constant.value() == fadd(input.constant.value(), k)
}

/// `l` is the variable `v` alone.
pub open spec fn is_var(l: LinearCombination, v: usize) -> bool {
    l.terms@.len() == 1 && l.terms@[0].0 == v && l.terms@[0].1.value() == 1 && l.constant.value()
        == 0
}

/// The gates that the S-box on `input + k` appends to a system of `n`
/// variables, the same for prover and verifier. Cube: `(input + k)^2` on
/// wires `n, n+1, n+2`, then that square times wire `n` on wires `n+3, n+4,
/// n+5`. Inverse: `(input + k)` times the claimed inverse `n` on wires `n+1,
/// n+2, n+3`, wire `n+1` non-zero with inverse on `n+2`, wire `n+3` equal to one.
pub open spec fn sbox_shape(
    sbox: SboxType,
    input: LinearCombination,
    k: nat,
    n: nat,
    gates: Seq<Gate>,
) -> bool {
    match sbox {
        SboxType::Cube => gates.len() == 2 && match (gates[0], gates[1]) {
            (
                Gate::Multiply { left: l0, right: r0, l: a0, r: b0, o: o0 },
                Gate::Multiply { left: l1, right: r1, l: a1, r: b1, o: o1 },
            ) => is_keyed(l0, input, k) && is_keyed(r0, input, k) && a0 == n && b0 == n + 1 && o0
                == n + 2 && is_var(l1, (n + 2) as usize) && is_var(r1, n as usize) && a1 == n + 3
                && b1 == n + 4 && o1 == n + 5,
            _ => false,
        },
        SboxType::Inverse => gates.len() == 3 && match (gates[0], gates[1], gates[2]) {
            (
                Gate::Multiply { left: l0, right: r0, l: a0, r: b0, o: o0 },
                Gate::Nonzero { value, inverse },
                Gate::Equal { lc, constant },
            ) => is_keyed(l0, input, k) && is_var(r0, n as usize) && a0 == n + 1 && b0 == n + 2
                && o0 == n + 3 && value == n + 1 && inverse == n + 2 && is_var(lc, (n + 3) as usize)
                && constant.value() == 1,
            _ => false,
        },
    }
}

/// Appending twice is appending.
pub proof fn lemma_extends_trans(c3: Circuit, c2: Circuit, c1: Circuit)
    requires
        c3.extends(&c2),
        c2.extends(&c1),
    ensures
        c3.extends(&c1),
{
    assert(c3.witness@.subrange(0, c1.witness@.len() as int) =~= c3.witness@.subrange(
        0,
        c2.witness@.len() as int,
    ).subrange(0, c1.witness@.len() as int));
    assert(c3.gates@.subrange(0, c1.gates@.len() as int) =~= c3.gates@.subrange(
        0,
        c2.gates@.len() as int,
    ).subrange(0, c1.gates@.len() as int));
}

/// Nothing appended.
pub proof fn lemma_extends_refl(c: Circuit)
    ensures
        c.extends(&c),
{
    assert(c.witness@.subrange(0, c.witness@.len() as int) =~= c.witness@);
    assert(c.gates@.subrange(0, c.gates@.len() as int) =~= c.gates@);
}

/// The cube S-box in the circuit: adds the round key, then one gate for the
/// square and one for the cube; returns the cube's wire.
fn synthesize_cube_sbox(cs: &mut Circuit, input_var: LinearCombination, round_key: &Fe) -> (r:
    Result<usize, CircuitError>)
    requires
        old(cs).wf(),
        input_var.wf(old(cs).witness@.len() as nat),
        round_key.wf(),
        old(cs).all_known() || old(cs).all_unknown(),
    ensures
        sbox_post(
            SboxType::Cube,
            *old(cs),
            *final(cs),
            input_var,
            round_key.value(),
            r,
        ),
{
    let ghost c0 = *cs;
    let inp_plus_const = input_var.add_constant(round_key);
    let dup = inp_plus_const.copy();
    let ghost kk = inp_plus_const;
    let ghost dd = dup;
    let (i, i2, sqr) = cs.multiply(inp_plus_const, dup);
    let ghost c1 = *cs;
    let sq_lc = LinearCombination::from_variable(sqr);
    let i_lc = LinearCombination::from_variable(i);
    let ghost sl = sq_lc;
    let ghost il = i_lc;
    let (a2, b2, cube) = cs.multiply(sq_lc, i_lc);
    proof {
        let n0 = c0.gates@.len() as int;
        assert forall|w: Seq<nat>| #[trigger] appended_hold(c0, *cs, w) implies SboxType::Cube.spec_apply(
            fadd(input_var.eval(w), round_key.value()),
        ) == Some(w[cube as int] % group_order()) by {
            assert(cs.gates@[n0] == Gate::Multiply { left: kk, right: dd, l: i, r: i2, o: sqr });
            assert(cs.gates@[n0 + 1] == Gate::Multiply { left: sl, right: il, l: a2, r: b2, o: cube });
            assert(gate_holds(cs.gates@[n0], w));
            assert(gate_holds(cs.gates@[n0 + 1], w));
            let e = kk.eval(w);
            assert(dd.eval(w) == e);
            lemma_field_bounds(e, e);
            lemma_field_bounds(w[sqr as int], w[i as int]);
            lemma_small_mod(w[sqr as int], group_order());
            lemma_small_mod(w[i as int], group_order());
            lemma_small_mod(w[cube as int], group_order());
        }
        let added = cs.gates@.subrange(n0, cs.gates@.len() as int);
        assert(added[0] == cs.gates@[n0]);
        assert(added[1] == cs.gates@[n0 + 1]);
    }
    proof {
        lemma_extends_trans(*cs, c1, c0);
        lemma_assignment_extends(*cs, c1);
        if c0.all_known() {
            assert(c1.witness@[sqr as int].is_some());
            assert(c1.witness@[i as int].is_some());
        }
    }
    Ok(cube)
}

/// The inverse S-box in the circuit: adds the round key, allocates the claimed
/// inverse, multiplies the two, proves the value non-zero and constrains the
/// product to one; returns the inverse's wire. Fails where the value is known
/// to be zero.
#[verifier::rlimit(60)]
fn synthesize_inverse_sbox(cs: &mut Circuit, input_var: LinearCombination, round_key: &Fe) -> (r:
    Result<usize, CircuitError>)
    requires
        old(cs).wf(),
        input_var.wf(old(cs).witness@.len() as nat),
        round_key.wf(),
        old(cs).all_known() || old(cs).all_unknown(),
    ensures
        sbox_post(
            SboxType::Inverse,
            *old(cs),
            *final(cs),
            input_var,
            round_key.value(),
            r,
        ),
{
    let ghost c0 = *cs;
    let inp_plus_const = input_var.add_constant(round_key);
    let val_l = cs.evaluate_lc(&inp_plus_const);
    let val_r = match val_l {
        Some(x) => {
            if x.is_zero() {
                proof {
                    lemma_extends_refl(*cs);
                }
                return Err(CircuitError::GadgetError);
            }
            Some(fe_invert(&x))
        },
        None => None,
    };
    let var_r = cs.allocate(val_r);
    let ghost c1 = *cs;
    proof {
        assert(c1.witness@.subrange(0, c0.witness@.len() as int) =~= c0.witness@);
        assert(c1.gates@.subrange(0, c0.gates@.len() as int) =~= c0.gates@);
        lemma_assignment_extends(c1, c0);
        lemma_eval_frame(inp_plus_const, c0.witness@.len() as nat, c0.vals(), c1.vals());
    }
    let r_lc = LinearCombination::from_variable(var_r);
    let ghost kk = inp_plus_const;
    let ghost rl = r_lc;
    let (a, b, o) = cs.multiply(inp_plus_const, r_lc);
    let ghost c2 = *cs;
    proof {
        if c0.all_known() {
            lemma_assignment_extends(c2, c1);
            assert(c1.witness@[var_r as int] == val_r);
            assert(c2.vals()[b as int] == c1.vals()[var_r as int]);
            assert(c2.vals()[a as int] != 0);
        }
    }
    cs.constrain_nonzero(a, b);
    let o_lc = LinearCombination::from_variable(o);
    let one = Fe::one();
    proof {
        if c0.all_known() {
            assert(c2.witness@[o as int].is_some());
        }
    }
    cs.constrain_equal(o_lc, one);
    proof {
        assert(cs.witness@ == c2.witness@);
        assert(cs.witness@.subrange(0, c2.witness@.len() as int) =~= c2.witness@);
        assert(cs.gates@.subrange(0, c2.gates@.len() as int) =~= c2.gates@);
        lemma_extends_trans(*cs, c2, c1);
        lemma_extends_trans(*cs, c1, c0);
        lemma_assignment_extends(c2, c1);
        if c0.all_known() {
            assert(c1.witness@[var_r as int] == val_r);
            assert(cs.vals()[var_r as int] == c1.vals()[var_r as int]);
            assert(val_l->0.value() == kk.eval(c0.vals()));
            assert(val_l->0.value() * val_r->0.value() == val_r->0.value() * val_l->0.value())
                by (nonlinear_arith);
        }
        let n0 = c0.gates@.len() as int;
        assert(cs.gates@[n0] == Gate::Multiply { left: kk, right: rl, l: a, r: b, o: o });
        assert(cs.gates@[n0 + 1] == Gate::Nonzero { value: a, inverse: b });
        assert forall|w: Seq<nat>| #[trigger] appended_hold(c0, *cs, w) implies SboxType::Inverse.spec_apply(
            fadd(input_var.eval(w), round_key.value()),
        ) == Some(w[var_r as int] % group_order()) by {
            assert(gate_holds(cs.gates@[n0], w));
            assert(gate_holds(cs.gates@[n0 + 1], w));
            let e = kk.eval(w);
            let y = w[var_r as int] % group_order();
            assert(w[b as int] == y);
            assert(w[a as int] == e);
            lemma_field_bounds(w[var_r as int], 0);
            vstd::arithmetic::div_mod::lemma_mod_bound(w[var_r as int] as int, group_order() as int);
            lemma_finv_unique(e, y);
        }
        let added = cs.gates@.subrange(n0, cs.gates@.len() as int);
        assert(added[0] == cs.gates@[n0]);
        assert(added[1] == cs.gates@[n0 + 1]);
        assert(added[2] == cs.gates@[n0 + 2]);
    }
    Ok(var_r)
}

impl SboxType {
    /// Builds the S-box in the circuit on `input_var + round_key` and returns the
    /// wire of its output.
    pub fn synthesize_sbox(&self, cs: &mut Circuit, input_var: LinearCombination, round_key: &Fe) -> (r:
        Result<usize, CircuitError>)
        requires
            old(cs).wf(),
            input_var.wf(old(cs).witness@.len() as nat),
            round_key.wf(),
            old(cs).all_known() || old(cs).all_unknown(),
        ensures
            sbox_post(
                *self,
                *old(cs),
                *final(cs),
                input_var,
                round_key.value(),
                r,
            ),
    {
        match self {
            SboxType::Cube => synthesize_cube_sbox(cs, input_var, round_key),
            SboxType::Inverse => synthesize_inverse_sbox(cs, input_var, round_key),
        }
    }
}

/// The values of a list of combinations under an assignment.
pub open spec fn lc_vals(lcs: Seq<LinearCombination>, w: Seq<nat>) -> Seq<nat> {
    lcs.map_values(|l: LinearCombination| l.eval(w))
}

/// Every combination is well formed over `n` variables and names one at least.
pub open spec fn lcs_wf(lcs: Seq<LinearCombination>, n: nat) -> bool {
    forall|k: int| 0 <= k < lcs.len() ==> (#[trigger] lcs[k]).wf(n) && lcs[k].terms@.len() > 0
}

/// The number of S-boxes in a round's S-box layer.
pub open spec fn layer_sboxes(width: nat, full: bool) -> nat {
    if full {
        width
    } else {
        1
    }
}

/// S-boxes built so far in a layer, after `i` of `n` positions.
pub open spec fn layer_sboxes_upto(i: nat, n: nat, full: bool) -> nat {
    if full {
        i
    } else if i == n {
        1
    } else {
        0
    }
}

/// The total of `per_sbox` over the S-boxes of the first `n` rounds.
pub open spec fn rounds_cost(p: PoseidonParams, n: nat, per_sbox: nat) -> nat
    decreases n,
{
    if n == 0 {
        0
    } else {
        rounds_cost(p, (n - 1) as nat, per_sbox) + layer_sboxes(
            p.width as nat,
            is_full_round(p, (n - 1) as nat),
        ) * per_sbox
    }
}

/// The gates that the permutation adds: fixed by the parameters and the S-box.
pub open spec fn permutation_gates(p: PoseidonParams, sbox: SboxType) -> nat {
    rounds_cost(p, p.total_rounds(), sbox_gates(sbox))
}

/// The variables that the permutation adds.
pub open spec fn permutation_vars(p: PoseidonParams, sbox: SboxType) -> nat {
    rounds_cost(p, p.total_rounds(), sbox_vars(sbox))
}

/// The field values on the given variables under an assignment.
pub open spec fn reduced_values(w: Seq<nat>, vars: Seq<usize>) -> Seq<nat> {
    vars.map_values(|v: usize| w[v as int] % group_order())
}

/// The values on the given variables.
pub open spec fn input_values(w: Seq<nat>, vars: Seq<usize>) -> Seq<nat> {
    vars.map_values(|v: usize| w[v as int])
}

/// The first `i` outputs of an S-box layer are right under `w`: the S-box of
/// the keyed value where it applies, the keyed value elsewhere.
pub open spec fn layer_prefix_ok(
    sbox: SboxType,
    keyed: Seq<nat>,
    outs: Seq<LinearCombination>,
    full: bool,
    last: int,
    i: int,
    w: Seq<nat>,
) -> bool {
    forall|k: int|
        0 <= k < i ==> if full || k == last {
            sbox.spec_apply(keyed[k]) == Some((#[trigger] outs[k]).eval(w))
        } else {
            outs[k].eval(w) == keyed[k]
        }
}

/// A layer whose outputs are all right is the layer of the spec.
pub proof fn lemma_layer_result(
    sbox: SboxType,
    keyed: Seq<nat>,
    outs: Seq<LinearCombination>,
    full: bool,
    w: Seq<nat>,
)
    requires
        keyed.len() >= 1,
        outs.len() == keyed.len(),
        layer_prefix_ok(sbox, keyed, outs, full, keyed.len() - 1, keyed.len() as int, w),
    ensures
        (if full {
            full_sbox(sbox, keyed)
        } else {
            partial_sbox(sbox, keyed)
        }) == Some(lc_vals(outs, w)),
{
    let n = keyed.len() as int;
    assert forall|k: int| 0 <= k < n implies #[trigger] lc_vals(outs, w)[k] == outs[k].eval(w) by {}
    if full {
        assert forall|k: int| 0 <= k < n implies (#[trigger] sbox.spec_apply(keyed[k])).is_some() by {
            assert(sbox.spec_apply(keyed[k]) == Some(outs[k].eval(w)));
        }
        assert(lc_vals(outs, w) =~= Seq::new(keyed.len(), |k: int| sbox.spec_apply(keyed[k])->0));
    } else {
        assert(sbox.spec_apply(keyed[n - 1]) == Some(outs[n - 1].eval(w)));
        assert(lc_vals(outs, w) =~= keyed.update(n - 1, sbox.spec_apply(keyed[n - 1])->0));
    }
}

fn sbox_layer_constraints(
    cs: &mut Circuit,
    sbox: &SboxType,
    state: &Vec<LinearCombination>,
    keys: &Vec<Fe>,
    off: usize,
    full: bool,
) -> (r: Result<Vec<LinearCombination>, CircuitError>)
    requires
        old(cs).wf(),
        old(cs).all_known() || old(cs).all_unknown(),
        state@.len() >= 1,
        lcs_wf(state@, old(cs).witness@.len() as nat),
        all_wf(keys@),
        off + state@.len() <= keys@.len(),
    ensures
        final(cs).wf(),
        final(cs).extends(old(cs)),
        r.is_ok() ==> {
            &&& r->Ok_0@.len() == state@.len()
            &&& lcs_wf(r->Ok_0@, final(cs).witness@.len() as nat)
            &&& final(cs).witness@.len() == old(cs).witness@.len() + layer_sboxes(
                state@.len(),
                full,
            ) * sbox_vars(*sbox)
            &&& final(cs).gates@.len() == old(cs).gates@.len() + layer_sboxes(state@.len(), full)
                * sbox_gates(*sbox)
        },
        old(cs).all_known() ==> final(cs).all_known() && ({
            let keyed = add_keys(lc_vals(state@, old(cs).vals()), values(keys@), off as int);
            let spec_r = if full {
                full_sbox(*sbox, keyed)
            } else {
                partial_sbox(*sbox, keyed)
            };
            match r {
                Ok(v) => spec_r == Some(lc_vals(v@, final(cs).vals())),
                Err(_) => spec_r.is_none(),
            }
        }),
        old(cs).all_unknown() ==> r.is_ok() && final(cs).all_unknown(),
        old(cs).all_known() && old(cs).gates_hold() && r.is_ok() ==> final(cs).gates_hold(),
        r.is_ok() ==> forall|w: Seq<nat>|
            #[trigger] appended_hold(*old(cs), *final(cs), w) ==> (if full {
                full_sbox(*sbox, add_keys(lc_vals(state@, w), values(keys@), off as int))
            } else {
                partial_sbox(*sbox, add_keys(lc_vals(state@, w), values(keys@), off as int))
            }) == Some(lc_vals(r->Ok_0@, w)),
{
    let ghost c0 = *cs;
    let ghost keyed = add_keys(lc_vals(state@, c0.vals()), values(keys@), off as int);
    let ghost sv = sbox_vars(*sbox);
    let ghost sg = sbox_gates(*sbox);
    let n = state.len();
    let kl = keys.len();
    let last = n - 1;
    let mut outs: Vec<LinearCombination> = Vec::new();
    let mut i: usize = 0;
    proof {
        lemma_extends_refl(*cs);
    }
    while i < n
        invariant
            c0 == *old(cs),
            cs.wf(),
            cs.extends(&c0),
            c0.all_known() || c0.all_unknown(),
            c0.all_known() ==> cs.all_known(),
            c0.all_unknown() ==> cs.all_unknown(),
            c0.all_known() && c0.gates_hold() ==> cs.gates_hold(),
            forall|w: Seq<nat>|
                #[trigger] appended_hold(c0, *cs, w) ==> layer_prefix_ok(
                    *sbox,
                    add_keys(lc_vals(state@, w), values(keys@), off as int),
                    outs@,
                    full,
                    last as int,
                    i as int,
                    w,
                ),
            keyed == add_keys(lc_vals(state@, c0.vals()), values(keys@), off as int),
            sv == sbox_vars(*sbox),
            sg == sbox_gates(*sbox),
            n == state@.len(),
            n >= 1,
            last == n - 1,
            lcs_wf(state@, c0.witness@.len() as nat),
            all_wf(keys@),
            off + n <= keys@.len(),
            kl == keys@.len(),
            0 <= i <= n,
            outs@.len() == i,
            lcs_wf(outs@, cs.witness@.len() as nat),
            cs.witness@.len() == c0.witness@.len() + layer_sboxes_upto(i as nat, n as nat, full) * sv,
            cs.gates@.len() == c0.gates@.len() + layer_sboxes_upto(i as nat, n as nat, full) * sg,
            c0.all_known() ==> forall|k: int|
                0 <= k < i ==> if full || k == last {
                    sbox.spec_apply(keyed[k]) == Some((#[trigger] outs@[k]).eval(cs.vals()))
                } else {
                    outs@[k].eval(cs.vals()) == keyed[k]
                },
        decreases n - i,
    {
        let ghost prev = *cs;
        let inp = state[i].copy();
        let rk = &keys[off + i];
        proof {
            lemma_assignment_extends(prev, c0);
            lemma_eval_frame(state@[i as int], c0.witness@.len() as nat, c0.vals(), prev.vals());
            assert(keyed[i as int] == fadd(inp.eval(prev.vals()), rk.value()));
            assert(lcs_wf(outs@, prev.witness@.len() as nat));
        }
        if full || i == last {
            match sbox.synthesize_sbox(cs, inp, rk) {
                Ok(v) => {
                    let out = LinearCombination::from_variable(v);
                    outs.push(out);
                },
                Err(e) => {
                    proof {
                        lemma_extends_trans(*cs, prev, c0);
                        if full {
                            assert(sbox.spec_apply(keyed[i as int]).is_none());
                        }
                    }
                    return Err(e);
                },
            }
        } else {
            let out = inp.add_constant(rk);
            outs.push(out);
            proof {
                lemma_extends_refl(*cs);
            }
        }
        proof {
            lemma_extends_trans(*cs, prev, c0);
            assert forall|w: Seq<nat>| #[trigger] appended_hold(c0, *cs, w) implies layer_prefix_ok(
                *sbox,
                add_keys(lc_vals(state@, w), values(keys@), off as int),
                outs@,
                full,
                last as int,
                (i + 1) as int,
                w,
            ) by {
                lemma_appended_split(*cs, prev, c0, w);
                assert(appended_hold(c0, prev, w));
                let kw = add_keys(lc_vals(state@, w), values(keys@), off as int);
                assert(kw[i as int] == fadd(inp.eval(w), rk.value()));
                assert(layer_prefix_ok(*sbox, kw, outs@.drop_last(), full, last as int, i as int, w));
                assert forall|k: int| 0 <= k < i + 1 implies if full || k == last {
                    sbox.spec_apply(kw[k]) == Some((#[trigger] outs@[k]).eval(w))
                } else {
                    outs@[k].eval(w) == kw[k]
                } by {
                    if k < i {
                        assert(outs@[k] == outs@.drop_last()[k]);
                    } else {
                        assert(appended_hold(prev, *cs, w));
                    }
                }
            }
            lemma_assignment_extends(*cs, prev);
            let pn = prev.witness@.len() as nat;
            assert forall|k: int| 0 <= k < i implies #[trigger] outs@[k].eval(cs.vals())
                == outs@[k].eval(prev.vals()) by {
                lemma_eval_frame(outs@[k], pn, prev.vals(), cs.vals());
            }
            if c0.all_known() && (full || i == last) {
                assert(cs.witness@[outs@[i as int].terms@[0].0 as int].is_some());
            }
            let a = layer_sboxes_upto(i as nat, n as nat, full);
            let b = layer_sboxes_upto((i + 1) as nat, n as nat, full);
            if full || i == last {
                assert(b == a + 1);
                assert(b * sv == a * sv + sv) by (nonlinear_arith)
                    requires
                        b == a + 1,
                ;
                assert(b * sg == a * sg + sg) by (nonlinear_arith)
                    requires
                        b == a + 1,
                ;
            } else {
                assert(b == a);
            }
        }
        i = i + 1;
    }
    proof {
        assert forall|w: Seq<nat>| #[trigger] appended_hold(c0, *cs, w) implies (if full {
            full_sbox(*sbox, add_keys(lc_vals(state@, w), values(keys@), off as int))
        } else {
            partial_sbox(*sbox, add_keys(lc_vals(state@, w), values(keys@), off as int))
        }) == Some(lc_vals(outs@, w)) by {
            lemma_layer_result(*sbox, add_keys(lc_vals(state@, w), values(keys@), off as int), outs@, full, w);
        }
        if c0.all_known() {
            assert(keyed.len() == n);
            assert forall|k: int| 0 <= k < n implies #[trigger] lc_vals(outs@, cs.vals())[k]
                == outs@[k].eval(cs.vals()) by {}
            if full {
                assert forall|k: int| 0 <= k < keyed.len() implies (#[trigger] sbox.spec_apply(
                    keyed[k],
                )).is_some() by {
                    assert(sbox.spec_apply(keyed[k]) == Some(outs@[k].eval(cs.vals())));
                }
                assert(lc_vals(outs@, cs.vals()) =~= Seq::new(
                    keyed.len(),
                    |k: int| sbox.spec_apply(keyed[k])->0,
                ));
            } else {
                assert(sbox.spec_apply(keyed[last as int]) == Some(outs@[last as int].eval(cs.vals())));
                assert(lc_vals(outs@, cs.vals()) =~= keyed.update(
                    keyed.len() - 1,
                    sbox.spec_apply(keyed[keyed.len() - 1])->0,
                ));
            }
        }
    }
    Ok(outs)
}

/// The mixing step on combinations: `next[i] = sum_j sbox_outs[j] * m[i][j]`.
/// It adds no gate.
fn apply_linear_layer(
    width: usize,
    sbox_outs: &Vec<LinearCombination>,
    mds: &Vec<Vec<Fe>>,
    n: usize,
) -> (r: Vec<LinearCombination>)
    requires
        width >= 1,
        sbox_outs@.len() == width,
        lcs_wf(sbox_outs@, n as nat),
        mds@.len() == width,
        forall|i: int| 0 <= i < width ==> (#[trigger] mds@[i])@.len() == width && all_wf(mds@[i]@),
    ensures
        r@.len() == width,
        lcs_wf(r@, n as nat),
        forall|w: Seq<nat>|
            #[trigger] lc_vals(r@, w) == mix(matrix_values(mds@), lc_vals(sbox_outs@, w)),
{
    let mut r: Vec<LinearCombination> = Vec::new();
    let mut i: usize = 0;
    while i < width
        invariant
            width >= 1,
            sbox_outs@.len() == width,
            lcs_wf(sbox_outs@, n as nat),
            mds@.len() == width,
            forall|k: int| 0 <= k < width ==> (#[trigger] mds@[k])@.len() == width && all_wf(mds@[k]@),
            0 <= i <= width,
            r@.len() == i,
            lcs_wf(r@, n as nat),
            forall|w: Seq<nat>, k: int|
                0 <= k < i ==> #[trigger] r@[k].eval(w) == dot(
                    lc_vals(sbox_outs@, w),
                    values(mds@[k]@),
                    width as nat,
                ),
        decreases width - i,
    {
        let row = &mds[i];
        let mut acc = LinearCombination::from_constant(Fe::zero());
        let mut j: usize = 0;
        while j < width
            invariant
                width >= 1,
                sbox_outs@.len() == width,
                lcs_wf(sbox_outs@, n as nat),
                row@.len() == width,
                all_wf(row@),
                0 <= j <= width,
                acc.wf(n as nat),
                j > 0 ==> acc.terms@.len() > 0,
                forall|w: Seq<nat>|
                    #[trigger] acc.eval(w) == dot(lc_vals(sbox_outs@, w), values(row@), j as nat),
            decreases width - j,
        {
            let term = sbox_outs[j].scale(&row[j]);
            proof {
                assert(sbox_outs@[j as int].wf(n as nat));
                assert(term.wf(n as nat));
            }
            let next = acc.plus(&term);
            proof {
                assert forall|w: Seq<nat>| #[trigger] next.eval(w) == dot(
                    lc_vals(sbox_outs@, w),
                    values(row@),
                    (j + 1) as nat,
                ) by {
                    assert(term.eval(w) == fmul(sbox_outs@[j as int].eval(w), row@[j as int].value()));
                }
                assert(sbox_outs@[j as int].terms@.len() > 0);
            }
            acc = next;
            j = j + 1;
        }
        let merged = acc.simplify(n);
        r.push(merged);
        i = i + 1;
    }
    assert forall|w: Seq<nat>| #[trigger] lc_vals(r@, w) == mix(
        matrix_values(mds@),
        lc_vals(sbox_outs@, w),
    ) by {
        assert(lc_vals(r@, w) =~= mix(matrix_values(mds@), lc_vals(sbox_outs@, w)));
    }
    r
}

/// The circuit engine: the permutation's rounds as gates and linear
/// combinations over the input variables. Returns the `width` output
/// combinations. The gates and variables added depend on the parameters and
/// the S-box alone; with every value known the outputs evaluate to the native
/// permutation of the inputs' values.
#[allow(non_snake_case)]
pub fn Poseidon_permutation_constraints(
    cs: &mut Circuit,
    input: &Vec<usize>,
    params: &PoseidonParams,
    sbox_type: &SboxType,
) -> (r: Result<Vec<LinearCombination>, CircuitError>)
    requires
        old(cs).wf(),
        params.wf(),
        input@.len() == params.width,
        forall|k: int| 0 <= k < input@.len() ==> #[trigger] input@[k] < old(cs).witness@.len(),
        old(cs).all_known() || old(cs).all_unknown(),
    ensures
        final(cs).wf(),
        final(cs).extends(old(cs)),
        r.is_ok() ==> {
            &&& r->Ok_0@.len() == params.width
            &&& lcs_wf(r->Ok_0@, final(cs).witness@.len() as nat)
            &&& final(cs).gates@.len() == old(cs).gates@.len() + permutation_gates(*params, *sbox_type)
            &&& final(cs).witness@.len() == old(cs).witness@.len() + permutation_vars(
                *params,
                *sbox_type,
            )
        },
        old(cs).all_known() ==> final(cs).all_known() && match r {
            Ok(outs) => permutation(*params, *sbox_type, input_values(old(cs).vals(), input@))
                == Some(lc_vals(outs@, final(cs).vals())),
            Err(_) => permutation(
                *params,
                *sbox_type,
                input_values(old(cs).vals(), input@),
            ).is_none(),
        },
        old(cs).all_unknown() ==> r.is_ok() && final(cs).all_unknown(),
        old(cs).all_known() && old(cs).gates_hold() && r.is_ok() ==> final(cs).gates_hold(),
        r.is_ok() ==> forall|w: Seq<nat>|
            #[trigger] appended_hold(*old(cs), *final(cs), w) ==> permutation(
                *params,
                *sbox_type,
                reduced_values(w, input@),
            ) == Some(lc_vals(r->Ok_0@, w)),
{
    let ghost c0 = *cs;
    let ghost p = *params;
    let ghost inv = input_values(c0.vals(), input@);
    let width = params.width;
    let mut state: Vec<LinearCombination> = Vec::new();
    let mut k: usize = 0;
    while k < width
        invariant
            c0 == *cs,
            cs.wf(),
            input@.len() == width,
            forall|j: int| 0 <= j < input@.len() ==> #[trigger] input@[j] < cs.witness@.len(),
            inv == input_values(c0.vals(), input@),
            0 <= k <= width,
            state@.len() == k,
            lcs_wf(state@, cs.witness@.len() as nat),
            cs.all_known() ==> forall|j: int| 0 <= j < k ==> #[trigger] state@[j].eval(cs.vals()) == inv[j],
            forall|w: Seq<nat>, j: int|
                0 <= j < k ==> #[trigger] state@[j].eval(w) == w[input@[j] as int] % group_order(),
        decreases width - k,
    {
        let v = input[k];
        let lc = LinearCombination::from_variable(v);
        proof {
            if cs.all_known() {
                assert(cs.witness@[v as int].is_some());
                assert(cs.witness@[v as int]->0.wf());
            }
        }
        state.push(lc);
        k = k + 1;
    }
    let fb = params.full_rounds_beginning;
    let pr = params.partial_rounds;
    proof {
        let t = p.total_rounds();
        assert(t <= t * width) by (nonlinear_arith)
            requires
                width >= 1,
        ;
        lemma_extends_refl(*cs);
        assert forall|w: Seq<nat>| #[trigger] appended_hold(c0, *cs, w) implies rounds(
            p,
            *sbox_type,
            reduced_values(w, input@),
            0,
        ) == Some(lc_vals(state@, w)) by {
            assert(lc_vals(state@, w) =~= reduced_values(w, input@));
        }
    }
    let kl = params.round_keys.len();
    let total = fb + pr + params.full_rounds_end;
    let mut r: usize = 0;
    while r < total
        invariant
            p == *params,
            params.wf(),
            c0 == *old(cs),
            c0.all_known() || c0.all_unknown(),
            inv == input_values(c0.vals(), input@),
            width == params.width,
            fb == params.full_rounds_beginning,
            pr == params.partial_rounds,
            total == p.total_rounds(),
            kl == total * width,
            0 <= r <= total,
            cs.wf(),
            cs.extends(&c0),
            c0.all_known() ==> cs.all_known(),
            c0.all_unknown() ==> cs.all_unknown(),
            c0.all_known() && c0.gates_hold() ==> cs.gates_hold(),
            forall|w: Seq<nat>|
                #[trigger] appended_hold(c0, *cs, w) ==> rounds(
                    p,
                    *sbox_type,
                    reduced_values(w, input@),
                    r as nat,
                ) == Some(lc_vals(state@, w)),
            input@.len() == width,
            state@.len() == width,
            lcs_wf(state@, cs.witness@.len() as nat),
            cs.gates@.len() == c0.gates@.len() + rounds_cost(p, r as nat, sbox_gates(*sbox_type)),
            cs.witness@.len() == c0.witness@.len() + rounds_cost(p, r as nat, sbox_vars(*sbox_type)),
            c0.all_known() ==> rounds(p, *sbox_type, inv, r as nat) == Some(
                lc_vals(state@, cs.vals()),
            ),
        decreases total - r,
    {
        assert(r * width + width <= total * width) by (nonlinear_arith)
            requires
                r < total,
        ;
        let ghost prev = *cs;
        let off = r * width;
        let full = r < fb || r >= fb + pr;
        match sbox_layer_constraints(cs, sbox_type, &state, &params.round_keys, off, full) {
            Ok(outs) => {
                let next = apply_linear_layer(
                    width,
                    &outs,
                    &params.MDS_matrix,
                    cs.witness.len(),
                );
                proof {
                    assert(lc_vals(next@, cs.vals()) == mix(p.matrix(), lc_vals(outs@, cs.vals())));
                    lemma_extends_trans(*cs, prev, c0);
                    assert forall|w: Seq<nat>| #[trigger] appended_hold(c0, *cs, w) implies rounds(
                        p,
                        *sbox_type,
                        reduced_values(w, input@),
                        (r + 1) as nat,
                    ) == Some(lc_vals(next@, w)) by {
                        lemma_appended_split(*cs, prev, c0, w);
                        assert(appended_hold(c0, prev, w));
                        assert(appended_hold(prev, *cs, w));
                        assert(lc_vals(next@, w) == mix(p.matrix(), lc_vals(outs@, w)));
                    }
                }
                state = next;
            },
            Err(e) => {
                proof {
                    lemma_extends_trans(*cs, prev, c0);
                    if c0.all_known() {
                        lemma_rounds_undefined(p, *sbox_type, inv, (r + 1) as nat, total as nat);
                    }
                }
                return Err(e);
            },
        }
        proof {
            lemma_extends_trans(*cs, prev, c0);
        }
        r = r + 1;
    }
    Ok(state)
}

/// Whether `g` constrains a copy of `lc` to equal `c`.
pub open spec fn is_equal_gate(g: Gate, lc: LinearCombination, c: Fe) -> bool {
    match g {
        Gate::Equal { lc: l, constant } => l.terms@ == lc.terms@ && l.constant
            == lc.constant && constant == c,
        _ => false,
    }
}

/// Constrains the permutation of the input variables to equal `output`,
/// element by element. With every value known, the last `width` gates hold
/// exactly where `output` is the native permutation of the inputs' values, and
/// a system whose earlier gates held is then satisfied exactly there.
#[allow(non_snake_case)]
pub fn Poseidon_permutation_gadget(
    cs: &mut Circuit,
    input: &Vec<usize>,
    params: &PoseidonParams,
    sbox_type: &SboxType,
    output: &Vec<Fe>,
) -> (r: Result<(), CircuitError>)
    requires
        old(cs).wf(),
        params.wf(),
        input@.len() == params.width,
        forall|k: int| 0 <= k < input@.len() ==> #[trigger] input@[k] < old(cs).witness@.len(),
        old(cs).all_known() || old(cs).all_unknown(),
        output@.len() == params.width,
        all_wf(output@),
    ensures
        final(cs).wf(),
        final(cs).extends(old(cs)),
        r.is_ok() ==> final(cs).gates@.len() == old(cs).gates@.len() + permutation_gates(
            *params,
            *sbox_type,
        ) + params.width,
        old(cs).all_known() ==> final(cs).all_known() && (r.is_ok() <==> permutation(
            *params,
            *sbox_type,
            input_values(old(cs).vals(), input@),
        ).is_some()),
        old(cs).all_known() && r.is_ok() ==> ((forall|k: int|
            final(cs).gates@.len() - params.width <= k < final(cs).gates@.len()
                ==> gate_holds(#[trigger] final(cs).gates@[k], final(cs).vals()))
            <==> permutation(*params, *sbox_type, input_values(old(cs).vals(), input@)) == Some(
            values(output@),
        )),
        old(cs).all_unknown() ==> r.is_ok() && final(cs).all_unknown(),
        old(cs).all_known() && old(cs).gates_hold() && r.is_ok() ==> (final(cs).satisfied()
            <==> permutation(*params, *sbox_type, input_values(old(cs).vals(), input@)) == Some(
            values(output@),
        )),
        r.is_ok() ==> forall|w: Seq<nat>|
            #[trigger] appended_hold(*old(cs), *final(cs), w) ==> permutation(
                *params,
                *sbox_type,
                reduced_values(w, input@),
            ) == Some(values(output@)),
{
    let ghost c0 = *cs;
    let width = params.width;
    let outs = match Poseidon_permutation_constraints(cs, input, params, sbox_type) {
        Ok(o) => o,
        Err(e) => {
            return Err(e);
        },
    };
    let ghost c1 = *cs;
    let ghost g1 = cs.gates@.len();
    let mut i: usize = 0;
    while i < width
        invariant
            c1.wf(),
            c1.extends(&c0),
            cs.wf(),
            cs.prover == c1.prover,
            cs.witness@ == c1.witness@,
            cs.gates@.len() == g1 + i,
            g1 == c1.gates@.len(),
            cs.gates@.subrange(0, g1 as int) == c1.gates@,
            outs@.len() == width,
            output@.len() == width,
            all_wf(output@),
            lcs_wf(outs@, cs.witness@.len() as nat),
            0 <= i <= width,
            forall|k: int|
                0 <= k < i ==> is_equal_gate(#[trigger] cs.gates@[g1 + k], outs@[k], output@[k]),
            cs.gates_hold() <==> c1.gates_hold() && forall|k: int|
                0 <= k < i ==> gate_holds(#[trigger] cs.gates@[g1 + k], cs.vals()),
        decreases width - i,
    {
        let lc = outs[i].copy();
        let ghost before = cs.gates@;
        let ghost cb = *cs;
        cs.constrain_equal(lc, output[i]);
        proof {
            assert(cs.gates@.subrange(0, g1 as int) =~= before.subrange(0, g1 as int));
            assert(cs.vals() == cb.vals());
            assert(cs.gates@[g1 + i] == Gate::Equal { lc, constant: output@[i as int] });
            assert forall|k: int| 0 <= k < i implies #[trigger] cs.gates@[g1 + k] == cb.gates@[g1 + k] by {}
            let newg = cs.gates@[g1 + i];
            assert(gate_holds(newg, cs.vals()) <==> lc.eval(cb.vals()) == output@[i as int].value());
            if cs.gates_hold() {
                assert forall|k: int| 0 <= k < i + 1 implies gate_holds(
                    #[trigger] cs.gates@[g1 + k],
                    cs.vals(),
                ) by {
                    if k < i {
                        assert(gate_holds(cb.gates@[g1 + k], cb.vals()));
                    }
                }
            }
            if c1.gates_hold() && forall|k: int|
                0 <= k < i + 1 ==> gate_holds(#[trigger] cs.gates@[g1 + k], cs.vals()) {
                assert forall|k: int| 0 <= k < i implies gate_holds(
                    #[trigger] cb.gates@[g1 + k],
                    cb.vals(),
                ) by {
                    assert(gate_holds(cs.gates@[g1 + k], cs.vals()));
                }
                assert(gate_holds(newg, cs.vals()));
            }
        }
        i = i + 1;
    }
    proof {
        assert(cs.witness@.subrange(0, c1.witness@.len() as int) =~= c1.witness@);
        lemma_extends_trans(*cs, c1, c0);
        assert forall|w: Seq<nat>| #[trigger] appended_hold(c0, *cs, w) implies permutation(
            *params,
            *sbox_type,
            reduced_values(w, input@),
        ) == Some(values(output@)) by {
            lemma_appended_split(*cs, c1, c0, w);
            assert(appended_hold(c0, c1, w));
            assert forall|k: int| 0 <= k < width implies #[trigger] lc_vals(outs@, w)[k]
                == values(output@)[k] by {
                assert(gate_holds(cs.gates@[g1 + k], w));
                assert(is_equal_gate(cs.gates@[g1 + k], outs@[k], output@[k]));
            }
            assert(lc_vals(outs@, w) =~= values(output@));
        }
        if c0.all_known() {
            let w = cs.vals();
            let g = cs.gates@;
            assert(w == c1.vals());
            assert forall|k: int| 0 <= k < width implies #[trigger] lc_vals(outs@, w)[k]
                == outs@[k].eval(w) by {}
            if forall|k: int|
                g.len() - width <= k < g.len() ==> gate_holds(#[trigger] g[k], w) {
                assert forall|k: int| 0 <= k < width implies #[trigger] lc_vals(outs@, w)[k]
                    == values(output@)[k] by {
                    assert(gate_holds(g[g1 + k], w));
                }
                assert(lc_vals(outs@, w) =~= values(output@));
            }
            if lc_vals(outs@, w) == values(output@) {
                assert forall|k: int| g.len() - width <= k < g.len() implies gate_holds(
                    #[trigger] g[k],
                    w,
                ) by {
                    let j = k - g1;
                    assert(is_equal_gate(g[g1 + j], outs@[j], output@[j]));
                    assert(lc_vals(outs@, w)[j] == values(output@)[j]);
                }
            }
        }
    }
    Ok(())
}

/// The padding variables hold zero under `w`.
pub open spec fn padding_zero(w: Seq<nat>, zeros: Seq<usize>) -> bool {
    forall|k: int| 0 <= k < zeros.len() ==> w[(#[trigger] zeros[k]) as int] % group_order() == 0
}

/// The 2:1 hash as constraints: permutes `[zeros[0], xl, xr, zeros[1], ...]`
/// and returns output combination one. The `zeros` are committed variables
/// whose value is zero; with every value known the result evaluates to the
/// native hash of the values of `xl` and `xr`.
#[allow(non_snake_case)]
pub fn Poseidon_hash_2_constraints(
    cs: &mut Circuit,
    xl: usize,
    xr: usize,
    zeros: &Vec<usize>,
    params: &PoseidonParams,
    sbox_type: &SboxType,
) -> (r: Result<LinearCombination, CircuitError>)
    requires
        old(cs).wf(),
        params.wf(),
        params.width >= 4,
        zeros@.len() == params.width - 2,
        xl < old(cs).witness@.len(),
        xr < old(cs).witness@.len(),
        forall|k: int| 0 <= k < zeros@.len() ==> #[trigger] zeros@[k] < old(cs).witness@.len(),
        old(cs).all_known() ==> forall|k: int|
            0 <= k < zeros@.len() ==> old(cs).vals()[#[trigger] zeros@[k] as int] == 0,
        old(cs).all_known() || old(cs).all_unknown(),
    ensures
        final(cs).wf(),
        final(cs).extends(old(cs)),
        r.is_ok() ==> {
            &&& r->Ok_0.wf(final(cs).witness@.len() as nat)
            &&& final(cs).gates@.len() == old(cs).gates@.len() + permutation_gates(*params, *sbox_type)
        },
        old(cs).all_known() ==> final(cs).all_known() && match r {
            Ok(h) => hash2(*params, *sbox_type, old(cs).vals()[xl as int], old(cs).vals()[xr as int])
                == Some(h.eval(final(cs).vals())),
            Err(_) => hash2(
                *params,
                *sbox_type,
                old(cs).vals()[xl as int],
                old(cs).vals()[xr as int],
            ).is_none(),
        },
        old(cs).all_unknown() ==> r.is_ok() && final(cs).all_unknown(),
        old(cs).all_known() && old(cs).gates_hold() && r.is_ok() ==> final(cs).gates_hold(),
        r.is_ok() ==> forall|w: Seq<nat>|
            #[trigger] appended_hold(*old(cs), *final(cs), w) && padding_zero(w, zeros@) ==> hash2(
                *params,
                *sbox_type,
                w[xl as int] % group_order(),
                w[xr as int] % group_order(),
            ) == Some(r->Ok_0.eval(w)),
{
    let ghost w = cs.vals();
    let ghost expected = hash_input(params.width as nat, w[xl as int], w[xr as int]);
    let mut inputs: Vec<usize> = Vec::new();
    inputs.push(zeros[0]);
    inputs.push(xl);
    inputs.push(xr);
    let mut i: usize = 1;
    while i < zeros.len()
        invariant
            w == cs.vals(),
            expected == hash_input(params.width as nat, w[xl as int], w[xr as int]),
            zeros@.len() == params.width - 2,
            params.width >= 4,
            1 <= i <= zeros@.len(),
            inputs@.len() == i + 2,
            inputs@[0] == zeros@[0],
            inputs@[1] == xl,
            inputs@[2] == xr,
            forall|k: int| 3 <= k < inputs@.len() ==> #[trigger] inputs@[k] == zeros@[k - 2],
            xl < cs.witness@.len(),
            xr < cs.witness@.len(),
            forall|k: int| 0 <= k < zeros@.len() ==> #[trigger] zeros@[k] < cs.witness@.len(),
            forall|k: int| 0 <= k < inputs@.len() ==> #[trigger] inputs@[k] < cs.witness@.len(),
            cs.all_known() ==> forall|k: int|
                0 <= k < zeros@.len() ==> w[#[trigger] zeros@[k] as int] == 0,
            cs.all_known() ==> forall|k: int|
                0 <= k < inputs@.len() ==> w[#[trigger] inputs@[k] as int] == expected[k],
        decreases zeros@.len() - i,
    {
        inputs.push(zeros[i]);
        i = i + 1;
    }
    proof {
        if cs.all_known() {
            assert(input_values(w, inputs@) =~= expected);
        }
    }
    let ghost c0 = *cs;
    match Poseidon_permutation_constraints(cs, &inputs, params, sbox_type) {
        Ok(outs) => {
            let h = outs[1].copy();
            proof {
                assert forall|v: Seq<nat>|
                    #[trigger] appended_hold(c0, *cs, v) && padding_zero(v, zeros@) implies hash2(
                    *params,
                    *sbox_type,
                    v[xl as int] % group_order(),
                    v[xr as int] % group_order(),
                ) == Some(h.eval(v)) by {
                    assert(reduced_values(v, inputs@) =~= hash_input(
                        params.width as nat,
                        v[xl as int] % group_order(),
                        v[xr as int] % group_order(),
                    )) by {
                        assert(v[zeros@[0] as int] % group_order() == 0);
                        assert forall|k: int| 3 <= k < inputs@.len() implies v[inputs@[k] as int]
                            % group_order() == 0 by {
                            assert(v[zeros@[k - 2] as int] % group_order() == 0);
                        }
                    }
                    assert(lc_vals(outs@, v)[1] == outs@[1].eval(v));
                }
            }
            Ok(h)
        },
        Err(e) => Err(e),
    }
}

/// Constrains the 2:1 hash of `xl` and `xr` to equal `output`. With every
/// value known, the constraint it adds last holds exactly where `output` is
/// the native hash of the values of `xl` and `xr`, and a system whose earlier
/// gates held is then satisfied exactly there.
#[allow(non_snake_case)]
pub fn Poseidon_hash_2_gadget(
    cs: &mut Circuit,
    xl: usize,
    xr: usize,
    zeros: &Vec<usize>,
    params: &PoseidonParams,
    sbox_type: &SboxType,
    output: &Fe,
) -> (r: Result<(), CircuitError>)
    requires
        old(cs).wf(),
        params.wf(),
        params.width >= 4,
        zeros@.len() == params.width - 2,
        xl < old(cs).witness@.len(),
        xr < old(cs).witness@.len(),
        forall|k: int| 0 <= k < zeros@.len() ==> #[trigger] zeros@[k] < old(cs).witness@.len(),
        old(cs).all_known() ==> forall|k: int|
            0 <= k < zeros@.len() ==> old(cs).vals()[#[trigger] zeros@[k] as int] == 0,
        old(cs).all_known() || old(cs).all_unknown(),
        output.wf(),
    ensures
        final(cs).wf(),
        final(cs).extends(old(cs)),
        r.is_ok() ==> final(cs).gates@.len() == old(cs).gates@.len() + permutation_gates(
            *params,
            *sbox_type,
        ) + 1,
        old(cs).all_known() ==> final(cs).all_known() && (r.is_ok() <==> hash2(
            *params,
            *sbox_type,
            old(cs).vals()[xl as int],
            old(cs).vals()[xr as int],
        ).is_some()),
        old(cs).all_known() && r.is_ok() ==> (gate_holds(final(cs).gates@.last(), final(cs).vals())
            <==> hash2(*params, *sbox_type, old(cs).vals()[xl as int], old(cs).vals()[xr as int])
            == Some(output.value())),
        old(cs).all_unknown() ==> r.is_ok() && final(cs).all_unknown(),
        old(cs).all_known() && old(cs).gates_hold() && r.is_ok() ==> (final(cs).satisfied()
            <==> hash2(*params, *sbox_type, old(cs).vals()[xl as int], old(cs).vals()[xr as int])
            == Some(output.value())),
        r.is_ok() ==> forall|w: Seq<nat>|
            #[trigger] appended_hold(*old(cs), *final(cs), w) && padding_zero(w, zeros@) ==> hash2(
                *params,
                *sbox_type,
                w[xl as int] % group_order(),
                w[xr as int] % group_order(),
            ) == Some(output.value()),
{
    let ghost c0 = *cs;
    let hash = match Poseidon_hash_2_constraints(cs, xl, xr, zeros, params, sbox_type) {
        Ok(h) => h,
        Err(e) => {
            return Err(e);
        },
    };
    let ghost c1 = *cs;
    let ghost hh = hash;
    cs.constrain_equal(hash, *output);
    proof {
        assert(cs.witness@.subrange(0, c1.witness@.len() as int) =~= c1.witness@);
        assert(cs.gates@.subrange(0, c1.gates@.len() as int) =~= c1.gates@);
        lemma_extends_trans(*cs, c1, c0);
        assert forall|w: Seq<nat>|
            #[trigger] appended_hold(c0, *cs, w) && padding_zero(w, zeros@) implies hash2(
            *params,
            *sbox_type,
            w[xl as int] % group_order(),
            w[xr as int] % group_order(),
        ) == Some(output.value()) by {
            lemma_appended_split(*cs, c1, c0, w);
            assert(appended_hold(c0, c1, w));
            assert(gate_holds(cs.gates@[c1.gates@.len() as int], w));
            assert(cs.gates@[c1.gates@.len() as int] == Gate::Equal { lc: hh, constant: *output });
        }
    }
    Ok(())
}

} // verus!
