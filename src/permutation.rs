//! The native permutation engine and the 2:1 hash built on it.
use vstd::prelude::*;
use crate::field::{Fe, fadd, fmul, fe_add, fe_mul};
use crate::sbox::SboxType;
use crate::params::{PoseidonParams, values, all_wf, matrix_values};

verus! {

/// Adds the round keys that start at `off` to the state, element-wise.
pub open spec fn add_keys(s: Seq<nat>, keys: Seq<nat>, off: int) -> Seq<nat> {
    Seq::new(s.len(), |i: int| fadd(s[i], keys[off + i]))
}

/// The S-box on every element; `None` where it is undefined on one of them.
pub open spec fn full_sbox(sbox: SboxType, s: Seq<nat>) -> Option<Seq<nat>> {
    if forall|i: int| 0 <= i < s.len() ==> (#[trigger] sbox.spec_apply(s[i])).is_some() {
        Some(Seq::new(s.len(), |i: int| sbox.spec_apply(s[i])->0))
    } else {
        None
    }
}

/// The S-box on the last element only.
pub open spec fn partial_sbox(sbox: SboxType, s: Seq<nat>) -> Option<Seq<nat>> {
    match sbox.spec_apply(s[s.len() - 1]) {
        Some(y) => Some(s.update(s.len() - 1, y)),
        None => None,
    }
}

/// The field sum of `s[j] * row[j]` over the first `n` positions.
pub open spec fn dot(s: Seq<nat>, row: Seq<nat>, n: nat) -> nat
    decreases n,
{
    if n == 0 {
        0
    } else {
        fadd(dot(s, row, (n - 1) as nat), fmul(s[n - 1], row[n - 1]))
    }
}

/// The mixing step: `next[i] = sum_j s[j] * m[i][j]`.
pub open spec fn mix(m: Seq<Seq<nat>>, s: Seq<nat>) -> Seq<nat> {
    Seq::new(s.len(), |i: int| dot(s, m[i], s.len()))
}

/// Round `r` applies the S-box to every element: it is one of the full rounds
/// at the beginning or at the end.
pub open spec fn is_full_round(p: PoseidonParams, r: nat) -> bool {
    r < p.full_rounds_beginning || r >= p.full_rounds_beginning + p.partial_rounds
}

/// Round `r`: add its `width` keys, apply the S-box layer, mix.
pub open spec fn round(p: PoseidonParams, sbox: SboxType, r: nat, s: Seq<nat>) -> Option<Seq<nat>> {
    let keyed = add_keys(s, p.keys(), r * p.width);
    let subst = if is_full_round(p, r) {
        full_sbox(sbox, keyed)
    } else {
        partial_sbox(sbox, keyed)
    };
    match subst {
        Some(t) => Some(mix(p.matrix(), t)),
        None => None,
    }
}

/// The state after the first `n` rounds; `None` once an S-box was undefined.
pub open spec fn rounds(p: PoseidonParams, sbox: SboxType, input: Seq<nat>, n: nat) -> Option<
    Seq<nat>,
>
    decreases n,
{
    if n == 0 {
        Some(input)
    } else {
        match rounds(p, sbox, input, (n - 1) as nat) {
            Some(s) => round(p, sbox, (n - 1) as nat, s),
            None => None,
        }
    }
}

/// The permutation: all rounds of the schedule.
pub open spec fn permutation(p: PoseidonParams, sbox: SboxType, input: Seq<nat>) -> Option<Seq<nat>> {
    rounds(p, sbox, input, p.total_rounds())
}

/// The input of the 2:1 hash: zero, the two inputs, then zeros.
pub open spec fn hash_input(width: nat, a: nat, b: nat) -> Seq<nat> {
    Seq::new(width, |i: int| if i == 1 { a } else if i == 2 { b } else { 0 })
}

/// The 2:1 hash: position one of the permuted padded input.
pub open spec fn hash2(p: PoseidonParams, sbox: SboxType, a: nat, b: nat) -> Option<nat> {
    match permutation(p, sbox, hash_input(p.width as nat, a, b)) {
        Some(out) => Some(out[1]),
        None => None,
    }
}

/// Once an S-box was undefined, the later rounds stay undefined.
pub proof fn lemma_rounds_undefined(p: PoseidonParams, sbox: SboxType, input: Seq<nat>, n: nat, m: nat)
    requires
        n <= m,
        rounds(p, sbox, input, n).is_none(),
    ensures
        rounds(p, sbox, input, m).is_none(),
    decreases m,
{
    if n < m {
        lemma_rounds_undefined(p, sbox, input, n, (m - 1) as nat);
    }
}

/// The permutation's outcome is a function of the parameters, the S-box and
/// the input state (the all-zero state among them): two outcomes that each
/// meet the contract of `Poseidon_permutation` on the same arguments are equal.
pub proof fn lemma_permutation_deterministic(
    p: PoseidonParams,
    sbox: SboxType,
    input: Seq<nat>,
    first: Option<Seq<nat>>,
    second: Option<Seq<nat>>,
)
    requires
        first == permutation(p, sbox, input),
        second == permutation(p, sbox, input),
    ensures
        first == second,
{
}

fn add_round_keys(state: &Vec<Fe>, keys: &Vec<Fe>, off: usize) -> (r: Vec<Fe>)
    requires
        all_wf(state@),
        all_wf(keys@),
        off + state@.len() <= keys@.len(),
    ensures
        r@.len() == state@.len(),
        all_wf(r@),
        values(r@) == add_keys(values(state@), values(keys@), off as int),
{
    let kl = keys.len();
    let mut r: Vec<Fe> = Vec::new();
    let mut i: usize = 0;
    while i < state.len()
        invariant
            all_wf(state@),
            all_wf(keys@),
            off + state@.len() <= keys@.len(),
            kl == keys@.len(),
            0 <= i <= state@.len(),
            r@.len() == i,
            all_wf(r@),
            forall|k: int|
                0 <= k < i ==> #[trigger] r@[k].value() == fadd(
                    state@[k].value(),
                    keys@[off + k].value(),
                ),
        decreases state@.len() - i,
    {
        let x = fe_add(&state[i], &keys[off + i]);
        r.push(x);
        i = i + 1;
    }
    assert(values(r@) =~= add_keys(values(state@), values(keys@), off as int));
    r
}

fn apply_sbox_layer(sbox: &SboxType, state: &Vec<Fe>, full: bool) -> (r: Option<Vec<Fe>>)
    requires
        all_wf(state@),
        state@.len() >= 1,
    ensures
        ({
            let spec_r = if full {
                full_sbox(*sbox, values(state@))
            } else {
                partial_sbox(*sbox, values(state@))
            };
            match r {
                Some(v) => all_wf(v@) && v@.len() == state@.len() && spec_r == Some(values(v@)),
                None => spec_r.is_none(),
            }
        }),
{
    let ghost s = values(state@);
    let mut r: Vec<Fe> = Vec::new();
    let mut i: usize = 0;
    let last = state.len() - 1;
    while i < state.len()
        invariant
            s == values(state@),
            all_wf(state@),
            last == state@.len() - 1,
            0 <= i <= state@.len(),
            r@.len() == i,
            all_wf(r@),
            full ==> forall|k: int|
                0 <= k < i ==> (#[trigger] sbox.spec_apply(s[k])) == Some(r@[k].value()),
            !full ==> forall|k: int| 0 <= k < i && k != last ==> #[trigger] r@[k] == state@[k],
            !full && i == state@.len() ==> sbox.spec_apply(s[last as int]) == Some(
                r@[last as int].value(),
            ),
        decreases state@.len() - i,
    {
        if full || i == last {
            match sbox.apply_sbox(&state[i]) {
                Some(y) => {
                    r.push(y);
                },
                None => {
                    assert(sbox.spec_apply(s[i as int]).is_none());
                    return None;
                },
            }
        } else {
            r.push(state[i]);
        }
        i = i + 1;
    }
    proof {
        if full {
            assert(values(r@) =~= Seq::new(s.len(), |k: int| sbox.spec_apply(s[k])->0));
        } else {
            assert(values(r@) =~= s.update(last as int, sbox.spec_apply(s[last as int])->0));
        }
    }
    Some(r)
}

fn linear_layer(m: &Vec<Vec<Fe>>, state: &Vec<Fe>) -> (r: Vec<Fe>)
    requires
        all_wf(state@),
        m@.len() == state@.len(),
        forall|i: int|
            0 <= i < state@.len() ==> (#[trigger] m@[i])@.len() == state@.len() && all_wf(m@[i]@),
    ensures
        r@.len() == state@.len(),
        all_wf(r@),
        values(r@) == mix(matrix_values(m@), values(state@)),
{
    let ghost s = values(state@);
    let n = state.len();
    let mut r: Vec<Fe> = Vec::new();
    let mut i: usize = 0;
    while i < n
        invariant
            s == values(state@),
            n == state@.len(),
            all_wf(state@),
            m@.len() == n,
            forall|k: int| 0 <= k < n ==> (#[trigger] m@[k])@.len() == n && all_wf(m@[k]@),
            0 <= i <= n,
            r@.len() == i,
            all_wf(r@),
            forall|k: int| 0 <= k < i ==> #[trigger] r@[k].value() == dot(s, values(m@[k]@), n as nat),
        decreases n - i,
    {
        let row = &m[i];
        let mut acc = Fe::zero();
        let mut j: usize = 0;
        while j < n
            invariant
                s == values(state@),
                n == state@.len(),
                all_wf(state@),
                row@.len() == n,
                all_wf(row@),
                0 <= j <= n,
                acc.wf(),
                acc.value() == dot(s, values(row@), j as nat),
            decreases n - j,
        {
            let t = fe_mul(&state[j], &row[j]);
            acc = fe_add(&acc, &t);
            j = j + 1;
        }
        r.push(acc);
        i = i + 1;
    }
    assert(values(r@) =~= mix(matrix_values(m@), s));
    r
}

/// Runs the permutation on a state of `width` elements: for each round, adds its
/// round keys, applies the S-box (to every element in a full round, to the last
/// one in a partial round) and mixes. `None` when the S-box is undefined on a
/// value that it meets.
#[allow(non_snake_case)]
pub fn Poseidon_permutation(input: &Vec<Fe>, params: &PoseidonParams, sbox: &SboxType) -> (r:
    Option<Vec<Fe>>)
    requires
        params.wf(),
        input@.len() == params.width,
        all_wf(input@),
    ensures
        match r {
            Some(v) => all_wf(v@) && v@.len() == params.width && permutation(
                *params,
                *sbox,
                values(input@),
            ) == Some(values(v@)),
            None => permutation(*params, *sbox, values(input@)).is_none(),
        },
{
    let width = params.width;
    let fb = params.full_rounds_beginning;
    let pr = params.partial_rounds;
    let ghost p = *params;
    proof {
        let t = p.total_rounds();
        assert(t <= t * width) by (nonlinear_arith)
            requires
                width >= 1,
        ;
    }
    let kl = params.round_keys.len();
    let total = fb + pr + params.full_rounds_end;
    let mut state: Vec<Fe> = Vec::new();
    let mut i: usize = 0;
    while i < width
        invariant
            input@.len() == width,
            0 <= i <= width,
            state@ == input@.subrange(0, i as int),
        decreases width - i,
    {
        state.push(input[i]);
        i = i + 1;
    }
    assert(state@ =~= input@);
    let mut r: usize = 0;
    while r < total
        invariant
            p == *params,
            params.wf(),
            width == params.width,
            fb == params.full_rounds_beginning,
            pr == params.partial_rounds,
            total == p.total_rounds(),
            kl == total * width,
            0 <= r <= total,
            state@.len() == width,
            all_wf(state@),
            rounds(p, *sbox, values(input@), r as nat) == Some(values(state@)),
        decreases total - r,
    {
        assert(r * width + width <= total * width) by (nonlinear_arith)
            requires
                r < total,
        ;
        let off = r * width;
        let keyed = add_round_keys(&state, &params.round_keys, off);
        let full = r < fb || r >= fb + pr;
        match apply_sbox_layer(sbox, &keyed, full) {
            Some(t) => {
                state = linear_layer(&params.MDS_matrix, &t);
            },
            None => {
                proof {
                    lemma_rounds_undefined(p, *sbox, values(input@), (r + 1) as nat, total as nat);
                }
                return None;
            },
        }
        r = r + 1;
    }
    Some(state)
}

/// The 2:1 hash: permutes `[0, xl, xr, 0, ..., 0]` and returns position one of
/// the result. `None` when the S-box is undefined on a value that it meets.
#[allow(non_snake_case)]
pub fn Poseidon_hash_2(xl: Fe, xr: Fe, params: &PoseidonParams, sbox: &SboxType) -> (r: Option<Fe>)
    requires
        params.wf(),
        params.width >= 4,
        xl.wf(),
        xr.wf(),
    ensures
        match r {
            Some(h) => h.wf() && hash2(*params, *sbox, xl.value(), xr.value()) == Some(h.value()),
            None => hash2(*params, *sbox, xl.value(), xr.value()).is_none(),
        },
{
    let mut input: Vec<Fe> = Vec::new();
    input.push(Fe::zero());
    input.push(xl);
    input.push(xr);
    let mut i: usize = 3;
    while i < params.width
        invariant
            3 <= i <= params.width,
            input@.len() == i,
            all_wf(input@),
            forall|k: int|
                0 <= k < i ==> #[trigger] input@[k].value() == hash_input(
                    params.width as nat,
                    xl.value(),
                    xr.value(),
                )[k],
        decreases params.width - i,
    {
        input.push(Fe::zero());
        i = i + 1;
    }
    assert(values(input@) =~= hash_input(params.width as nat, xl.value(), xr.value()));
    match Poseidon_permutation(&input, params, sbox) {
        Some(out) => Some(out[1]),
        None => None,
    }
}

} // verus!
