//! Linear combinations of circuit variables with field coefficients.
use vstd::prelude::*;
use vstd::arithmetic::div_mod::{
    lemma_add_mod_noop, lemma_add_mod_noop_right, lemma_mod_twice, lemma_mul_mod_noop_left,
    lemma_small_mod,
};
use crate::field::{Fe, group_order, fadd, fmul, fe_add, fe_mul};

verus! {

/// The sum of `coefficient * w[variable]` over the terms, as an integer.
pub open spec fn terms_sum(t: Seq<(usize, Fe)>, w: Seq<nat>) -> int
    decreases t.len(),
{
    if t.len() == 0 {
        0
    } else {
        terms_sum(t.drop_last(), w) + t.last().1.value() * w[t.last().0 as int]
    }
}

/// `sum_k coefficient_k * variable_k + constant`.
#[derive(Debug)]
pub struct LinearCombination {
    pub terms: Vec<(usize, Fe)>,
    pub constant: Fe,
}

impl LinearCombination {
    /// The value under an assignment `w` of the variables.
    pub open spec fn eval(&self, w: Seq<nat>) -> nat {
        ((terms_sum(self.terms@, w) + self.constant.value()) % (group_order() as int)) as nat
    }

    /// Canonical coefficients, and every variable below `n`.
    pub open spec fn wf(&self, n: nat) -> bool {
        &&& self.constant.wf()
        &&& forall|k: int|
            0 <= k < self.terms@.len() ==> (#[trigger] self.terms@[k]).0 < n && self.terms@[k].1.wf()
    }

    /// The combination that is one variable.
    pub fn from_variable(v: usize) -> (r: LinearCombination)
        ensures
            r.wf((v + 1) as nat),
            r.terms@.len() == 1,
            r.terms@[0].0 == v,
            r.terms@[0].1.value() == 1,
            r.constant.value() == 0,
            forall|w: Seq<nat>| w[v as int] < group_order() ==> #[trigger] r.eval(w) == w[v as int],
            forall|w: Seq<nat>| #[trigger] r.eval(w) == w[v as int] % group_order(),
    {
        let mut terms: Vec<(usize, Fe)> = Vec::new();
        let one = Fe::one();
        terms.push((v, one));
        let r = LinearCombination { terms, constant: Fe::zero() };
        assert forall|w: Seq<nat>| #[trigger] r.eval(w) == w[v as int] % group_order() by {
            assert(r.terms@.drop_last().len() == 0);
            assert(r.terms@.last() == (v, one));
            assert(terms_sum(r.terms@.drop_last(), w) == 0);
            assert(terms_sum(r.terms@, w) == w[v as int]);
        }
        assert forall|w: Seq<nat>| w[v as int] < group_order() implies #[trigger] r.eval(w)
            == w[v as int] by {
            lemma_small_mod(w[v as int], group_order());
        }
        r
    }

    /// A copy of the combination.
    pub fn copy(&self) -> (r: LinearCombination)
        ensures
            r.terms@ == self.terms@,
            r.constant == self.constant,
    {
        LinearCombination { terms: copy_terms(&self.terms), constant: self.constant }
    }

    /// The same combination with one term per variable: the coefficients of a
    /// variable are summed, and variables whose coefficient sums to zero are
    /// dropped (one term stays, so a combination with variables keeps one).
    pub fn simplify(&self, n: usize) -> (r: LinearCombination)
        requires
            self.wf(n as nat),
        ensures
            r.wf(n as nat),
            self.terms@.len() > 0 ==> r.terms@.len() > 0,
            r.terms@.len() <= n + 1,
            forall|w: Seq<nat>| #[trigger] r.eval(w) == self.eval(w),
    {
        let ghost m = group_order() as int;
        let mut dense: Vec<Fe> = Vec::new();
        let mut v: usize = 0;
        while v < n
            invariant
                0 <= v <= n,
                dense@.len() == v,
                forall|k: int| 0 <= k < v ==> (#[trigger] dense@[k]).wf() && dense@[k].value() == 0,
            decreases n - v,
        {
            dense.push(Fe::zero());
            v = v + 1;
        }
        proof {
            assert forall|w: Seq<nat>| #[trigger] dense_sum(dense@, w, n as nat) == 0 by {
                lemma_dense_sum_zero(dense@, w, n as nat);
            }
        }
        let mut i: usize = 0;
        while i < self.terms.len()
            invariant
                self.wf(n as nat),
                dense@.len() == n,
                forall|k: int| 0 <= k < n ==> (#[trigger] dense@[k]).wf(),
                0 <= i <= self.terms@.len(),
                forall|w: Seq<nat>|
                    #[trigger] dense_sum(dense@, w, n as nat) % (group_order() as int) == terms_sum(
                        self.terms@.subrange(0, i as int),
                        w,
                    ) % (group_order() as int),
            decreases self.terms@.len() - i,
        {
            let (x, c) = self.terms[i];
            let ghost before = dense@;
            let updated = fe_add(&dense[x], &c);
            dense.set(x, updated);
            proof {
                assert forall|w: Seq<nat>| #[trigger] dense_sum(dense@, w, n as nat) % (
                group_order() as int) == terms_sum(self.terms@.subrange(0, i + 1), w) % (
                group_order() as int) by {
                    lemma_dense_sum_update(before, w, n as nat, x as int, updated);
                    assert(self.terms@.subrange(0, i + 1).drop_last() =~= self.terms@.subrange(
                        0,
                        i as int,
                    ));
                    lemma_dense_step(
                        dense_sum(before, w, n as nat),
                        terms_sum(self.terms@.subrange(0, i as int), w),
                        before[x as int].value() as int,
                        c.value() as int,
                        w[x as int] as int,
                        group_order() as int,
                    );
                }
            }
            i = i + 1;
        }
        assert(self.terms@.subrange(0, i as int) =~= self.terms@);
        let mut terms: Vec<(usize, Fe)> = Vec::new();
        let mut v: usize = 0;
        while v < n
            invariant
                dense@.len() == n,
                forall|k: int| 0 <= k < n ==> (#[trigger] dense@[k]).wf(),
                0 <= v <= n,
                terms@.len() <= v,
                forall|k: int| 0 <= k < terms@.len() ==> (#[trigger] terms@[k]).0 < n && terms@[k].1.wf(),
                forall|w: Seq<nat>| #[trigger] terms_sum(terms@, w) == dense_sum(dense@, w, v as nat),
            decreases n - v,
        {
            let ghost before = terms@;
            if !dense[v].is_zero() {
                let dv = dense[v];
                terms.push((v, dv));
                proof {
                    assert forall|w: Seq<nat>| #[trigger] terms_sum(terms@, w) == dense_sum(
                        dense@,
                        w,
                        (v + 1) as nat,
                    ) by {
                        assert(terms@.drop_last() =~= before);
                        assert(terms@.last() == (v, dv));
                        assert(terms_sum(before, w) == dense_sum(dense@, w, v as nat));
                    }
                }
            } else {
                proof {
                    assert forall|w: Seq<nat>| #[trigger] terms_sum(terms@, w) == dense_sum(
                        dense@,
                        w,
                        (v + 1) as nat,
                    ) by {
                        assert(dense@[v as int].value() * w[v as int] == 0);
                    }
                }
            }
            v = v + 1;
        }
        if terms.len() == 0 && self.terms.len() > 0 {
            let (x, _) = self.terms[0];
            let ghost before = terms@;
            let z = Fe::zero();
            terms.push((x, z));
            proof {
                assert forall|w: Seq<nat>| #[trigger] terms_sum(terms@, w) == dense_sum(
                    dense@,
                    w,
                    n as nat,
                ) by {
                    assert(terms@.drop_last() =~= before);
                    assert(terms@.last() == (x, z));
                    assert(terms_sum(before, w) == dense_sum(dense@, w, n as nat));
                    assert(z.value() * w[x as int] == 0);
                }
            }
        }
        let r = LinearCombination { terms, constant: self.constant };
        assert forall|w: Seq<nat>| #[trigger] r.eval(w) == self.eval(w) by {
            let m = group_order() as int;
            lemma_add_mod_noop(terms_sum(r.terms@, w), self.constant.value() as int, m);
            lemma_add_mod_noop(terms_sum(self.terms@, w), self.constant.value() as int, m);
        }
        r
    }

    /// The combination that is a constant.
    pub fn from_constant(c: Fe) -> (r: LinearCombination)
        requires
            c.wf(),
        ensures
            r.wf(0),
            r.terms@.len() == 0,
            forall|w: Seq<nat>| #[trigger] r.eval(w) == c.value(),
    {
        let r = LinearCombination { terms: Vec::new(), constant: c };
        assert forall|w: Seq<nat>| #[trigger] r.eval(w) == c.value() by {
            lemma_small_mod(c.value(), group_order());
        }
        r
    }

    /// This combination plus a constant.
    pub fn add_constant(&self, k: &Fe) -> (r: LinearCombination)
        requires
            k.wf(),
            self.constant.wf(),
        ensures
            r.terms@ == self.terms@,
            r.constant.wf(),
            r.constant.value() == fadd(self.constant.value(), k.value()),
            forall|n: nat| self.wf(n) ==> #[trigger] r.wf(n),
            forall|w: Seq<nat>| #[trigger] r.eval(w) == fadd(self.eval(w), k.value()),
    {
        let r = LinearCombination { terms: copy_terms(&self.terms), constant: fe_add(&self.constant, k) };
        assert forall|w: Seq<nat>| #[trigger] r.eval(w) == fadd(self.eval(w), k.value()) by {
            lemma_add_constant_mod(
                terms_sum(self.terms@, w),
                self.constant.value() as int,
                k.value() as int,
                group_order() as int,
            );
        }
        r
    }

    /// This combination times a constant.
    pub fn scale(&self, c: &Fe) -> (r: LinearCombination)
        requires
            c.wf(),
            self.constant.wf(),
            forall|k: int| 0 <= k < self.terms@.len() ==> (#[trigger] self.terms@[k]).1.wf(),
        ensures
            r.terms@.len() == self.terms@.len(),
            forall|k: int| 0 <= k < r.terms@.len() ==> (#[trigger] r.terms@[k]).0 == self.terms@[k].0,
            forall|n: nat| self.wf(n) ==> #[trigger] r.wf(n),
            forall|w: Seq<nat>| #[trigger] r.eval(w) == fmul(self.eval(w), c.value()),
    {
        let mut terms: Vec<(usize, Fe)> = Vec::new();
        let mut i: usize = 0;
        while i < self.terms.len()
            invariant
                c.wf(),
                forall|k: int| 0 <= k < self.terms@.len() ==> (#[trigger] self.terms@[k]).1.wf(),
                0 <= i <= self.terms@.len(),
                terms@.len() == i,
                forall|k: int|
                    0 <= k < i ==> (#[trigger] terms@[k]).0 == self.terms@[k].0 && terms@[k].1.wf()
                        && terms@[k].1.value() == fmul(self.terms@[k].1.value(), c.value()),
            decreases self.terms@.len() - i,
        {
            let (v, k) = self.terms[i];
            terms.push((v, fe_mul(&k, c)));
            i = i + 1;
        }
        let r = LinearCombination { terms, constant: fe_mul(&self.constant, c) };
        assert forall|w: Seq<nat>| #[trigger] r.eval(w) == fmul(self.eval(w), c.value()) by {
            lemma_terms_sum_scaled(self.terms@, r.terms@, c.value(), w);
            let m = group_order() as int;
            let a = terms_sum(self.terms@, w);
            let b = terms_sum(r.terms@, w);
            let k0 = self.constant.value() as int;
            let cv = c.value() as int;
            // b + (k0*c)%m == (a + k0) * c  (mod m)
            lemma_add_mod_noop(b, (k0 * cv) % m, m);
            lemma_small_mod(((k0 * cv) % m) as nat, group_order());
            lemma_add_mod_noop(b, k0 * cv, m);
            lemma_add_mod_noop(a * cv, k0 * cv, m);
            assert(a * cv + k0 * cv == (a + k0) * cv) by (nonlinear_arith);
            lemma_mul_mod_noop_left(a + k0, cv, m);
            lemma_small_mod(c.value(), group_order());
        }
        r
    }

    /// The sum of two combinations.
    pub fn plus(&self, other: &LinearCombination) -> (r: LinearCombination)
        requires
            self.constant.wf(),
            other.constant.wf(),
        ensures
            r.terms@ == self.terms@ + other.terms@,
            forall|n: nat| self.wf(n) && other.wf(n) ==> #[trigger] r.wf(n),
            forall|w: Seq<nat>| #[trigger] r.eval(w) == fadd(self.eval(w), other.eval(w)),
    {
        let mut terms = copy_terms(&self.terms);
        let mut i: usize = 0;
        while i < other.terms.len()
            invariant
                0 <= i <= other.terms@.len(),
                terms@ == self.terms@ + other.terms@.subrange(0, i as int),
            decreases other.terms@.len() - i,
        {
            terms.push(other.terms[i]);
            i = i + 1;
            assert(terms@ =~= self.terms@ + other.terms@.subrange(0, i as int));
        }
        assert(other.terms@.subrange(0, i as int) =~= other.terms@);
        let r = LinearCombination { terms, constant: fe_add(&self.constant, &other.constant) };
        assert forall|n: nat| self.wf(n) && other.wf(n) implies #[trigger] r.wf(n) by {
            assert forall|k: int| 0 <= k < r.terms@.len() implies (#[trigger] r.terms@[k]).0 < n
                && r.terms@[k].1.wf() by {
                if k >= self.terms@.len() {
                    assert(r.terms@[k] == other.terms@[k - self.terms@.len()]);
                }
            }
        }
        assert forall|w: Seq<nat>| #[trigger] r.eval(w) == fadd(self.eval(w), other.eval(w)) by {
            lemma_terms_sum_concat(self.terms@, other.terms@, w);
            lemma_plus_mod(
                terms_sum(self.terms@, w),
                terms_sum(other.terms@, w),
                self.constant.value() as int,
                other.constant.value() as int,
                group_order() as int,
            );
        }
        r
    }

    /// The value under the known values of the variables; `None` where one of
    /// its variables is unknown.
    pub fn evaluate(&self, w: &Vec<Option<Fe>>) -> (r: Option<Fe>)
        requires
            self.wf(w@.len()),
            known_wf(w@),
        ensures
            (forall|k: int| 0 <= k < self.terms@.len() ==> (#[trigger] w@[self.terms@[k].0 as int]).is_some())
                ==> r.is_some(),
            (exists|k: int| 0 <= k < self.terms@.len() && (#[trigger] w@[self.terms@[k].0 as int]).is_none())
                ==> r.is_none(),
            r.is_some() ==> r->0.wf() && r->0.value() == self.eval(assignment(w@)),
    {
        let ghost aw = assignment(w@);
        let mut acc = Fe::zero();
        let mut i: usize = 0;
        while i < self.terms.len()
            invariant
                self.wf(w@.len()),
                known_wf(w@),
                aw == assignment(w@),
                0 <= i <= self.terms@.len(),
                acc.wf(),
                acc.value() as int == terms_sum(self.terms@.subrange(0, i as int), aw) % (
                group_order() as int),
                forall|k: int| 0 <= k < i ==> (#[trigger] w@[self.terms@[k].0 as int]).is_some(),
            decreases self.terms@.len() - i,
        {
            let (v, k) = self.terms[i];
            match w[v] {
                Some(x) => {
                    let t = fe_mul(&k, &x);
                    let ghost prev = acc.value() as int;
                    acc = fe_add(&acc, &t);
                    proof {
                        let m = group_order() as int;
                        let pre = self.terms@.subrange(0, i as int);
                        let post = self.terms@.subrange(0, i + 1);
                        assert(post.drop_last() =~= pre);
                        assert(aw[v as int] == x.value());
                        let s = terms_sum(pre, aw);
                        lemma_add_mod_noop(s, (k.value() * x.value()) as int, m);
                        lemma_small_mod(prev as nat, group_order());
                        lemma_small_mod(t.value(), group_order());
                    }
                },
                None => {
                    return None;
                },
            }
            i = i + 1;
        }
        assert(self.terms@.subrange(0, i as int) =~= self.terms@);
        let r = fe_add(&acc, &self.constant);
        proof {
            let m = group_order() as int;
            let s = terms_sum(self.terms@, aw);
            lemma_add_mod_noop(s, self.constant.value() as int, m);
            lemma_small_mod(self.constant.value(), group_order());
        }
        Some(r)
    }
}

/// The sum of `d[v] * w[v]` over the variables `v < m`.
pub open spec fn dense_sum(d: Seq<Fe>, w: Seq<nat>, m: nat) -> int
    decreases m,
{
    if m == 0 {
        0
    } else {
        dense_sum(d, w, (m - 1) as nat) + d[m - 1].value() * w[m - 1]
    }
}

/// Changing one coefficient changes the dense sum by the change times its variable.
pub proof fn lemma_dense_sum_update(d: Seq<Fe>, w: Seq<nat>, m: nat, v: int, f: Fe)
    requires
        0 <= v < d.len(),
        m <= d.len(),
    ensures
        dense_sum(d.update(v, f), w, m) == dense_sum(d, w, m) + if v < m {
            (f.value() - d[v].value()) * w[v]
        } else {
            0
        },
    decreases m,
{
    if m > 0 {
        lemma_dense_sum_update(d, w, (m - 1) as nat, v, f);
        if v == m - 1 {
            assert(f.value() * w[v] == d[v].value() * w[v] + (f.value() - d[v].value()) * w[v])
                by (nonlinear_arith);
        }
    }
}

/// Every known value is canonical.
pub open spec fn known_wf(w: Seq<Option<Fe>>) -> bool {
    forall|i: int| 0 <= i < w.len() && (#[trigger] w[i]).is_some() ==> w[i]->0.wf()
}

/// The assignment of values to variables, zero where a value is unknown.
pub open spec fn assignment(w: Seq<Option<Fe>>) -> Seq<nat> {
    w.map_values(|o: Option<Fe>| match o {
        Some(f) => f.value(),
        None => 0,
    })
}

fn copy_terms(t: &Vec<(usize, Fe)>) -> (r: Vec<(usize, Fe)>)
    ensures
        r@ == t@,
{
    let mut r: Vec<(usize, Fe)> = Vec::new();
    let mut i: usize = 0;
    while i < t.len()
        invariant
            0 <= i <= t@.len(),
            r@ == t@.subrange(0, i as int),
        decreases t@.len() - i,
    {
        r.push(t[i]);
        i = i + 1;
        assert(r@ =~= t@.subrange(0, i as int));
    }
    assert(t@.subrange(0, i as int) =~= t@);
    r
}

proof fn lemma_dense_sum_zero(d: Seq<Fe>, w: Seq<nat>, m: nat)
    requires
        m <= d.len(),
        forall|k: int| 0 <= k < d.len() ==> (#[trigger] d[k]).value() == 0,
    ensures
        dense_sum(d, w, m) == 0,
    decreases m,
{
    if m > 0 {
        lemma_dense_sum_zero(d, w, (m - 1) as nat);
    }
}

/// One step of the dense accumulation: the sums stay equal modulo `m` when the
/// coefficient `a` of a variable of value `x` becomes `(a + c) % m`.
proof fn lemma_dense_step(ds: int, ts: int, a: int, c: int, x: int, m: int)
    requires
        0 < m,
        ds % m == ts % m,
    ensures
        (ds + ((a + c) % m - a) * x) % m == (ts + c * x) % m,
{
    let q = (a + c) % m;
    assert((q - a) * x == q * x - a * x) by (nonlinear_arith);
    lemma_mul_mod_noop_left(a + c, x, m);
    assert((a + c) * x == a * x + c * x) by (nonlinear_arith);
    lemma_add_mod_noop(ds, (q - a) * x, m);
    lemma_add_mod_noop(ts, c * x, m);
    lemma_add_mod_noop(ds + (q - a) * x, 0, m);
    assert((q * x) % m == (a * x + c * x) % m);
    lemma_add_mod_noop(q * x, -(a * x), m);
    lemma_add_mod_noop(a * x + c * x, -(a * x), m);
    assert(a * x + c * x + -(a * x) == c * x);
    lemma_add_mod_noop(ds, q * x - a * x, m);
    lemma_add_mod_noop(ts, c * x, m);
}

proof fn lemma_add_constant_mod(s: int, c: int, k: int, m: int)
    requires
        0 <= k < m,
    ensures
        (s + (c + k) % m) % m == ((s + c) % m + k) % m,
{
    lemma_add_mod_noop_right(s, c + k, m);
    lemma_add_mod_noop(s + c, k, m);
    lemma_small_mod(k as nat, m as nat);
    lemma_add_mod_noop_right((s + c) % m, k, m);
    lemma_add_mod_noop(s + c, k, m);
    assert(s + (c + k) == s + c + k);
    lemma_mod_twice(s + c, m);
    lemma_add_mod_noop((s + c) % m, k, m);
}

proof fn lemma_plus_mod(a: int, b: int, ca: int, cb: int, m: int)
    requires
        0 < m,
    ensures
        ((a + b) + (ca + cb) % m) % m == ((a + ca) % m + (b + cb) % m) % m,
{
    lemma_add_mod_noop_right(a + b, ca + cb, m);
    lemma_add_mod_noop(a + ca, b + cb, m);
    assert(a + b + (ca + cb) == (a + ca) + (b + cb));
}

/// The sum over two lists of terms is the sum of their sums.
pub proof fn lemma_terms_sum_concat(a: Seq<(usize, Fe)>, b: Seq<(usize, Fe)>, w: Seq<nat>)
    ensures
        terms_sum(a + b, w) == terms_sum(a, w) + terms_sum(b, w),
    decreases b.len(),
{
    if b.len() == 0 {
        assert(a + b =~= a);
    } else {
        assert((a + b).drop_last() =~= a + b.drop_last());
        lemma_terms_sum_concat(a, b.drop_last(), w);
    }
}

/// Scaling every coefficient scales the sum, modulo the group order.
pub proof fn lemma_terms_sum_scaled(t: Seq<(usize, Fe)>, s: Seq<(usize, Fe)>, c: nat, w: Seq<nat>)
    requires
        s.len() == t.len(),
        forall|k: int|
            0 <= k < t.len() ==> (#[trigger] s[k]).0 == t[k].0 && s[k].1.value() == fmul(
                t[k].1.value(),
                c,
            ),
    ensures
        terms_sum(s, w) % (group_order() as int) == (terms_sum(t, w) * c) % (group_order() as int),
    decreases t.len(),
{
    if t.len() > 0 {
        let m = group_order() as int;
        lemma_terms_sum_scaled(t.drop_last(), s.drop_last(), c, w);
        let a = terms_sum(t.drop_last(), w);
        let b = terms_sum(s.drop_last(), w);
        let k = t.last().1.value() as int;
        let x = w[t.last().0 as int] as int;
        let ci = c as int;
        assert(s.last().1.value() == (k * ci) % m);
        lemma_add_mod_noop(b, ((k * ci) % m) * x, m);
        lemma_mul_mod_noop_left(k * ci, x, m);
        lemma_add_mod_noop(a * ci, k * ci * x, m);
        lemma_add_mod_noop(b, k * ci * x, m);
        assert(a * ci + k * ci * x == (a + k * x) * ci) by (nonlinear_arith);
    }
}

/// The sum reads only the variables that its terms name.
pub proof fn lemma_terms_sum_frame(t: Seq<(usize, Fe)>, w1: Seq<nat>, w2: Seq<nat>)
    requires
        forall|k: int| 0 <= k < t.len() ==> w1[(#[trigger] t[k]).0 as int] == w2[t[k].0 as int],
    ensures
        terms_sum(t, w1) == terms_sum(t, w2),
    decreases t.len(),
{
    if t.len() > 0 {
        lemma_terms_sum_frame(t.drop_last(), w1, w2);
    }
}

} // verus!
