//! Polynomial evaluations over a field.

use crate::field::{sub_mod, FieldExt};
use vstd::arithmetic::div_mod::{lemma_mul_mod_noop_left, lemma_mul_mod_noop_right, lemma_small_mod};
use vstd::arithmetic::mul::lemma_mul_is_associative;
use vstd::prelude::*;

verus! {

/// The inverse of `a` modulo `m`.
pub open spec fn inv_mod(a: nat, m: nat) -> nat {
    choose|w: nat| w < m && #[trigger] ((a * w) % m) == 1
}

/// An inverse modulo `m` below `m` is the only one.
pub proof fn lemma_inverse_unique(a: nat, w: nat, m: nat)
    requires
        m > 1,
        w < m,
        (a * w) % m == 1,
    ensures
        inv_mod(a, m) == w,
{
    let v = inv_mod(a, m);
    assert(v < m && (a * v) % m == 1);
    // w = w * (a * v) = (w * a) * v = v, modulo m.
    lemma_mul_mod_noop_right(w as int, (a * v) as int, m as int);
    lemma_mul_is_associative(w as int, a as int, v as int);
    lemma_mul_mod_noop_left((w * a) as int, v as int, m as int);
    assert(w * a == a * w) by (nonlinear_arith);
    lemma_small_mod(w, m);
    lemma_small_mod(v, m);
}

/// `prod (z - r)` over the roots, modulo `m`, the factors taken from the last
/// root to the first.
pub open spec fn vanishing_eval(roots: Seq<nat>, z: nat, m: nat) -> nat
    decreases roots.len(),
{
    if roots.len() == 0 {
        1nat % m
    } else {
        (sub_mod(z, roots.last(), m) * vanishing_eval(roots.drop_last(), z, m)) % m
    }
}

/// Evaluates at `z` the monic polynomial whose roots are `roots`.
pub fn evaluate_vanishing_polynomial<F: FieldExt>(roots: &[F], z: F) -> (r: F)
    ensures
        r.value() == vanishing_eval(values(roots@), z.value(), F::modulus()),
{
    let ghost rv = values(roots@);
    let mut acc = F::one();
    let mut i: usize = 0;
    proof {
        F::lemma_value_bound(acc);
        lemma_small_mod(1, F::modulus());
    }
    while i < roots.len()
        invariant
            i <= roots@.len(),
            rv == values(roots@),
            acc.value() == vanishing_eval(rv.take(i as int), z.value(), F::modulus()),
        decreases roots@.len() - i,
    {
        let d = z.sub(&roots[i]);
        acc = d.mul(&acc);
        assert(rv.take(i + 1).drop_last() =~= rv.take(i as int));
        i = i + 1;
    }
    assert(rv.take(roots@.len() as int) =~= rv);
    acc
}

/// The product over `k < n`, `k != j`, of `(u - x_k) / (x_j - x_k)` modulo
/// `m`: the `j`-th Lagrange basis polynomial of the points `xs`, at `u`.
pub open spec fn lagrange_basis(xs: Seq<nat>, j: int, u: nat, m: nat, n: nat) -> nat
    decreases n,
{
    if n == 0 {
        1nat % m
    } else if n - 1 == j {
        lagrange_basis(xs, j, u, m, (n - 1) as nat)
    } else {
        let k = n - 1;
        (((lagrange_basis(xs, j, u, m, (n - 1) as nat) * sub_mod(u, xs[k], m)) % m) * inv_mod(
            sub_mod(xs[j], xs[k], m),
            m,
        )) % m
    }
}

/// `sum e_j * l_j(u)` over `j < n`, modulo `m`: the polynomial of degree below
/// `xs.len()` through the points `(x_j, e_j)`, evaluated at `u`.
pub open spec fn lagrange_eval(xs: Seq<nat>, es: Seq<nat>, u: nat, m: nat, n: nat) -> nat
    decreases n,
{
    if n == 0 {
        0
    } else {
        (lagrange_eval(xs, es, u, m, (n - 1) as nat) + (es[n - 1] * lagrange_basis(
            xs,
            n - 1,
            u,
            m,
            xs.len(),
        )) % m) % m
    }
}

/// No value occurs twice.
pub open spec fn distinct(s: Seq<nat>) -> bool {
    forall|i: int, j: int| 0 <= i < s.len() && 0 <= j < s.len() && i != j ==> s[i] != s[j]
}

/// The values of a list of field elements.
pub open spec fn values<F: FieldExt>(s: Seq<F>) -> Seq<nat> {
    s.map_values(|x: F| x.value())
}

/// Evaluates at `u` the polynomial of degree below `points.len()` that takes
/// the value `evals[j]` at `points[j]`.
pub fn lagrange_evaluate<F: FieldExt>(points: &[F], evals: &[F], u: F) -> (r: F)
    requires
        points@.len() == evals@.len(),
        distinct(values(points@)),
    ensures
        r.value() == lagrange_eval(
            values(points@),
            values(evals@),
            u.value(),
            F::modulus(),
            points@.len() as nat,
        ),
{
    let ghost xs = values(points@);
    let ghost es = values(evals@);
    let n = points.len();
    let mut acc = F::zero();
    proof {
        F::lemma_value_bound(acc);
    }
    let mut j: usize = 0;
    while j < n
        invariant
            n == points@.len(),
            n == evals@.len(),
            j <= n,
            F::modulus() > 1,
            xs == values(points@),
            es == values(evals@),
            distinct(xs),
            acc.value() == lagrange_eval(xs, es, u.value(), F::modulus(), j as nat),
        decreases n - j,
    {
        let mut basis = F::one();
        proof {
            F::lemma_value_bound(basis);
            lemma_small_mod(1, F::modulus());
        }
        let mut k: usize = 0;
        while k < n
            invariant
                n == points@.len(),
                j < n,
                k <= n,
                F::modulus() > 1,
                xs == values(points@),
                distinct(xs),
                basis.value() == lagrange_basis(xs, j as int, u.value(), F::modulus(), k as nat),
            decreases n - k,
        {
            if k != j {
                let num = u.sub(&points[k]);
                let den = points[j].sub(&points[k]);
                proof {
                    F::lemma_value_bound(points@[j as int]);
                    F::lemma_value_bound(points@[k as int]);
                    assert(xs[j as int] != xs[k as int]);
                    assert(xs[j as int] == points@[j as int].value());
                    assert(xs[k as int] == points@[k as int].value());
                    if den.value() == 0 {
                        vstd::arithmetic::div_mod::lemma_fundamental_div_mod(
                            xs[j as int] + F::modulus() - xs[k as int],
                            F::modulus() as int,
                        );
                        assert(false) by (nonlinear_arith)
                            requires
                                xs[j as int] < F::modulus(),
                                xs[k as int] < F::modulus(),
                                xs[j as int] != xs[k as int],
                                (xs[j as int] + F::modulus() - xs[k as int]) == F::modulus() * ((xs[j as int] + F::modulus() - xs[k as int]) / (F::modulus() as int)),
                        ;
                    }
                }
                match den.invert() {
                    Some(w) => {
                        proof {
                            F::lemma_value_bound(w);
                            lemma_inverse_unique(den.value(), w.value(), F::modulus());
                        }
                        basis = basis.mul(&num);
                        basis = basis.mul(&w);
                    },
                    None => {
                        assert(false);
                    },
                }
            }
            k = k + 1;
        }
        let term = evals[j].mul(&basis);
        acc = acc.add(&term);
        j = j + 1;
    }
    acc
}

/// The vanishing polynomial of `roots` is zero at each root.
pub proof fn lemma_vanishing_at_root(roots: Seq<nat>, z: nat, m: nat)
    requires
        m > 1,
        z < m,
        roots.contains(z),
    ensures
        vanishing_eval(roots, z, m) == 0,
    decreases roots.len(),
{
    let rest = vanishing_eval(roots.drop_last(), z, m);
    if roots.last() == z {
        assert(sub_mod(z, z, m) == 0) by {
            vstd::arithmetic::div_mod::lemma_mod_self_0(m as int);
        }
        assert(0 * rest == 0);
        lemma_small_mod(0, m);
        assert(vanishing_eval(roots, z, m) == (sub_mod(z, z, m) * rest) % m);
    } else {
        let k = choose|k: int| 0 <= k < roots.len() && roots[k] == z;
        assert(roots.drop_last()[k] == z);
        lemma_vanishing_at_root(roots.drop_last(), z, m);
        assert(sub_mod(z, roots.last(), m) * 0 == 0);
        lemma_small_mod(0, m);
        assert(vanishing_eval(roots, z, m) == (sub_mod(z, roots.last(), m) * rest) % m);
    }
}

/// The vanishing polynomial does not depend on the order of its roots: it is
/// the factor of any one root times the vanishing polynomial of the others.
pub proof fn lemma_vanishing_remove(s: Seq<nat>, k: int, z: nat, m: nat)
    requires
        m > 1,
        0 <= k < s.len(),
    ensures
        vanishing_eval(s, z, m) == (sub_mod(z, s[k], m) * vanishing_eval(s.remove(k), z, m)) % m,
    decreases s.len(),
{
    if k < s.len() - 1 {
        let rest = s.drop_last();
        let a = sub_mod(z, s.last(), m);
        let b = sub_mod(z, s[k], m);
        lemma_vanishing_remove(rest, k, z, m);
        assert(s.remove(k).drop_last() =~= rest.remove(k));
        assert(s.remove(k).last() == s.last());
        assert(rest[k] == s[k]);
        let w = vanishing_eval(rest.remove(k), z, m);
        assert(vanishing_eval(s.remove(k), z, m) == (a * w) % m);
        vstd::arithmetic::div_mod::lemma_mul_mod_noop_right(a as int, (b * w) as int, m as int);
        vstd::arithmetic::div_mod::lemma_mul_mod_noop_right(b as int, (a * w) as int, m as int);
        assert(a * (b * w) == b * (a * w)) by (nonlinear_arith);
    } else {
        assert(s.remove(k) =~= s.drop_last());
    }
}

/// `d` has an inverse modulo `m`.
pub open spec fn has_inverse(d: nat, m: nat) -> bool {
    exists|w: nat| w < m && #[trigger] ((d * w) % m) == 1
}

/// Every element but zero has an inverse modulo `m`: `m` is prime.
pub open spec fn invertible_mod(m: nat) -> bool {
    forall|d: nat| 0 < d < m ==> #[trigger] has_inverse(d, m)
}

/// `d` times its inverse is one.
proof fn lemma_inv_mod(d: nat, m: nat)
    requires
        m > 1,
        invertible_mod(m),
        0 < d < m,
    ensures
        (d * inv_mod(d, m)) % m == 1,
        inv_mod(d, m) < m,
{
    assert(has_inverse(d, m));
}

/// `x - y` is not zero modulo `m` where `x` and `y` differ.
proof fn lemma_sub_mod_nonzero(x: nat, y: nat, m: nat)
    requires
        x < m,
        y < m,
        x != y,
    ensures
        0 < sub_mod(x, y, m) < m,
{
    let d = x + m - y;
    assert(0 < d < 2 * m);
    if d < m {
        vstd::arithmetic::div_mod::lemma_small_mod(d as nat, m);
    } else {
        assert(d % (m as int) == d - m) by (nonlinear_arith)
            requires
                m <= d < 2 * m,
        ;
    }
}

/// The basis polynomial of node `j`, at node `j`, is one.
proof fn lemma_basis_at_own_node(xs: Seq<nat>, j: int, m: nat, n: nat)
    requires
        m > 1,
        invertible_mod(m),
        0 <= j < xs.len(),
        n <= xs.len(),
        distinct(xs),
        forall|i: int| 0 <= i < xs.len() ==> #[trigger] xs[i] < m,
    ensures
        lagrange_basis(xs, j, xs[j], m, n) == 1,
    decreases n,
{
    if n == 0 {
        vstd::arithmetic::div_mod::lemma_small_mod(1, m);
    } else if n - 1 != j {
        lemma_basis_at_own_node(xs, j, m, (n - 1) as nat);
        let k = n - 1;
        let d = sub_mod(xs[j], xs[k], m);
        lemma_sub_mod_nonzero(xs[j], xs[k], m);
        vstd::arithmetic::div_mod::lemma_small_mod(d, m);
        lemma_inv_mod(d, m);
        assert(lagrange_basis(xs, j, xs[j], m, (n - 1) as nat) == 1);
        assert(1 * d == d);
        assert(lagrange_basis(xs, j, xs[j], m, n) == ((((1 * d) % m) * inv_mod(d, m)) % m));
    } else {
        lemma_basis_at_own_node(xs, j, m, (n - 1) as nat);
    }
}

/// The basis polynomial of node `k` is zero at another node `j`, once the
/// factor of `j` is in the product.
proof fn lemma_basis_at_other_node(xs: Seq<nat>, k: int, j: int, m: nat, n: nat)
    requires
        m > 1,
        0 <= j < xs.len(),
        0 <= k < xs.len(),
        j != k,
        j < n <= xs.len(),
        forall|i: int| 0 <= i < xs.len() ==> #[trigger] xs[i] < m,
    ensures
        lagrange_basis(xs, k, xs[j], m, n) == 0,
    decreases n,
{
    let u = xs[j];
    let prev = lagrange_basis(xs, k, u, m, (n - 1) as nat);
    lemma_small_mod(0, m);
    if n - 1 == j {
        assert(sub_mod(u, u, m) == 0) by {
            vstd::arithmetic::div_mod::lemma_mod_self_0(m as int);
        }
        assert(prev * 0 == 0);
        let w = inv_mod(sub_mod(xs[k], xs[n - 1], m), m);
        assert(0 * w == 0);
    } else if n - 1 == k {
        lemma_basis_at_other_node(xs, k, j, m, (n - 1) as nat);
    } else {
        lemma_basis_at_other_node(xs, k, j, m, (n - 1) as nat);
        let d = sub_mod(u, xs[n - 1], m);
        assert(0 * d == 0);
        let w = inv_mod(sub_mod(xs[k], xs[n - 1], m), m);
        assert(0 * w == 0);
    }
}

/// The sum of the first `n` terms of the interpolation at node `j`: the
/// value at `j` once `j` is among them, zero before.
proof fn lemma_lagrange_partial(xs: Seq<nat>, es: Seq<nat>, j: int, m: nat, n: nat)
    requires
        m > 1,
        invertible_mod(m),
        xs.len() == es.len(),
        0 <= j < xs.len(),
        n <= xs.len(),
        distinct(xs),
        forall|i: int| 0 <= i < xs.len() ==> #[trigger] xs[i] < m,
        forall|i: int| 0 <= i < es.len() ==> #[trigger] es[i] < m,
    ensures
        lagrange_eval(xs, es, xs[j], m, n) == if j < n { es[j] } else { 0 },
    decreases n,
{
    if n > 0 {
        lemma_lagrange_partial(xs, es, j, m, (n - 1) as nat);
        let k = n - 1;
        if k == j {
            lemma_basis_at_own_node(xs, j, m, xs.len());
            vstd::arithmetic::div_mod::lemma_small_mod(es[j], m);
            assert(es[j] * 1 == es[j]);
        } else {
            if j < k {
                lemma_basis_at_other_node(xs, k, j, m, xs.len());
            } else {
                lemma_basis_at_other_node(xs, k, j, m, xs.len());
            }
            let prev = lagrange_eval(xs, es, xs[j], m, (n - 1) as nat);
            assert(es[k] * 0 == 0);
            lemma_small_mod(0, m);
            assert(prev < m);
            vstd::arithmetic::div_mod::lemma_small_mod(prev, m);
        }
    }
}

/// The interpolating polynomial takes the value `es[j]` at the node `xs[j]`.
pub proof fn lemma_lagrange_at_node(xs: Seq<nat>, es: Seq<nat>, j: int, m: nat)
    requires
        m > 1,
        invertible_mod(m),
        xs.len() == es.len(),
        0 <= j < xs.len(),
        distinct(xs),
        forall|i: int| 0 <= i < xs.len() ==> #[trigger] xs[i] < m,
        forall|i: int| 0 <= i < es.len() ==> #[trigger] es[i] < m,
    ensures
        lagrange_eval(xs, es, xs[j], m, xs.len()) == es[j],
{
    lemma_lagrange_partial(xs, es, j, m, xs.len());
}

} // verus!
