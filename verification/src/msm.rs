//! Multiscalar multiplications kept as lists of terms.
//!
//! A term is a scalar and a base. The bases of [`Msm`] are points; those of
//! [`ProjectiveMsm`] are themselves multiscalar multiplications standing for
//! the point they evaluate to. Evaluating the terms is left to whoever holds
//! the points.

use crate::field::FieldExt;
use vstd::prelude::*;

verus! {

/// `b` to the power `e`, reduced modulo `m` after each multiplication.
pub open spec fn pow_mod(b: nat, e: nat, m: nat) -> nat
    decreases e,
{
    if e == 0 {
        1nat % m
    } else {
        (pow_mod(b, (e - 1) as nat, m) * b) % m
    }
}

/// Every scalar multiplied by `f` modulo `m`.
pub open spec fn scale_terms<B>(t: Seq<(nat, B)>, f: nat, m: nat) -> Seq<(nat, B)> {
    Seq::new(t.len(), |k: int| ((t[k].0 * f) % m, t[k].1))
}

/// The scalar of term `k` multiplied by `b` to the power of the number of
/// terms after it: the terms combined as the coefficients of a polynomial in
/// `b`, highest degree first.
pub open spec fn combine_terms<B>(t: Seq<(nat, B)>, b: nat, m: nat) -> Seq<(nat, B)> {
    Seq::new(t.len(), |k: int| ((t[k].0 * pow_mod(b, (t.len() - 1 - k) as nat, m)) % m, t[k].1))
}

/// The terms of a combination of points, with each scalar multiplied into the
/// terms of the combination it stands for.
pub open spec fn distribute<P>(t: Seq<(nat, Seq<(nat, P)>)>, m: nat) -> Seq<(nat, P)>
    decreases t.len(),
{
    if t.len() == 0 {
        Seq::empty()
    } else {
        distribute(t.drop_last(), m) + scale_terms(t.last().1, t.last().0, m)
    }
}

/// The terms of all the given combinations, distributed, one after another.
pub open spec fn flatten_msms<P>(t: Seq<Seq<(nat, Seq<(nat, P)>)>>, m: nat) -> Seq<(nat, P)>
    decreases t.len(),
{
    if t.len() == 0 {
        Seq::empty()
    } else {
        flatten_msms(t.drop_last(), m) + distribute(t.last(), m)
    }
}

/// The terms of a list, with each scalar taken by its value.
pub open spec fn terms_view<F: FieldExt, B>(t: Seq<(F, B)>) -> Seq<(nat, B)> {
    Seq::new(t.len(), |k: int| (t[k].0.value(), t[k].1))
}

/// A multiscalar multiplication over bases of type `B`: points, or
/// combinations of points.
pub struct Msm<F, B> {
    pub terms: Vec<(F, B)>,
}

/// A multiscalar multiplication whose bases are combinations of points.
pub type ProjectiveMsm<F, P> = Msm<F, Msm<F, P>>;

/// A list of [`ProjectiveMsm`]s, to be combined and flattened.
pub struct PreMsm<F, P> {
    pub msms: Vec<ProjectiveMsm<F, P>>,
}

/// The two sides of a pairing check.
pub struct PairMsm<F, P> {
    pub left: Msm<F, P>,
    pub right: Msm<F, P>,
}

impl<F: FieldExt, B> Msm<F, B> {
    /// The terms, each scalar taken by its value.
    pub open spec fn view(&self) -> Seq<(nat, B)> {
        terms_view(self.terms@)
    }
}

/// The terms of a combination of combinations, each taken by its value.
pub open spec fn projective_view<F: FieldExt, P>(m: ProjectiveMsm<F, P>) -> Seq<(nat, Seq<(nat, P)>)> {
    Seq::new(m.terms@.len(), |k: int| (m.terms@[k].0.value(), m.terms@[k].1.view()))
}

impl<F: FieldExt, P> PreMsm<F, P> {
    pub open spec fn view(&self) -> Seq<Seq<(nat, Seq<(nat, P)>)>> {
        Seq::new(self.msms@.len(), |k: int| projective_view(self.msms@[k]))
    }
}

impl<F: FieldExt, B> Msm<F, B> {
    /// An empty multiscalar multiplication.
    pub fn new() -> (r: Self)
        ensures
            r.view() == Seq::<(nat, B)>::empty(),
            r.terms@ == Seq::<(F, B)>::empty(),
    {
        Msm { terms: Vec::new() }
    }

    /// Adds the term `scalar * point`.
    pub fn append_term(&mut self, scalar: F, point: B)
        ensures
            final(self).view() == old(self).view().push((scalar.value(), point)),
            final(self).terms@ == old(self).terms@.push((scalar, point)),
    {
        self.terms.push((scalar, point));
        assert(self.view() =~= old(self).view().push((scalar.value(), point)));
    }

    /// Multiplies every scalar by `factor`.
    pub fn scale(&mut self, factor: F)
        ensures
            final(self).view() == scale_terms(old(self).view(), factor.value(), F::modulus()),
    {
        proof {
            F::lemma_value_bound(factor);
        }
        let mut i: usize = 0;
        while i < self.terms.len()
            invariant
                i <= self.terms@.len(),
                self.terms@.len() == old(self).terms@.len(),
                F::modulus() > 1,
                forall|k: int|
                    0 <= k < i ==> (#[trigger] self.terms@[k]).0.value() == (old(self).terms@[k].0.value()
                        * factor.value()) % F::modulus() && self.terms@[k].1 == old(self).terms@[k].1,
                forall|k: int| i <= k < self.terms@.len() ==> #[trigger] self.terms@[k] == old(self).terms@[k],
            decreases self.terms@.len() - i,
        {
            let s = self.terms[i].0;
            self.terms[i].0 = s.mul(&factor);
            i = i + 1;
        }
        assert(self.view() =~= scale_terms(old(self).view(), factor.value(), F::modulus()));
    }

    /// Multiplies the scalar of each term by `base` to the power of the
    /// number of terms after it.
    pub fn combine_with_base(&mut self, base: F)
        ensures
            final(self).view() == combine_terms(old(self).view(), base.value(), F::modulus()),
    {
        let n = self.terms.len();
        let mut acc = F::one();
        let mut j: usize = 0;
        proof {
            F::lemma_value_bound(acc);
            vstd::arithmetic::div_mod::lemma_small_mod(1, F::modulus());
        }
        while j < n
            invariant
                n == self.terms@.len(),
                n == old(self).terms@.len(),
                j <= n,
                acc.value() == pow_mod(base.value(), j as nat, F::modulus()),
                forall|k: int|
                    n - j <= k < n ==> (#[trigger] self.terms@[k]).0.value() == (old(self).terms@[k].0.value()
                        * pow_mod(base.value(), (n - 1 - k) as nat, F::modulus())) % F::modulus()
                        && self.terms@[k].1 == old(self).terms@[k].1,
                forall|k: int| 0 <= k < n - j ==> #[trigger] self.terms@[k] == old(self).terms@[k],
            decreases n - j,
        {
            let k = n - 1 - j;
            let s = self.terms[k].0;
            self.terms[k].0 = s.mul(&acc);
            acc = acc.mul(&base);
            j = j + 1;
        }
        assert(self.view() =~= combine_terms(old(self).view(), base.value(), F::modulus()));
    }
}

impl<F: FieldExt, B: Copy> Msm<F, B> {
    /// Adds every term of `other`.
    pub fn add_msm(&mut self, other: &Msm<F, B>)
        ensures
            final(self).view() == old(self).view() + other.view(),
    {
        let mut i: usize = 0;
        while i < other.terms.len()
            invariant
                i <= other.terms@.len(),
                self.terms@ =~= old(self).terms@ + other.terms@.take(i as int),
            decreases other.terms@.len() - i,
        {
            let (s, b) = other.terms[i];
            self.terms.push((s, b));
            assert(other.terms@.take(i + 1) =~= other.terms@.take(i as int).push(other.terms@[i as int]));
            i = i + 1;
        }
        assert(other.terms@.take(other.terms@.len() as int) =~= other.terms@);
        assert(self.view() =~= old(self).view() + other.view());
    }
}

/// Scaling the terms of a combination of combinations scales its view.
pub proof fn lemma_projective_scale<F: FieldExt, P>(a: ProjectiveMsm<F, P>, b: ProjectiveMsm<F, P>, f: nat)
    requires
        F::modulus() > 1,
        b.view() == scale_terms(a.view(), f, F::modulus()),
    ensures
        projective_view(b) == scale_terms(projective_view(a), f, F::modulus()),
{
    assert(a.view().len() == a.terms@.len());
    assert(b.view().len() == b.terms@.len());
    assert(scale_terms(a.view(), f, F::modulus()).len() == a.view().len());
    assert forall|k: int| 0 <= k < b.terms@.len() implies #[trigger] projective_view(b)[k] == scale_terms(
        projective_view(a),
        f,
        F::modulus(),
    )[k] by {
        assert(b.view()[k] == scale_terms(a.view(), f, F::modulus())[k]);
    }
    assert(projective_view(b) =~= scale_terms(projective_view(a), f, F::modulus()));
}

/// Combining the terms of a combination of combinations combines its view.
pub proof fn lemma_projective_combine<F: FieldExt, P>(a: ProjectiveMsm<F, P>, b: ProjectiveMsm<F, P>, f: nat)
    requires
        F::modulus() > 1,
        b.view() == combine_terms(a.view(), f, F::modulus()),
    ensures
        projective_view(b) == combine_terms(projective_view(a), f, F::modulus()),
{
    assert(a.view().len() == a.terms@.len());
    assert(b.view().len() == b.terms@.len());
    assert(combine_terms(a.view(), f, F::modulus()).len() == a.view().len());
    assert forall|k: int| 0 <= k < b.terms@.len() implies #[trigger] projective_view(b)[k] == combine_terms(
        projective_view(a),
        f,
        F::modulus(),
    )[k] by {
        assert(b.view()[k] == combine_terms(a.view(), f, F::modulus())[k]);
    }
    assert(projective_view(b) =~= combine_terms(projective_view(a), f, F::modulus()));
}

impl<F: FieldExt, P: Copy> PreMsm<F, P> {
    /// An empty list.
    pub fn new() -> (r: Self)
        ensures
            r.view() == Seq::<Seq<(nat, Seq<(nat, P)>)>>::empty(),
    {
        PreMsm { msms: Vec::new() }
    }

    /// Adds a combination to the end of the list.
    pub fn add_msm(&mut self, other: ProjectiveMsm<F, P>)
        ensures
            final(self).view() == old(self).view().push(projective_view(other)),
    {
        self.msms.push(other);
        assert(self.view() =~= old(self).view().push(projective_view(other)));
    }

    /// Multiplies every scalar of the `i`-th combination by `base` to the
    /// power of the number of combinations after it.
    pub fn combine_with_base(&mut self, base: F)
        ensures
            final(self).view().len() == old(self).view().len(),
            forall|i: int|
                0 <= i < old(self).view().len() ==> #[trigger] final(self).view()[i] == scale_terms(
                    old(self).view()[i],
                    pow_mod(base.value(), (old(self).view().len() - 1 - i) as nat, F::modulus()),
                    F::modulus(),
                ),
    {
        let n = self.msms.len();
        let mut acc = F::one();
        let mut j: usize = 0;
        proof {
            F::lemma_value_bound(acc);
            vstd::arithmetic::div_mod::lemma_small_mod(1, F::modulus());
        }
        while j < n
            invariant
                n == self.msms@.len(),
                n == old(self).msms@.len(),
                j <= n,
                F::modulus() > 1,
                acc.value() == pow_mod(base.value(), j as nat, F::modulus()),
                forall|k: int|
                    n - j <= k < n ==> #[trigger] projective_view(self.msms@[k]) == scale_terms(
                        projective_view(old(self).msms@[k]),
                        pow_mod(base.value(), (n - 1 - k) as nat, F::modulus()),
                        F::modulus(),
                    ),
                forall|k: int| 0 <= k < n - j ==> #[trigger] self.msms@[k] == old(self).msms@[k],
            decreases n - j,
        {
            let k = n - 1 - j;
            let ghost before = self.msms@[k as int];
            self.msms[k].scale(acc);
            proof {
                lemma_projective_scale(before, self.msms@[k as int], acc.value());
            }
            acc = acc.mul(&base);
            j = j + 1;
        }
    }

    /// All the terms, each combination of points replaced by its terms with
    /// the scalar multiplied in.
    pub fn normalize(self) -> (r: Msm<F, P>)
        ensures
            r.view() == flatten_msms(self.view(), F::modulus()),
    {
        let mut r: Msm<F, P> = Msm::new();
        let ghost v = self.view();
        let one = F::one();
        proof {
            F::lemma_value_bound(one);
        }
        let mut i: usize = 0;
        while i < self.msms.len()
            invariant
                i <= self.msms@.len(),
                v == self.view(),
                F::modulus() > 1,
                r.view() == flatten_msms(v.take(i as int), F::modulus()),
            decreases self.msms@.len() - i,
        {
            let pm = &self.msms[i];
            let ghost pv = projective_view(*pm);
            let mut k: usize = 0;
            while k < pm.terms.len()
                invariant
                    k <= pm.terms@.len(),
                    pv == projective_view(*pm),
                    F::modulus() > 1,
                    r.view() == flatten_msms(v.take(i as int), F::modulus()) + distribute(pv.take(k as int), F::modulus()),
                decreases pm.terms@.len() - k,
            {
                let s = pm.terms[k].0;
                let lc = &pm.terms[k].1;
                let ghost before = r.view();
                let mut j: usize = 0;
                while j < lc.terms.len()
                    invariant
                        j <= lc.terms@.len(),
                        F::modulus() > 1,
                        r.view() == before + scale_terms(lc.view().take(j as int), s.value(), F::modulus()),
                    decreases lc.terms@.len() - j,
                {
                    let (t, b) = lc.terms[j];
                    let st = s.mul(&t);
                    let ghost r_before = r.view();
                    r.append_term(st, b);
                    proof {
                        assert(s.value() * t.value() == t.value() * s.value()) by (nonlinear_arith);
                        assert(lc.view()[j as int] == (t.value(), b));
                        let prev = scale_terms(lc.view().take(j as int), s.value(), F::modulus());
                        assert(scale_terms(lc.view().take(j + 1), s.value(), F::modulus()) =~= prev.push(
                            ((t.value() * s.value()) % F::modulus(), b),
                        ));
                        assert(r.view() == r_before.push((st.value(), b)));
                        assert(before + prev.push((st.value(), b)) =~= (before + prev).push((st.value(), b)));
                    }
                    j = j + 1;
                }
                assert(lc.view().take(lc.terms@.len() as int) =~= lc.view());
                assert(pv.take(k + 1).drop_last() =~= pv.take(k as int));
                k = k + 1;
            }
            assert(pv.take(pm.terms@.len() as int) =~= pv);
            assert(v.take(i + 1).drop_last() =~= v.take(i as int));
            i = i + 1;
        }
        assert(v.take(self.msms@.len() as int) =~= v);
        r
    }
}

impl<F, P> PairMsm<F, P> {
    /// The pair of sides `left` and `right`.
    pub fn with(left: Msm<F, P>, right: Msm<F, P>) -> (r: Self)
        ensures
            r.left == left,
            r.right == right,
    {
        PairMsm { left, right }
    }
}

} // verus!
