//! The SHPLONK multi-opening verifier.
//!
//! The verifier reduces the queries, the challenges and the two points of the
//! proof to a pair of multiscalar multiplications, whose evaluations are then
//! compared by a pairing.

use crate::arithmetic::{
    distinct, evaluate_vanishing_polynomial, lagrange_eval, lagrange_evaluate, vanishing_eval, values,
};
use crate::field::{sub_mod, FieldExt};
use crate::msm::{
    combine_terms, flatten_msms, lemma_projective_combine, lemma_projective_scale, pow_mod,
    projective_view, scale_terms, Msm, PairMsm, PreMsm, ProjectiveMsm,
};
use crate::multiopen::{
    construct_intermediate_sets, dedup, evals_of, query_groups, query_points, rotation_set_of,
    sets_of, without, CommitmentReference, IntermediateSets, VerifierQuery,
};
use vstd::prelude::*;

verus! {

/// The public parameters that the verifier needs: the generator of the
/// commitment group.
pub struct ParamsVerifier<P> {
    pub g1: P,
}

impl<P> ParamsVerifier<P> {
    /// An empty multiscalar multiplication.
    pub fn empty_msm<F: FieldExt>(&self) -> (r: Msm<F, P>)
        ensures
            r.view() == Seq::<(nat, P)>::empty(),
    {
        Msm { terms: Vec::new() }
    }
}

/// Why a multi-opening proof was refused.
#[derive(Clone, Copy, Debug, PartialEq, Eq)]
pub enum Error {
    /// The opening did not hold.
    OpeningError,
    /// A point could not be read from the proof.
    SamplingError,
}

/// A point could not be read from the proof.
#[derive(Clone, Copy, Debug, PartialEq, Eq)]
pub struct TranscriptError;

/// The proof transcript: challenges drawn from it, points read from it.
///
/// Its spec functions have defaults so that the trait can also be implemented
/// outside Verus, where no spec function can be written; an implementation
/// verified with Verus defines them, and its methods' contracts then speak of
/// its own values.
pub trait TranscriptRead<F, P>: Sized {
    /// The challenge that the next squeeze returns.
    open spec fn spec_challenge(&self) -> F {
        arbitrary()
    }

    /// The transcript after a squeeze.
    open spec fn after_challenge(&self) -> Self {
        arbitrary()
    }

    /// The point that the next read returns; `None` where that read fails.
    open spec fn spec_point(&self) -> Option<P> {
        arbitrary()
    }

    /// The transcript after a read.
    open spec fn after_point(&self) -> Self {
        arbitrary()
    }

    /// Squeezes a challenge from the transcript.
    fn squeeze_challenge_scalar(&mut self) -> (r: F)
        ensures
            r == old(self).spec_challenge(),
            *final(self) == old(self).after_challenge(),
    ;

    /// Reads a point from the proof.
    fn read_point(&mut self) -> (r: Result<P, TranscriptError>)
        ensures
            match old(self).spec_point() {
                Some(p) => r == Ok::<P, TranscriptError>(p),
                None => r is Err,
            },
            *final(self) == old(self).after_point(),
    ;
}

/// What a verifier draws from the transcript `t`, in order: the challenges
/// `y` and `v`, the point `h1`, the challenge `u` and the point `h2`; `None`
/// where a read fails, at which the verifier stops. Beside it, the transcript
/// as the verifier leaves it.
pub open spec fn read_proof<F, P, T: TranscriptRead<F, P>>(t: T) -> (Option<(F, F, P, F, P)>, T) {
    let y = t.spec_challenge();
    let t1 = t.after_challenge();
    let v = t1.spec_challenge();
    let t2 = t1.after_challenge();
    match t2.spec_point() {
        None => (None, t2.after_point()),
        Some(h1) => {
            let t3 = t2.after_point();
            let u = t3.spec_challenge();
            let t4 = t3.after_challenge();
            match t4.spec_point() {
                None => (None, t4.after_point()),
                Some(h2) => (Some((y, v, h1, u, h2)), t4.after_point()),
            }
        },
    }
}

/// The terms of a commitment.
pub open spec fn commitment_terms<F: FieldExt, P>(c: CommitmentReference<F, P>) -> Seq<(nat, P)> {
    match c {
        CommitmentReference::Commitment(p) => seq![(1nat, p)],
        CommitmentReference::MSM(m) => m.view(),
    }
}

/// The commitment of query `qi`, less the commitment to the polynomial of low
/// degree that takes its evaluations at the points `ps`, evaluated at `u`.
pub open spec fn opening_terms<F: FieldExt, P>(
    qs: Seq<VerifierQuery<F, P>>,
    g1: P,
    ps: Seq<nat>,
    qi: int,
    u: nat,
) -> Seq<(nat, P)> {
    let m = F::modulus();
    let es = evals_of(qs, qs[qi].commitment_id, ps);
    commitment_terms(qs[qi].commitment) + seq![
        (sub_mod(0, lagrange_eval(ps, es, u, m, ps.len()), m), g1),
    ]
}

/// The terms that a query opens: every term of its commitment, a point
/// taken once, followed by the generator times minus the value at `u` of the
/// polynomial through the evaluations.
pub proof fn lemma_opening_terms<F: FieldExt, P>(
    qs: Seq<VerifierQuery<F, P>>,
    g1: P,
    ps: Seq<nat>,
    qi: int,
    u: nat,
)
    ensures
        qs[qi].commitment matches CommitmentReference::MSM(msm) ==> {
            &&& opening_terms(qs, g1, ps, qi, u).len() == msm.view().len() + 1
            &&& opening_terms(qs, g1, ps, qi, u).take(msm.view().len() as int) == msm.view()
        },
        qs[qi].commitment matches CommitmentReference::Commitment(c) ==> {
            &&& opening_terms(qs, g1, ps, qi, u).len() == 2
            &&& opening_terms(qs, g1, ps, qi, u)[0] == (1nat, c)
        },
        opening_terms(qs, g1, ps, qi, u).last() == (
            sub_mod(
                0,
                lagrange_eval(ps, evals_of(qs, qs[qi].commitment_id, ps), u, F::modulus(), ps.len()),
                F::modulus(),
            ),
            g1,
        ),
{
    let t = opening_terms(qs, g1, ps, qi, u);
    match qs[qi].commitment {
        CommitmentReference::MSM(msm) => {
            assert(t.take(msm.view().len() as int) =~= msm.view());
        },
        CommitmentReference::Commitment(c) => {},
    }
}

/// The terms of a rotation set `g`: its openings combined in `y`, times the
/// vanishing polynomial of the points outside the set, at `u`.
pub open spec fn rotation_set_terms<F: FieldExt, P>(
    qs: Seq<VerifierQuery<F, P>>,
    g1: P,
    g: (Seq<nat>, Seq<int>),
    y: nat,
    u: nat,
) -> Seq<(nat, Seq<(nat, P)>)> {
    let m = F::modulus();
    let inner = Seq::new(g.1.len(), |k: int| (1nat, opening_terms(qs, g1, g.0, g.1[k], u)));
    let z = vanishing_eval(without(dedup(query_points(qs)), g.0), u, m);
    scale_terms(combine_terms(inner, y, m), z, m)
}

/// The rotation sets of the queries, combined in `v`.
pub open spec fn rotation_sets_terms<F: FieldExt, P>(
    qs: Seq<VerifierQuery<F, P>>,
    g1: P,
    y: nat,
    v: nat,
    u: nat,
) -> Seq<Seq<(nat, Seq<(nat, P)>)>> {
    let m = F::modulus();
    let g = query_groups(qs);
    let n = g.len();
    Seq::new(
        n,
        |i: int| scale_terms(rotation_set_terms(qs, g1, g[i], y, u), pow_mod(v, (n - 1 - i) as nat, m), m),
    )
}

/// The right side of the pairing check: the rotation sets, less `h1` times
/// the vanishing polynomial of all points at `u`, plus `u` times `h2`.
pub open spec fn shplonk_right<F: FieldExt, P>(
    qs: Seq<VerifierQuery<F, P>>,
    g1: P,
    y: nat,
    v: nat,
    u: nat,
    h1: P,
    h2: P,
) -> Seq<(nat, P)> {
    let m = F::modulus();
    let zt = vanishing_eval(dedup(query_points(qs)), u, m);
    flatten_msms(rotation_sets_terms(qs, g1, y, v, u), m) + seq![(sub_mod(0, zt, m), h1), (u, h2)]
}

/// The terms of rotation set `i`.
fn rotation_set_msm<F: FieldExt, P: Copy>(
    params: &ParamsVerifier<P>,
    queries: &[VerifierQuery<F, P>],
    sets: &IntermediateSets<F>,
    i: usize,
    y: F,
    u: F,
) -> (r: ProjectiveMsm<F, P>)
    requires
        sets_of(queries@, *sets),
        i < sets.rotation_sets@.len(),
        distinct(values(sets.rotation_sets@[i as int].points@)),
        forall|k: int|
            0 <= k < sets.rotation_sets@[i as int].commitments@.len() ==> (
            #[trigger] sets.rotation_sets@[i as int].commitments@[k]).0 < queries@.len(),
    ensures
        projective_view(r) == rotation_set_terms(
            queries@,
            params.g1,
            query_groups(queries@)[i as int],
            y.value(),
            u.value(),
        ),
{
    let ghost g = query_groups(queries@)[i as int];
    let ghost sup = dedup(query_points(queries@));
    let ghost m = F::modulus();
    let rs = &sets.rotation_sets[i];
    assert(rotation_set_of(queries@, sup, g, *rs));
    let one = F::one();
    proof {
        F::lemma_value_bound(one);
    }
    let z = evaluate_vanishing_polynomial(rs.diffs.as_slice(), u);
    let mut inner: ProjectiveMsm<F, P> = Msm::new();
    assert(projective_view(inner) =~= Seq::new(
        0nat,
        |a: int| (1nat, opening_terms(queries@, params.g1, g.0, g.1[a], u.value())),
    ));
    let mut k: usize = 0;
    while k < rs.commitments.len()
        invariant
            k <= rs.commitments@.len(),
            m == F::modulus(),
            m > 1,
            one.value() == 1,
            rotation_set_of(queries@, sup, g, *rs),
            distinct(values(rs.points@)),
            forall|a: int|
                0 <= a < rs.commitments@.len() ==> (#[trigger] rs.commitments@[a]).0 < queries@.len(),
            projective_view(inner) == Seq::new(
                k as nat,
                |a: int| (1nat, opening_terms(queries@, params.g1, g.0, g.1[a], u.value())),
            ),
        decreases rs.commitments@.len() - k,
    {
        let qi = rs.commitments[k].0;
        let mut lc: Msm<F, P> = Msm::new();
        match &queries[qi].commitment {
            CommitmentReference::Commitment(c) => {
                lc.append_term(one, *c);
                assert(lc.view() =~= seq![(1nat, *c)]);
            },
            CommitmentReference::MSM(msm) => {
                lc.add_msm(msm);
                assert(lc.view() =~= msm.view());
            },
        }
        let evals = &rs.commitments[k].1;
        assert(values(evals@) == evals_of(queries@, queries@[qi as int].commitment_id, g.0));
        let r_eval = lagrange_evaluate(rs.points.as_slice(), evals.as_slice(), u);
        lc.append_term(r_eval.neg(), params.g1);
        assert(lc.view() =~= opening_terms(queries@, params.g1, g.0, g.1[k as int], u.value()));
        let ghost before = projective_view(inner);
        inner.append_term(one, lc);
        assert(projective_view(inner) =~= before.push((1nat, lc.view())));
        assert(projective_view(inner) =~= Seq::new(
            (k + 1) as nat,
            |a: int| (1nat, opening_terms(queries@, params.g1, g.0, g.1[a], u.value())),
        ));
        k = k + 1;
    }
    let ghost unscaled = inner;
    inner.combine_with_base(y);
    proof {
        lemma_projective_combine(unscaled, inner, y.value());
    }
    let ghost combined = inner;
    inner.scale(z);
    proof {
        lemma_projective_scale(combined, inner, z.value());
    }
    inner
}

/// The pair of multiscalar multiplications of a multi-opening proof whose
/// challenges are `y`, `v` and `u` and whose points are `h1` and `h2`.
pub fn shplonk_pair<F: FieldExt, P: Copy>(
    params: &ParamsVerifier<P>,
    queries: &[VerifierQuery<F, P>],
    y: F,
    v: F,
    h1: P,
    u: F,
    h2: P,
) -> (r: PairMsm<F, P>)
    ensures
        r.left.view() == seq![(1nat, h2)],
        r.right.view() == shplonk_right(queries@, params.g1, y.value(), v.value(), u.value(), h1, h2),
{
    let ghost m = F::modulus();
    let ghost gs = query_groups(queries@);
    let sets = construct_intermediate_sets(queries);
    let one = F::one();
    proof {
        F::lemma_value_bound(one);
    }
    let zt_eval = evaluate_vanishing_polynomial(sets.super_point_set.as_slice(), u);
    let mut outer: PreMsm<F, P> = PreMsm::new();
    let mut i: usize = 0;
    while i < sets.rotation_sets.len()
        invariant
            i <= sets.rotation_sets@.len(),
            m == F::modulus(),
            m > 1,
            gs == query_groups(queries@),
            sets_of(queries@, sets),
            forall|j: int|
                0 <= j < sets.rotation_sets@.len() ==> distinct(values((#[trigger] sets.rotation_sets@[j]).points@)),
            forall|j: int, k: int|
                0 <= j < sets.rotation_sets@.len() && 0 <= k < sets.rotation_sets@[j].commitments@.len() ==> (
                #[trigger] sets.rotation_sets@[j].commitments@[k]).0 < queries@.len(),
            outer.view() == Seq::new(
                i as nat,
                |j: int| rotation_set_terms(queries@, params.g1, gs[j], y.value(), u.value()),
            ),
        decreases sets.rotation_sets@.len() - i,
    {
        assert forall|k: int|
            0 <= k < sets.rotation_sets@[i as int].commitments@.len() implies (
            #[trigger] sets.rotation_sets@[i as int].commitments@[k]).0 < queries@.len() by {}
        let inner = rotation_set_msm(params, queries, &sets, i, y, u);
        let ghost before = outer.view();
        outer.add_msm(inner);
        assert(outer.view() =~= Seq::new(
            (i + 1) as nat,
            |j: int| rotation_set_terms(queries@, params.g1, gs[j], y.value(), u.value()),
        ));
        i = i + 1;
    }
    let ghost unscaled = outer.view();
    outer.combine_with_base(v);
    assert(outer.view() =~= rotation_sets_terms(queries@, params.g1, y.value(), v.value(), u.value()));
    let mut outer = outer.normalize();
    outer.append_term(zt_eval.neg(), h1);
    outer.append_term(u, h2);
    let mut left = params.empty_msm();
    left.append_term(one, h2);
    let mut right = params.empty_msm();
    right.add_msm(&outer);
    PairMsm::with(left, right)
}

/// Verifies a multi-opening proof: draws the challenges `y` and `v`, reads
/// `h1`, draws `u`, reads `h2`, and reduces the proof to the pair of
/// [`shplonk_pair`]; refuses it where a point cannot be read.
pub fn verify_proof<F: FieldExt, P: Copy, T: TranscriptRead<F, P>>(
    params: &ParamsVerifier<P>,
    transcript: &mut T,
    queries: &[VerifierQuery<F, P>],
) -> (r: Result<PairMsm<F, P>, Error>)
    ensures
        *final(transcript) == read_proof::<F, P, T>(*old(transcript)).1,
        match read_proof::<F, P, T>(*old(transcript)).0 {
            None => r == Err::<PairMsm<F, P>, Error>(Error::SamplingError),
            Some((y, v, h1, u, h2)) => r matches Ok(pair) && pair.left.view() == seq![(1nat, h2)]
                && pair.right.view() == shplonk_right(
                queries@,
                params.g1,
                y.value(),
                v.value(),
                u.value(),
                h1,
                h2,
            ),
        },
{
    let y = transcript.squeeze_challenge_scalar();
    let v = transcript.squeeze_challenge_scalar();
    let h1 = match transcript.read_point() {
        Ok(p) => p,
        Err(_) => {
            return Err(Error::SamplingError);
        },
    };
    let u = transcript.squeeze_challenge_scalar();
    let h2 = match transcript.read_point() {
        Ok(p) => p,
        Err(_) => {
            return Err(Error::SamplingError);
        },
    };
    let pair = shplonk_pair(params, queries, y, v, h1, u, h2);
    Ok(pair)
}

} // verus!
