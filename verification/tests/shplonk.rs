use halo2_core::arithmetic::{evaluate_vanishing_polynomial, lagrange_evaluate};
use halo2_core::field::{FieldExt, Fp};
use halo2_core::msm::{Msm, PreMsm};
use halo2_core::multiopen::{construct_intermediate_sets, CommitmentReference, Query, VerifierQuery};
use halo2_core::shplonk::{shplonk_pair, verify_proof, Error, ParamsVerifier, TranscriptError, TranscriptRead};

fn c(v: u128) -> Fp {
    Fp::from_u128(v)
}

fn neg(v: u128) -> Fp {
    c(v).neg()
}

/// A transcript that hands out fixed challenges and points, and fails once the
/// points run out.
struct FixedTranscript {
    challenges: Vec<Fp>,
    points: Vec<u32>,
}

impl TranscriptRead<Fp, u32> for FixedTranscript {
    fn squeeze_challenge_scalar(&mut self) -> Fp {
        self.challenges.remove(0)
    }

    fn read_point(&mut self) -> Result<u32, TranscriptError> {
        if self.points.is_empty() {
            Err(TranscriptError)
        } else {
            Ok(self.points.remove(0))
        }
    }
}

/// Commitment 0 opened at 2; commitment 1 at 2 and 3; commitment 2, a
/// combination, at 3 and 2.
fn queries() -> Vec<VerifierQuery<Fp, u32>> {
    vec![
        VerifierQuery::new_commitment(0, 100, c(2), c(5)),
        VerifierQuery::new_commitment(1, 101, c(2), c(7)),
        VerifierQuery::new_commitment(1, 101, c(3), c(8)),
        VerifierQuery::new_msm(2, Msm { terms: vec![(c(3), 200)] }, c(3), c(9)),
        VerifierQuery::new_msm(2, Msm { terms: vec![(c(3), 200)] }, c(2), c(11)),
    ]
}

#[test]
fn vanishing_polynomial() {
    assert_eq!(evaluate_vanishing_polynomial(&[c(1), c(2)], c(5)), c(12));
    assert_eq!(evaluate_vanishing_polynomial(&[c(1), c(2)], c(2)), c(0));
    assert_eq!(evaluate_vanishing_polynomial(&[], c(2)), c(1));
}

#[test]
fn lagrange_interpolation() {
    // x^2 through 1, 2, 3.
    assert_eq!(lagrange_evaluate(&[c(1), c(2), c(3)], &[c(1), c(4), c(9)], c(5)), c(25));
    assert_eq!(lagrange_evaluate(&[c(1), c(2), c(3)], &[c(1), c(4), c(9)], c(2)), c(4));
    assert_eq!(lagrange_evaluate(&[c(7)], &[c(4)], c(5)), c(4));
    // 7 - x through 2, 3, at 0.
    assert_eq!(lagrange_evaluate(&[c(2), c(3)], &[c(5), c(4)], c(0)), c(7));
}

#[test]
fn msm_combine_and_scale() {
    let mut m = Msm { terms: vec![(c(1), 'a'), (c(1), 'b'), (c(1), 'c')] };
    m.combine_with_base(c(2));
    assert_eq!(m.terms, vec![(c(4), 'a'), (c(2), 'b'), (c(1), 'c')]);
    m.scale(c(3));
    assert_eq!(m.terms, vec![(c(12), 'a'), (c(6), 'b'), (c(3), 'c')]);
    let mut n = Msm::new();
    n.append_term(c(5), 'd');
    m.add_msm(&n);
    assert_eq!(m.terms.len(), 4);
    assert_eq!(m.terms[3], (c(5), 'd'));
}

#[test]
fn pre_msm_normalizes() {
    let lc = Msm { terms: vec![(c(2), 'a'), (c(3), 'b')] };
    let mut pre = PreMsm::new();
    pre.add_msm(Msm { terms: vec![(c(5), lc)] });
    pre.add_msm(Msm { terms: vec![(c(1), Msm { terms: vec![(c(7), 'c')] })] });
    pre.combine_with_base(c(10));
    let m = pre.normalize();
    assert_eq!(m.terms, vec![(c(100), 'a'), (c(150), 'b'), (c(7), 'c')]);
}

#[test]
fn queries_report_what_they_state() {
    let q = VerifierQuery::new_commitment(4, 104u32, c(2), c(5));
    assert_eq!(q.get_point(), c(2));
    assert_eq!(q.get_eval(), c(5));
    assert!(matches!(q.get_commitment(), CommitmentReference::Commitment(104)));
}

#[test]
fn intermediate_sets_group_commitments_by_points() {
    let sets = construct_intermediate_sets(&queries());
    assert_eq!(sets.super_point_set, vec![c(2), c(3)]);
    assert_eq!(sets.rotation_sets.len(), 2);
    let s0 = &sets.rotation_sets[0];
    assert_eq!(s0.points, vec![c(2)]);
    assert_eq!(s0.diffs, vec![c(3)]);
    assert_eq!(s0.commitments, vec![(0, vec![c(5)])]);
    let s1 = &sets.rotation_sets[1];
    assert_eq!(s1.points, vec![c(2), c(3)]);
    assert_eq!(s1.diffs, Vec::<Fp>::new());
    assert_eq!(s1.commitments, vec![(1, vec![c(7), c(8)]), (3, vec![c(11), c(9)])]);
}

fn expected_right() -> Vec<(Fp, u32)> {
    vec![
        (c(6), 100),
        (neg(30), 1),
        (c(2), 101),
        (neg(20), 1),
        (c(3), 200),
        (neg(5), 1),
        (neg(6), 300),
        (c(5), 301),
    ]
}

#[test]
fn shplonk_pair_combines_the_rotation_sets() {
    let params = ParamsVerifier { g1: 1u32 };
    let pair = shplonk_pair(&params, &queries(), c(2), c(3), 300, c(5), 301);
    assert_eq!(pair.left.terms, vec![(c(1), 301)]);
    assert_eq!(pair.right.terms, expected_right());
}

#[test]
fn verify_proof_reads_the_transcript() {
    let params = ParamsVerifier { g1: 1u32 };
    let mut transcript = FixedTranscript { challenges: vec![c(2), c(3), c(5)], points: vec![300, 301] };
    let pair = verify_proof(&params, &mut transcript, &queries()).unwrap();
    assert_eq!(pair.left.terms, vec![(c(1), 301)]);
    assert_eq!(pair.right.terms, expected_right());
}

#[test]
fn verify_proof_refuses_a_missing_point() {
    let params = ParamsVerifier { g1: 1u32 };
    let mut transcript = FixedTranscript { challenges: vec![c(2), c(3), c(5)], points: vec![300] };
    assert_eq!(verify_proof(&params, &mut transcript, &queries()).err(), Some(Error::SamplingError));
    let mut transcript = FixedTranscript { challenges: vec![c(2), c(3), c(5)], points: vec![] };
    assert_eq!(verify_proof(&params, &mut transcript, &queries()).err(), Some(Error::SamplingError));
}

#[test]
fn vanishing_polynomial_splits_over_each_rotation_set() {
    let sets = construct_intermediate_sets(&queries());
    let u = c(10);
    let all = evaluate_vanishing_polynomial(&sets.super_point_set, u);
    assert_eq!(all, c(56));
    for set in sets.rotation_sets.iter() {
        let inside = evaluate_vanishing_polynomial(&set.points, u);
        let outside = evaluate_vanishing_polynomial(&set.diffs, u);
        assert_eq!(inside.mul(&outside), all);
    }
}
