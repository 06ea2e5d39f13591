use halo2_core::field::{FieldExt, Fp};
use halo2_core::poseidon::{permute, Absorbing, ConstantLength, Domain, Spec, Sponge};

/// A Poseidon specification of width 3 and rate 2 with the round counts of
/// P128Pow5T3 and fixed, arbitrary constants.
#[derive(Debug)]
struct TestSpec;

fn c(v: u128) -> Fp {
    Fp::from_u128(v)
}

impl Spec<Fp, 3, 2> for TestSpec {
    fn full_rounds() -> usize {
        8
    }

    fn partial_rounds() -> usize {
        56
    }

    fn sbox(val: Fp) -> Fp {
        let sq = val.mul(&val);
        sq.mul(&sq).mul(&val)
    }

    fn secure_mds() -> usize {
        0
    }

    fn constants() -> (Vec<[Fp; 3]>, [[Fp; 3]; 3], [[Fp; 3]; 3]) {
        let rcs = (0..64u128).map(|i| [c(3 * i + 1), c(3 * i + 2), c(3 * i + 3)]).collect();
        let mds = [[c(2), c(1), c(1)], [c(1), c(2), c(1)], [c(1), c(1), c(2)]];
        // The inverse is (3 I - (J - I)) / 4, J the all-ones matrix.
        let quarter = c(4).invert().unwrap();
        let d = c(3).mul(&quarter);
        let o = quarter.neg();
        let mds_inv = [[d, o, o], [o, d, o], [o, o, d]];
        (rcs, mds, mds_inv)
    }
}

#[test]
fn orchard_spec_equivalence() {
    let message = [Fp::from_u128(6), Fp::from_u128(42)];

    let (round_constants, mds, _) = TestSpec::constants();

    let hasher = halo2_core::poseidon::Hash::<_, TestSpec, ConstantLength<2>, 3, 2>::init();
    let result = hasher.hash(message);

    // The result should be equivalent to just directly applying the permutation and
    // taking the first state element as the output.
    let mut state = [message[0], message[1], Fp::from_u128(2 << 64)];
    permute::<_, TestSpec, 3, 2>(&mut state, &mds, &round_constants);
    assert_eq!(state[0], result);
}

fn sbox(x: Fp) -> Fp {
    TestSpec::sbox(x)
}

fn mds_times(mds: &[[Fp; 3]; 3], s: [Fp; 3]) -> [Fp; 3] {
    let mut r = [Fp::zero(); 3];
    for i in 0..3 {
        for j in 0..3 {
            r[i] = r[i].add(&mds[i][j].mul(&s[j]));
        }
    }
    r
}

#[test]
fn permute_without_round_constants_leaves_the_state() {
    let (_, mds, _) = TestSpec::constants();
    let mut state = [c(1), c(2), c(3)];
    permute::<_, TestSpec, 3, 2>(&mut state, &mds, &[]);
    assert_eq!(state, [c(1), c(2), c(3)]);
}

#[test]
fn permute_first_round_is_full() {
    let (rcs, mds, _) = TestSpec::constants();
    let s = [c(1), c(2), c(3)];
    let mut state = s;
    permute::<_, TestSpec, 3, 2>(&mut state, &mds, &rcs[..1]);
    let boxed = [sbox(s[0].add(&rcs[0][0])), sbox(s[1].add(&rcs[0][1])), sbox(s[2].add(&rcs[0][2]))];
    assert_eq!(state, mds_times(&mds, boxed));
}

#[test]
fn permute_partial_round_boxes_only_the_first_word() {
    // Four full rounds, then one partial round.
    let (rcs, mds, _) = TestSpec::constants();
    let s = [c(5), c(6), c(7)];
    let mut four = s;
    permute::<_, TestSpec, 3, 2>(&mut four, &mds, &rcs[..4]);
    let mut five = s;
    permute::<_, TestSpec, 3, 2>(&mut five, &mds, &rcs[..5]);
    let added = [four[0].add(&rcs[4][0]), four[1].add(&rcs[4][1]), four[2].add(&rcs[4][2])];
    let boxed = [sbox(added[0]), added[1], added[2]];
    assert_eq!(five, mds_times(&mds, boxed));
}

#[test]
fn permute_stops_after_all_rounds() {
    let (rcs, mds, _) = TestSpec::constants();
    let mut extra = rcs.clone();
    extra.push([c(9), c(9), c(9)]);
    let mut a = [c(1), c(2), c(3)];
    permute::<_, TestSpec, 3, 2>(&mut a, &mds, &rcs);
    let mut b = [c(1), c(2), c(3)];
    permute::<_, TestSpec, 3, 2>(&mut b, &mds, &extra);
    assert_eq!(a, b);
}

#[test]
fn init_with_fills_the_first_word() {
    let m = Absorbing::<Fp, 3>::init_with(c(8));
    assert_eq!(m.0, [Some(c(8)), None, None]);
}

#[test]
fn constant_length_padding() {
    assert_eq!(<ConstantLength<3> as Domain<Fp, 2>>::padding(3), vec![Fp::zero()]);
    assert_eq!(<ConstantLength<4> as Domain<Fp, 2>>::padding(4), Vec::<Fp>::new());
    assert_eq!(<ConstantLength<1> as Domain<Fp, 4>>::padding(1), vec![Fp::zero(); 3]);
}

#[test]
fn constant_length_capacity_and_name() {
    assert_eq!(<ConstantLength<3> as Domain<Fp, 2>>::initial_capacity_element(), c(3 << 64));
    assert_eq!(<ConstantLength<3> as Domain<Fp, 2>>::name(), "ConstantLength<3>");
    assert_eq!(<ConstantLength<12> as Domain<Fp, 2>>::name(), "ConstantLength<12>");
}

#[test]
fn sponge_absorbs_then_squeezes() {
    let (rcs, mds, _) = TestSpec::constants();
    let mut sponge = Sponge::<Fp, TestSpec, Absorbing<Fp, 2>, 3, 2>::new(c(99));
    sponge.absorb(c(1));
    sponge.absorb(c(2));
    let mut squeezing = sponge.finish_absorbing();
    let mut state = [c(1), c(2), c(99)];
    permute::<_, TestSpec, 3, 2>(&mut state, &mds, &rcs);
    assert_eq!(squeezing.squeeze(), state[0]);
    assert_eq!(squeezing.squeeze(), state[1]);
    // The rate is exhausted: the state is permuted again.
    permute::<_, TestSpec, 3, 2>(&mut state, &mds, &rcs);
    assert_eq!(squeezing.squeeze(), state[0]);
}

#[test]
fn sponge_permutes_when_the_rate_is_full() {
    let (rcs, mds, _) = TestSpec::constants();
    let mut sponge = Sponge::<Fp, TestSpec, Absorbing<Fp, 2>, 3, 2>::new(c(0));
    sponge.absorb(c(1));
    sponge.absorb(c(2));
    sponge.absorb(c(3));
    let mut squeezing = sponge.finish_absorbing();
    let mut state = [c(1), c(2), c(0)];
    permute::<_, TestSpec, 3, 2>(&mut state, &mds, &rcs);
    state[0] = state[0].add(&c(3));
    permute::<_, TestSpec, 3, 2>(&mut state, &mds, &rcs);
    assert_eq!(squeezing.squeeze(), state[0]);
}

#[test]
fn hash_of_two_blocks() {
    let (rcs, mds, _) = TestSpec::constants();
    let message = [c(10), c(20), c(30)];
    let result = halo2_core::poseidon::Hash::<_, TestSpec, ConstantLength<3>, 3, 2>::init().hash(message);
    let mut state = [c(10), c(20), c(3 << 64)];
    permute::<_, TestSpec, 3, 2>(&mut state, &mds, &rcs);
    state[0] = state[0].add(&c(30));
    // The padding word is zero.
    permute::<_, TestSpec, 3, 2>(&mut state, &mds, &rcs);
    assert_eq!(result, state[0]);
}

#[test]
fn hash_depends_on_the_message() {
    let a = halo2_core::poseidon::Hash::<_, TestSpec, ConstantLength<2>, 3, 2>::init().hash([c(1), c(2)]);
    let b = halo2_core::poseidon::Hash::<_, TestSpec, ConstantLength<2>, 3, 2>::init().hash([c(2), c(1)]);
    assert_ne!(a, b);
}

#[test]
fn capacity_differs_between_lengths() {
    let two = <ConstantLength<2> as Domain<Fp, 2>>::initial_capacity_element();
    let three = <ConstantLength<3> as Domain<Fp, 2>>::initial_capacity_element();
    assert_ne!(two, three);
    assert_eq!(two, c(2 << 64));
}

#[test]
fn test_spec_constants_invert_the_mds() {
    let (rcs, mds, mds_inv) = TestSpec::constants();
    assert_eq!(rcs.len(), TestSpec::full_rounds() + TestSpec::partial_rounds());
    for i in 0..3 {
        for j in 0..3 {
            let mut acc = Fp::zero();
            for k in 0..3 {
                acc = acc.add(&mds[i][k].mul(&mds_inv[k][j]));
            }
            assert_eq!(acc, if i == j { Fp::one() } else { Fp::zero() });
        }
    }
}

#[test]
fn permute_ignores_rows_past_the_rounds() {
    let (rcs, mds, _) = TestSpec::constants();
    let mut longer = rcs.clone();
    longer.push([c(7), c(8), c(9)]);
    let mut a = [c(1), c(2), c(3)];
    let mut b = a;
    permute::<_, TestSpec, 3, 2>(&mut a, &mds, &rcs);
    permute::<_, TestSpec, 3, 2>(&mut b, &mds, &longer);
    assert_eq!(a, b);
}

#[test]
fn hash_is_a_function_of_the_message() {
    let a = halo2_core::poseidon::Hash::<_, TestSpec, ConstantLength<3>, 3, 2>::init().hash([c(4), c(5), c(6)]);
    let b = halo2_core::poseidon::Hash::<_, TestSpec, ConstantLength<3>, 3, 2>::init().hash([c(4), c(5), c(6)]);
    assert_eq!(a, b);
}

#[test]
fn permute_tells_states_apart() {
    let (rcs, mds, _) = TestSpec::constants();
    let mut a = [c(1), c(2), c(3)];
    let mut b = [c(1), c(2), c(4)];
    permute::<_, TestSpec, 3, 2>(&mut a, &mds, &rcs);
    permute::<_, TestSpec, 3, 2>(&mut b, &mds, &rcs);
    assert_ne!(a, b);
}

/// A width-one specification with full rounds only.
#[derive(Debug)]
struct NarrowSpec;

impl Spec<Fp, 1, 0> for NarrowSpec {
    fn full_rounds() -> usize {
        2
    }

    fn partial_rounds() -> usize {
        0
    }

    fn sbox(val: Fp) -> Fp {
        val.mul(&val).mul(&val)
    }

    fn secure_mds() -> usize {
        0
    }

    fn constants() -> (Vec<[Fp; 1]>, [[Fp; 1]; 1], [[Fp; 1]; 1]) {
        (vec![[c(5)], [c(6)]], [[c(1)]], [[c(1)]])
    }
}

#[test]
fn sponge_of_rate_zero_finishes_by_permuting() {
    let (rcs, mds, _) = NarrowSpec::constants();
    let sponge = Sponge::<Fp, NarrowSpec, Absorbing<Fp, 0>, 1, 0>::new(c(9));
    let _squeezing = sponge.finish_absorbing();
    let mut state = [c(9)];
    permute::<_, NarrowSpec, 1, 0>(&mut state, &mds, &rcs);
    // ((9 + 5)^3 + 6)^3
    assert_eq!(state[0], c(2744 + 6).mul(&c(2750)).mul(&c(2750)));
}

#[test]
fn permute_of_width_zero_with_full_rounds_only() {
    let mut state: [Fp; 0] = [];
    permute::<_, NarrowSpec0, 0, 0>(&mut state, &[], &[[], []]);
    assert_eq!(state.len(), 0);
}

#[derive(Debug)]
struct NarrowSpec0;

impl Spec<Fp, 0, 0> for NarrowSpec0 {
    fn full_rounds() -> usize {
        2
    }

    fn partial_rounds() -> usize {
        0
    }

    fn sbox(val: Fp) -> Fp {
        val
    }

    fn secure_mds() -> usize {
        0
    }

    fn constants() -> (Vec<[Fp; 0]>, [[Fp; 0]; 0], [[Fp; 0]; 0]) {
        (vec![[], []], [], [])
    }
}
