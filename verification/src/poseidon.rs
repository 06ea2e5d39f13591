//! The Poseidon algebraic hash function.

use crate::arithmetic::values;
use crate::field::FieldExt;
use crate::multiopen::{first_index, lemma_first_index_found, lemma_first_index_none};
use std::marker::PhantomData;
use vstd::prelude::*;
use vstd::string::StringExecFns;

verus! {

/// The values of an array of field elements.
pub open spec fn array_values<F: FieldExt, const N: usize>(a: [F; N]) -> Seq<nat> {
    values(a@)
}

/// The values of each row of a matrix.
pub open spec fn matrix_values<F: FieldExt, const N: usize>(m: Seq<[F; N]>) -> Seq<Seq<nat>> {
    m.map_values(|row: [F; N]| array_values(row))
}

/// A specification for a Poseidon permutation.
///
/// Its spec functions have defaults so that the trait can also be implemented
/// outside Verus, where no spec function can be written; an implementation
/// verified with Verus defines them, and its methods' contracts then speak of
/// its own values.
pub trait Spec<F: FieldExt, const T: usize, const RATE: usize> {
    /// The number of full rounds, which `full_rounds` returns.
    open spec fn spec_full_rounds() -> usize {
        arbitrary()
    }

    /// The number of partial rounds, which `partial_rounds` returns.
    open spec fn spec_partial_rounds() -> usize {
        arbitrary()
    }

    /// The S-box, on the values of field elements, which `sbox` computes.
    open spec fn spec_sbox(x: nat) -> nat {
        arbitrary()
    }

    /// The round constants, the MDS matrix and its inverse, by value, which
    /// `constants` returns.
    open spec fn spec_constants() -> (Seq<Seq<nat>>, Seq<Seq<nat>>, Seq<Seq<nat>>) {
        arbitrary()
    }

    /// The number of full rounds for this specification.
    ///
    /// This must be an even number.
    fn full_rounds() -> (r: usize)
        ensures
            r == Self::spec_full_rounds(),
    ;

    /// The number of partial rounds for this specification.
    fn partial_rounds() -> (r: usize)
        ensures
            r == Self::spec_partial_rounds(),
    ;

    /// The S-box for this specification.
    fn sbox(val: F) -> (r: F)
        ensures
            r.value() == Self::spec_sbox(val.value()),
    ;

    /// Index of the first correct and secure MDS that the reference
    /// generator of the constants produces.
    fn secure_mds() -> usize;

    /// The `(round_constants, mds, mds^-1)` of this specification: a row of
    /// round constants for each round, and the MDS matrix with its inverse.
    fn constants() -> (r: (Vec<[F; T]>, [[F; T]; T], [[F; T]; T]))
        ensures
            matrix_values(r.0@) == Self::spec_constants().0,
            matrix_values(r.1@) == Self::spec_constants().1,
            matrix_values(r.2@) == Self::spec_constants().2,
            r.0@.len() == Self::spec_full_rounds() + Self::spec_partial_rounds(),
            inverse_matrices(Self::spec_constants().1, Self::spec_constants().2, T as nat, F::modulus()),
    ;
}

/// Column `j` of the `n`-row matrix `a`.
pub open spec fn column(a: Seq<Seq<nat>>, j: int, n: nat) -> Seq<nat> {
    Seq::new(n, |k: int| a[k][j])
}

/// The `n`-by-`n` matrices `a` and `b` are inverse to each other modulo `m`:
/// their product is the identity.
pub open spec fn inverse_matrices(a: Seq<Seq<nat>>, b: Seq<Seq<nat>>, n: nat, m: nat) -> bool {
    forall|i: int, j: int|
        0 <= i < n && 0 <= j < n ==> #[trigger] dot(a[i], column(b, j, n), m, n) == if i == j {
            1nat
        } else {
            0nat
        }
}

/// `sum_{j < n} row[j] * s[j]` modulo `m`, accumulated from `j = 0`.
pub open spec fn dot(row: Seq<nat>, s: Seq<nat>, m: nat, n: nat) -> nat
    decreases n,
{
    if n == 0 {
        0
    } else {
        (dot(row, s, m, (n - 1) as nat) + (row[n - 1] * s[n - 1]) % m) % m
    }
}

/// The matrix `mds` times the vector `s`, modulo `m`.
pub open spec fn apply_mds(mds: Seq<Seq<nat>>, s: Seq<nat>, m: nat) -> Seq<nat> {
    Seq::new(s.len(), |i: int| dot(mds[i], s, m, s.len()))
}

/// The state after one round with constants `rcs`: in a full round the S-box
/// is applied to every word, in a partial round to the first only.
pub open spec fn round(
    s: Seq<nat>,
    rcs: Seq<nat>,
    mds: Seq<Seq<nat>>,
    full: bool,
    sbox: spec_fn(nat) -> nat,
    m: nat,
) -> Seq<nat> {
    let added = Seq::new(s.len(), |i: int| (s[i] + rcs[i]) % m);
    let boxed = if full {
        Seq::new(s.len(), |i: int| sbox(added[i]))
    } else {
        added.update(0, sbox(added[0]))
    };
    apply_mds(mds, boxed, m)
}

/// Round `i` is a full round: one of the first or the last `r_f`.
pub open spec fn is_full_round(i: nat, r_f: nat, r_p: nat) -> bool {
    i < r_f || i >= r_f + r_p
}

/// The state after the first `n` rounds: `r_f` full rounds, `r_p` partial
/// rounds, `r_f` full rounds.
pub open spec fn permutation(
    s: Seq<nat>,
    mds: Seq<Seq<nat>>,
    rcs: Seq<Seq<nat>>,
    r_f: nat,
    r_p: nat,
    sbox: spec_fn(nat) -> nat,
    m: nat,
    n: nat,
) -> Seq<nat>
    decreases n,
{
    if n == 0 {
        s
    } else {
        let k = (n - 1) as nat;
        round(permutation(s, mds, rcs, r_f, r_p, sbox, m, k), rcs[k as int], mds, is_full_round(k, r_f, r_p), sbox, m)
    }
}

/// The number of rounds that a permutation runs: the full and partial
/// rounds, as far as there are round constants.
pub open spec fn num_rounds(r_f: nat, r_p: nat, n_rcs: nat) -> nat {
    if 2 * r_f + r_p <= n_rcs {
        2 * r_f + r_p
    } else {
        n_rcs
    }
}

/// The Poseidon permutation of specification `S` applied to `s`.
pub open spec fn spec_permute<F: FieldExt, S: Spec<F, T, RATE>, const T: usize, const RATE: usize>(
    s: Seq<nat>,
    mds: Seq<Seq<nat>>,
    rcs: Seq<Seq<nat>>,
) -> Seq<nat> {
    let r_f = (S::spec_full_rounds() / 2) as nat;
    let r_p = S::spec_partial_rounds() as nat;
    permutation(s, mds, rcs, r_f, r_p, |x: nat| S::spec_sbox(x), F::modulus(), num_rounds(r_f, r_p, rcs.len()))
}

/// Replaces `state` by `mds` times `state`.
fn apply_mds_matrix<F: FieldExt, const T: usize>(state: &mut [F; T], mds: &[[F; T]; T])
    ensures
        array_values(*final(state)) == apply_mds(matrix_values(mds@), array_values(*old(state)), F::modulus()),
{
    let ghost s = array_values(*state);
    let ghost mv = matrix_values(mds@);
    let z = F::zero();
    proof {
        F::lemma_value_bound(z);
    }
    let mut new_state = [z; T];
    let mut i: usize = 0;
    while i < T
        invariant
            i <= T,
            s == array_values(*state),
            mv == matrix_values(mds@),
            forall|k: int| 0 <= k < i ==> (#[trigger] new_state@[k]).value() == dot(mv[k], s, F::modulus(), T as nat),
        decreases T - i,
    {
        let mut acc = F::zero();
        let mut j: usize = 0;
        while j < T
            invariant
                i < T,
                j <= T,
                s == array_values(*state),
                mv == matrix_values(mds@),
                acc.value() == dot(mv[i as int], s, F::modulus(), j as nat),
            decreases T - j,
        {
            let prod = mds[i][j].mul(&state[j]);
            acc = acc.add(&prod);
            assert(mv[i as int][j as int] == mds@[i as int]@[j as int].value());
            j = j + 1;
        }
        new_state[i] = acc;
        i = i + 1;
    }
    *state = new_state;
    assert(array_values(*state) =~= apply_mds(mv, s, F::modulus()));
}

/// One round with constants `rcs`: the S-box on every word in a full round,
/// on the first word only in a partial round; then the MDS matrix.
fn apply_round<F: FieldExt, S: Spec<F, T, RATE>, const T: usize, const RATE: usize>(
    state: &mut [F; T],
    mds: &[[F; T]; T],
    rcs: &[F; T],
    full: bool,
)
    requires
        full || T > 0,
    ensures
        array_values(*final(state)) == round(
            array_values(*old(state)),
            array_values(*rcs),
            matrix_values(mds@),
            full,
            |x: nat| S::spec_sbox(x),
            F::modulus(),
        ),
{
    let ghost s = array_values(*state);
    let ghost added = Seq::new(s.len(), |i: int| (s[i] + array_values(*rcs)[i]) % F::modulus());
    proof {
        F::lemma_value_bound(vstd::pervasive::arbitrary());
    }
    let mut i: usize = 0;
    while i < T
        invariant
            i <= T,
            F::modulus() > 1,
            s == array_values(*old(state)),
            added == Seq::new(s.len(), |i: int| (s[i] + array_values(*rcs)[i]) % F::modulus()),
            forall|k: int| i <= k < T ==> (#[trigger] state@[k]) == old(state)@[k],
            forall|k: int|
                0 <= k < i ==> (#[trigger] state@[k]).value() == if full {
                    S::spec_sbox(added[k])
                } else {
                    added[k]
                },
        decreases T - i,
    {
        let w = state[i].add(&rcs[i]);
        if full {
            let b = S::sbox(w);
            state[i] = b;
        } else {
            state[i] = w;
        }
        i = i + 1;
    }
    if !full {
        let b = S::sbox(state[0]);
        state[0] = b;
    }
    let ghost boxed = array_values(*state);
    assert(boxed =~= (if full {
        Seq::new(s.len(), |i: int| (|x: nat| S::spec_sbox(x))(added[i]))
    } else {
        added.update(0, (|x: nat| S::spec_sbox(x))(added[0]))
    }));
    apply_mds_matrix(state, mds);
}

/// Runs the Poseidon permutation on the given state: `r_f` full rounds,
/// `r_p` partial rounds and `r_f` full rounds, where `2 * r_f` is the number
/// of full rounds of `S`, as far as there are round constants.
pub fn permute<F: FieldExt, S: Spec<F, T, RATE>, const T: usize, const RATE: usize>(
    state: &mut [F; T],
    mds: &[[F; T]; T],
    round_constants: &[[F; T]],
)
    requires
        T > 0 || S::spec_partial_rounds() == 0 || num_rounds(
            (S::spec_full_rounds() / 2) as nat,
            S::spec_partial_rounds() as nat,
            round_constants@.len(),
        ) <= S::spec_full_rounds() / 2,
    ensures
        array_values(*final(state)) == spec_permute::<F, S, T, RATE>(
            array_values(*old(state)),
            matrix_values(mds@),
            matrix_values(round_constants@),
        ),
{
    let r_f = S::full_rounds() / 2;
    let r_p = S::partial_rounds();
    let ghost s0 = array_values(*state);
    let ghost mv = matrix_values(mds@);
    let ghost rv = matrix_values(round_constants@);
    let ghost sbox = |x: nat| S::spec_sbox(x);
    let total: u128 = 2 * (r_f as u128) + (r_p as u128);
    let n: usize = if total <= round_constants.len() as u128 {
        total as usize
    } else {
        round_constants.len()
    };
    assert(n == num_rounds(r_f as nat, r_p as nat, rv.len()));
    let mut i: usize = 0;
    while i < n
        invariant
            i <= n,
            n == num_rounds(r_f as nat, r_p as nat, rv.len()),
            n <= round_constants@.len(),
            r_f == S::spec_full_rounds() / 2,
            r_p == S::spec_partial_rounds(),
            T > 0 || r_p == 0 || n <= r_f,
            s0 == array_values(*old(state)),
            mv == matrix_values(mds@),
            rv == matrix_values(round_constants@),
            sbox == (|x: nat| S::spec_sbox(x)),
            array_values(*state) == permutation(s0, mv, rv, r_f as nat, r_p as nat, sbox, F::modulus(), i as nat),
        decreases n - i,
    {
        let full = i < r_f || i - r_f >= r_p;
        assert(full == is_full_round(i as nat, r_f as nat, r_p as nat));
        apply_round::<F, S, T, RATE>(state, mds, &round_constants[i], full);
        assert(rv[i as int] == array_values(round_constants@[i as int]));
        i = i + 1;
    }
}

/// The values of the words of a sponge mode.
pub open spec fn option_values<F: FieldExt>(s: Seq<Option<F>>) -> Seq<Option<nat>> {
    s.map_values(
        |x: Option<F>|
            match x {
                Some(v) => Some(v.value()),
                None => None,
            },
    )
}

/// The state with `input` added to its first words, as far as both reach.
pub open spec fn add_rate(s: Seq<nat>, input: Seq<Option<nat>>, m: nat) -> Seq<nat> {
    Seq::new(s.len(), |i: int| if i < input.len() { (s[i] + input[i].unwrap()) % m } else { s[i] })
}

/// Every word of `input` that the state reaches holds a value.
pub open spec fn padded(s_len: nat, input: Seq<Option<nat>>) -> bool {
    forall|i: int| 0 <= i < s_len && 0 <= i < input.len() ==> (#[trigger] input[i]) is Some
}

/// The first `rate` words of the state, as far as it reaches.
pub open spec fn squeeze_output(s: Seq<nat>, rate: nat) -> Seq<Option<nat>> {
    Seq::new(rate, |i: int| if i < s.len() { Some(s[i]) } else { None })
}

/// The state of the `Sponge`.
pub trait SpongeMode {}

/// The absorbing state of the `Sponge`.
pub struct Absorbing<F, const RATE: usize>(pub [Option<F>; RATE]);

/// The squeezing state of the `Sponge`.
pub struct Squeezing<F, const RATE: usize>(pub [Option<F>; RATE]);

impl<F, const RATE: usize> SpongeMode for Absorbing<F, RATE> {}

impl<F, const RATE: usize> SpongeMode for Squeezing<F, RATE> {}

/// A mode holding `v` in its first word and nothing else.
pub open spec fn init_with_view(v: nat, rate: nat) -> Seq<Option<nat>> {
    Seq::new(rate, |i: int| if i == 0 { Some(v) } else { None })
}

impl<F: FieldExt, const RATE: usize> Absorbing<F, RATE> {
    /// The values of the words.
    pub open spec fn view(&self) -> Seq<Option<nat>> {
        option_values(self.0@)
    }

    /// A mode holding `val` in its first word and nothing else.
    pub fn init_with(val: F) -> (r: Self)
        requires
            RATE > 0,
        ensures
            r.view() == init_with_view(val.value(), RATE as nat),
    {
        let mut words: [Option<F>; RATE] = [None; RATE];
        words[0] = Some(val);
        let r = Absorbing(words);
        assert(r.view() =~= init_with_view(val.value(), RATE as nat));
        r
    }
}

impl<F: FieldExt, const RATE: usize> Squeezing<F, RATE> {
    /// The values of the words.
    pub open spec fn view(&self) -> Seq<Option<nat>> {
        option_values(self.0@)
    }
}

/// Adds `input` to the state, as far as both reach, permutes the state, and
/// returns its first `RATE` words.
fn poseidon_sponge<F: FieldExt, S: Spec<F, T, RATE>, const T: usize, const RATE: usize>(
    state: &mut [F; T],
    input: Option<&Absorbing<F, RATE>>,
    mds_matrix: &[[F; T]; T],
    round_constants: &[[F; T]],
) -> (r: Squeezing<F, RATE>)
    requires
        T > 0 || S::spec_partial_rounds() == 0 || num_rounds(
            (S::spec_full_rounds() / 2) as nat,
            S::spec_partial_rounds() as nat,
            round_constants@.len(),
        ) <= S::spec_full_rounds() / 2,
        input matches Some(a) ==> padded(T as nat, a.view()),
    ensures
        array_values(*final(state)) == spec_permute::<F, S, T, RATE>(
            match input {
                Some(a) => add_rate(array_values(*old(state)), a.view(), F::modulus()),
                None => array_values(*old(state)),
            },
            matrix_values(mds_matrix@),
            matrix_values(round_constants@),
        ),
        r.view() == squeeze_output(array_values(*final(state)), RATE as nat),
{
    let ghost s0 = array_values(*state);
    if let Some(Absorbing(words)) = input {
        proof {
            F::lemma_value_bound(vstd::pervasive::arbitrary());
        }
        let mut i: usize = 0;
        while i < T && i < RATE
            invariant
                i <= T,
                F::modulus() > 1,
                s0 == array_values(*old(state)),
                input matches Some(a) && a.0 == *words,
                padded(T as nat, option_values(words@)),
                forall|k: int| i <= k < T ==> (#[trigger] state@[k]) == old(state)@[k],
                forall|k: int|
                    0 <= k < i ==> (#[trigger] state@[k]).value() == add_rate(
                        s0,
                        option_values(words@),
                        F::modulus(),
                    )[k],
            decreases T - i,
        {
            assert(option_values(words@)[i as int] is Some);
            match words[i] {
                Some(v) => {
                    let w = state[i].add(&v);
                    state[i] = w;
                },
                None => {
                    assert(false);
                },
            }
            i = i + 1;
        }
        assert(array_values(*state) =~= add_rate(s0, option_values(words@), F::modulus()));
    }
    permute::<F, S, T, RATE>(state, mds_matrix, round_constants);
    let mut output: [Option<F>; RATE] = [None; RATE];
    let ghost sf = *state;
    let mut i: usize = 0;
    while i < RATE
        invariant
            i <= RATE,
            sf == *state,
            forall|k: int|
                0 <= k < RATE ==> (#[trigger] output@[k]) == if k < i && k < T {
                    Some(sf@[k])
                } else {
                    None::<F>
                },
        decreases RATE - i,
    {
        if i < T {
            output[i] = Some(state[i]);
        }
        i = i + 1;
    }
    let r = Squeezing(output);
    assert(r.view() =~= squeeze_output(array_values(*state), RATE as nat));
    r
}

/// The first word that holds no value.
pub open spec fn is_empty_word() -> spec_fn(Option<nat>) -> bool {
    |w: Option<nat>| w is None
}

/// The first word that holds a value.
pub open spec fn is_full_word() -> spec_fn(Option<nat>) -> bool {
    |w: Option<nat>| w is Some
}

/// The state and the mode after absorbing `v`: into the first empty word of
/// the mode; where there is none, the mode is added to the state, which is
/// permuted, and the mode then holds `v` alone.
pub open spec fn absorb_step(
    sp: (Seq<nat>, Seq<Option<nat>>),
    v: nat,
    perm: spec_fn(Seq<nat>) -> Seq<nat>,
    m: nat,
) -> (Seq<nat>, Seq<Option<nat>>) {
    match first_index(sp.1, is_empty_word()) {
        Some(j) => (sp.0, sp.1.update(j, Some(v))),
        None => (perm(add_rate(sp.0, sp.1, m)), init_with_view(v, sp.1.len())),
    }
}

/// The state and the mode after absorbing each of `inputs` in turn.
pub open spec fn absorb_all(
    sp: (Seq<nat>, Seq<Option<nat>>),
    inputs: Seq<nat>,
    perm: spec_fn(Seq<nat>) -> Seq<nat>,
    m: nat,
) -> (Seq<nat>, Seq<Option<nat>>)
    decreases inputs.len(),
{
    if inputs.len() == 0 {
        sp
    } else {
        absorb_step(absorb_all(sp, inputs.drop_last(), perm, m), inputs.last(), perm, m)
    }
}

/// The state of a new sponge: zero, but for `cap` in word `rate`.
pub open spec fn initial_state(cap: nat, width: nat, rate: nat) -> Seq<nat> {
    Seq::new(width, |i: int| if i == rate { cap } else { 0 })
}

/// A Poseidon sponge.
pub struct Sponge<F, S, M, const T: usize, const RATE: usize> {
    mode: M,
    state: [F; T],
    mds_matrix: [[F; T]; T],
    round_constants: Vec<[F; T]>,
    _marker: PhantomData<S>,
}

impl<F: FieldExt, S: Spec<F, T, RATE>, M, const T: usize, const RATE: usize> Sponge<F, S, M, T, RATE> {
    /// The values of the state.
    pub closed spec fn state_view(&self) -> Seq<nat> {
        array_values(self.state)
    }

    /// The values of the MDS matrix.
    pub closed spec fn mds_view(&self) -> Seq<Seq<nat>> {
        matrix_values(self.mds_matrix@)
    }

    /// The values of the round constants.
    pub closed spec fn rcs_view(&self) -> Seq<Seq<nat>> {
        matrix_values(self.round_constants@)
    }

    /// The permutation of this sponge.
    pub open spec fn perm(&self) -> spec_fn(Seq<nat>) -> Seq<nat> {
        |s: Seq<nat>| spec_permute::<F, S, T, RATE>(s, self.mds_view(), self.rcs_view())
    }
}

impl<F: FieldExt, S: Spec<F, T, RATE>, const T: usize, const RATE: usize> Sponge<
    F,
    S,
    Absorbing<F, RATE>,
    T,
    RATE,
> {
    /// The values of the words of the mode.
    pub closed spec fn mode_view(&self) -> Seq<Option<nat>> {
        self.mode.view()
    }

    /// Constructs a new sponge for the given Poseidon specification.
    pub fn new(initial_capacity_element: F) -> (r: Self)
        requires
            RATE < T,
        ensures
            r.state_view() == initial_state(initial_capacity_element.value(), T as nat, RATE as nat),
            r.mode_view() == Seq::new(RATE as nat, |i: int| None::<nat>),
            r.mds_view() == S::spec_constants().1,
            r.rcs_view() == S::spec_constants().0,
    {
        let (round_constants, mds_matrix, _) = S::constants();
        let mode = Absorbing([None; RATE]);
        let z = F::zero();
        let mut state = [z; T];
        state[RATE] = initial_capacity_element;
        let r = Sponge { mode, state, mds_matrix, round_constants, _marker: PhantomData };
        assert(r.state_view() =~= initial_state(initial_capacity_element.value(), T as nat, RATE as nat));
        assert(r.mode_view() =~= Seq::new(RATE as nat, |i: int| None::<nat>));
        r
    }

    /// Absorbs an element into the sponge.
    pub fn absorb(&mut self, value: F)
        requires
            0 < RATE < T,
        ensures
            (final(self).state_view(), final(self).mode_view()) == absorb_step(
                (old(self).state_view(), old(self).mode_view()),
                value.value(),
                old(self).perm(),
                F::modulus(),
            ),
            final(self).mds_view() == old(self).mds_view(),
            final(self).rcs_view() == old(self).rcs_view(),
    {
        let ghost mv = self.mode_view();
        let mut i: usize = 0;
        while i < RATE
            invariant
                i <= RATE,
                mv == self.mode_view(),
                *self == *old(self),
                forall|k: int| 0 <= k < i ==> !is_empty_word()(#[trigger] mv[k]),
            decreases RATE - i,
        {
            if self.mode.0[i].is_none() {
                proof {
                    lemma_first_index_found(mv, is_empty_word(), i as int);
                }
                self.mode.0[i] = Some(value);
                assert(self.mode_view() =~= mv.update(i as int, Some(value.value())));
                return;
            }
            i = i + 1;
        }
        proof {
            lemma_first_index_none(mv, is_empty_word());
            assert(padded(T as nat, mv));
        }
        let _ = poseidon_sponge::<F, S, T, RATE>(
            &mut self.state,
            Some(&self.mode),
            &self.mds_matrix,
            &self.round_constants,
        );
        self.mode = Absorbing::init_with(value);
    }

    /// Transitions the sponge into its squeezing state: adds the absorbed
    /// words to the state and permutes it.
    pub fn finish_absorbing(self) -> (r: Sponge<F, S, Squeezing<F, RATE>, T, RATE>)
        requires
            RATE < T,
            padded(T as nat, self.mode_view()),
        ensures
            r.state_view() == self.perm()(add_rate(self.state_view(), self.mode_view(), F::modulus())),
            r.mode_view() == squeeze_output(r.state_view(), RATE as nat),
            r.mds_view() == self.mds_view(),
            r.rcs_view() == self.rcs_view(),
    {
        let mut sponge = self;
        let mode = poseidon_sponge::<F, S, T, RATE>(
            &mut sponge.state,
            Some(&sponge.mode),
            &sponge.mds_matrix,
            &sponge.round_constants,
        );
        Sponge {
            mode,
            state: sponge.state,
            mds_matrix: sponge.mds_matrix,
            round_constants: sponge.round_constants,
            _marker: PhantomData,
        }
    }
}

impl<F: FieldExt, S: Spec<F, T, RATE>, const T: usize, const RATE: usize> Sponge<
    F,
    S,
    Squeezing<F, RATE>,
    T,
    RATE,
> {
    /// The values of the words of the mode.
    pub closed spec fn mode_view(&self) -> Seq<Option<nat>> {
        self.mode.view()
    }

    /// Squeezes an element from the sponge: the first word that the mode still
    /// holds; where it holds none, the state is permuted first and the mode
    /// refilled from it.
    pub fn squeeze(&mut self) -> (r: F)
        requires
            0 < RATE < T,
        ensures
            match first_index(old(self).mode_view(), is_full_word()) {
                Some(j) => {
                    &&& r.value() == old(self).mode_view()[j].unwrap()
                    &&& final(self).mode_view() == old(self).mode_view().update(j, None)
                    &&& final(self).state_view() == old(self).state_view()
                },
                None => {
                    let s = old(self).perm()(old(self).state_view());
                    &&& r.value() == s[0]
                    &&& final(self).state_view() == s
                    &&& final(self).mode_view() == squeeze_output(s, RATE as nat).update(0, None)
                },
            },
            final(self).mds_view() == old(self).mds_view(),
            final(self).rcs_view() == old(self).rcs_view(),
    {
        let ghost mv = self.mode_view();
        let mut i: usize = 0;
        while i < RATE
            invariant
                i <= RATE,
                mv == self.mode_view(),
                *self == *old(self),
                forall|k: int| 0 <= k < i ==> !is_full_word()(#[trigger] mv[k]),
            decreases RATE - i,
        {
            if let Some(e) = self.mode.0[i] {
                proof {
                    lemma_first_index_found(mv, is_full_word(), i as int);
                }
                self.mode.0[i] = None;
                assert(self.mode_view() =~= mv.update(i as int, None));
                return e;
            }
            i = i + 1;
        }
        proof {
            lemma_first_index_none(mv, is_full_word());
        }
        // We've already squeezed out all available elements
        self.mode = poseidon_sponge::<F, S, T, RATE>(
            &mut self.state,
            None,
            &self.mds_matrix,
            &self.round_constants,
        );
        let ghost refilled = self.mode_view();
        match self.mode.0[0] {
            Some(e) => {
                self.mode.0[0] = None;
                assert(self.mode_view() =~= refilled.update(0, None));
                e
            },
            None => {
                assert(refilled[0] is Some);
                self.state[0]
            },
        }
    }
}

/// A domain in which a Poseidon hash function is being used.
pub trait Domain<F: FieldExt, const RATE: usize> {
    /// The value of the initial capacity element.
    spec fn spec_initial_capacity_element() -> nat;

    /// The inputs of length `input_len` that this domain pads.
    spec fn accepts(input_len: usize) -> bool;

    /// The values of the padding of an input of length `input_len`.
    spec fn spec_padding(input_len: usize) -> Seq<nat>;

    /// The name of this domain, by character.
    spec fn spec_name() -> Seq<char>;

    /// The name of this domain, for debug formatting purposes.
    fn name() -> (r: String)
        ensures
            r@ == Self::spec_name(),
    ;

    /// The initial capacity element, encoding this domain.
    fn initial_capacity_element() -> (r: F)
        ensures
            r.value() == Self::spec_initial_capacity_element(),
    ;

    /// Returns the padding to be appended to the input.
    fn padding(input_len: usize) -> (r: Vec<F>)
        requires
            Self::accepts(input_len),
        ensures
            values(r@) == Self::spec_padding(input_len),
    ;
}

/// A Poseidon hash function used with constant input length.
///
/// Domain specified in section 4.2 of https://eprint.iacr.org/2019/458.pdf
#[derive(Clone, Copy, Debug)]
pub struct ConstantLength<const L: usize>;

/// The number of zeros that pad `l` inputs to a multiple of `rate`.
pub open spec fn padding_len(l: nat, rate: nat) -> nat {
    (((l + rate - 1) as nat) / rate * rate - l) as nat
}

impl<F: FieldExt, const RATE: usize, const L: usize> Domain<F, RATE> for ConstantLength<L> {
    /// Capacity value is `length * 2^64 + (o - 1)` where `o` is the output
    /// length, here 1.
    open spec fn spec_initial_capacity_element() -> nat {
        (L as nat * 0x10000000000000000nat) % F::modulus()
    }

    open spec fn accepts(input_len: usize) -> bool {
        &&& input_len == L
        &&& RATE > 0
        &&& L + RATE <= usize::MAX
    }

    open spec fn spec_name() -> Seq<char> {
        "ConstantLength<"@ + decimal(L as nat) + ">"@
    }

    open spec fn spec_padding(input_len: usize) -> Seq<nat> {
        Seq::new(padding_len(L as nat, RATE as nat), |i: int| 0nat)
    }

    fn name() -> (r: String) {
        let mut r = String::from_str("ConstantLength<");
        push_decimal(&mut r, L);
        r.append(">");
        proof {
            reveal_strlit("ConstantLength<");
            reveal_strlit(">");
        }
        r
    }

    fn initial_capacity_element() -> (r: F) {
        // We hard-code an output length of 1.
        let l = L as u128;
        let cap = l << 64u32;
        assert(cap == l * 0x10000000000000000) by (bit_vector)
            requires
                l < 0x10000000000000000,
                cap == l << 64u32,
        ;
        F::from_u128(cap)
    }

    fn padding(input_len: usize) -> (r: Vec<F>) {
        // For constant-input-length hashing, we pad the input with zeroes to a
        // multiple of RATE. On its own this would not be sponge-compliant
        // padding, but the Poseidon authors encode the constant length into the
        // capacity element, ensuring that inputs of different lengths do not
        // share the same permutation.
        let k = (L + RATE - 1) / RATE;
        assert(k as int == (L + RATE - 1) as int / (RATE as int));
        assert(k * RATE <= L + RATE - 1) by (nonlinear_arith)
            requires
                k as int == (L + RATE - 1) as int / (RATE as int),
                RATE > 0,
        ;
        assert(k * RATE >= L) by (nonlinear_arith)
            requires
                k as int == (L + RATE - 1) as int / (RATE as int),
                RATE > 0,
        ;
        let n = k * RATE - L;
        let mut r: Vec<F> = Vec::new();
        let z = F::zero();
        let mut i: usize = 0;
        while i < n
            invariant
                i <= n,
                z.value() == 0,
                values(r@) == Seq::new(i as nat, |j: int| 0nat),
            decreases n - i,
        {
            let ghost before = r@;
            r.push(z);
            assert(values(r@) =~= values(before).push(z.value()));
            assert(values(r@) =~= Seq::new((i + 1) as nat, |j: int| 0nat));
            i = i + 1;
        }
        r
    }
}

/// The decimal digits of `n`, without leading zeros.
pub open spec fn decimal(n: nat) -> Seq<char>
    decreases n,
{
    if n < 10 {
        seq![(48 + n) as char]
    } else {
        decimal(n / 10).push((48 + n % 10) as char)
    }
}

/// The decimal digit `d`.
fn digit(d: usize) -> (r: &'static str)
    requires
        d < 10,
    ensures
        r@ == seq![(48 + d) as char],
{
    match d {
        0 => {
            proof {
                reveal_strlit("0");
            }
            "0"
        },
        1 => {
            proof {
                reveal_strlit("1");
            }
            "1"
        },
        2 => {
            proof {
                reveal_strlit("2");
            }
            "2"
        },
        3 => {
            proof {
                reveal_strlit("3");
            }
            "3"
        },
        4 => {
            proof {
                reveal_strlit("4");
            }
            "4"
        },
        5 => {
            proof {
                reveal_strlit("5");
            }
            "5"
        },
        6 => {
            proof {
                reveal_strlit("6");
            }
            "6"
        },
        7 => {
            proof {
                reveal_strlit("7");
            }
            "7"
        },
        8 => {
            proof {
                reveal_strlit("8");
            }
            "8"
        },
        _ => {
            proof {
                reveal_strlit("9");
            }
            "9"
        },
    }
}

/// Appends the decimal digits of `n` to `s`.
fn push_decimal(s: &mut String, n: usize)
    ensures
        final(s)@ == old(s)@ + decimal(n as nat),
    decreases n,
{
    if n < 10 {
        s.append(digit(n));
    } else {
        push_decimal(s, n / 10);
        s.append(digit(n % 10));
        assert(decimal(n as nat) == decimal((n / 10) as nat).push((48 + n % 10) as char));
    }
}

/// The value of a Poseidon hash of specification `S` with `T` words and rate
/// `RATE`: the sponge, its capacity word `cap`, absorbs `inputs`, then its state
/// is permuted and the first word of the state is squeezed.
pub open spec fn spec_hash<F: FieldExt, S: Spec<F, T, RATE>, const T: usize, const RATE: usize>(
    cap: nat,
    inputs: Seq<nat>,
) -> nat {
    let perm = |s: Seq<nat>|
        spec_permute::<F, S, T, RATE>(s, S::spec_constants().1, S::spec_constants().0);
    let init = (initial_state(cap, T as nat, RATE as nat), Seq::new(RATE as nat, |i: int| None::<nat>));
    let absorbed = absorb_all(init, inputs, perm, F::modulus());
    perm(add_rate(absorbed.0, absorbed.1, F::modulus()))[0]
}

/// A Poseidon hash function, built around a sponge.
pub struct Hash<F: FieldExt, S: Spec<F, T, RATE>, D: Domain<F, RATE>, const T: usize, const RATE: usize> {
    sponge: Sponge<F, S, Absorbing<F, RATE>, T, RATE>,
    _domain: PhantomData<D>,
}

impl<F: FieldExt, S: Spec<F, T, RATE>, D: Domain<F, RATE>, const T: usize, const RATE: usize> Hash<
    F,
    S,
    D,
    T,
    RATE,
> {
    /// The state of the sponge, by value.
    pub closed spec fn state_view(&self) -> Seq<nat> {
        self.sponge.state_view()
    }

    /// The mode of the sponge, by value.
    pub closed spec fn mode_view(&self) -> Seq<Option<nat>> {
        self.sponge.mode_view()
    }

    /// The sponge uses the constants of `S`.
    pub closed spec fn uses_constants(&self) -> bool {
        &&& self.sponge.mds_view() == S::spec_constants().1
        &&& self.sponge.rcs_view() == S::spec_constants().0
    }

    /// A hasher has absorbed nothing yet: `hash` consumes it.
    #[verifier::type_invariant]
    closed spec fn fresh(&self) -> bool {
        &&& RATE < T
        &&& self.state_view() == initial_state(D::spec_initial_capacity_element(), T as nat, RATE as nat)
        &&& self.mode_view() == Seq::new(RATE as nat, |i: int| None::<nat>)
        &&& self.uses_constants()
    }

    /// Initializes a new hasher.
    pub fn init() -> (r: Self)
        requires
            RATE < T,
        ensures
            r.state_view() == initial_state(D::spec_initial_capacity_element(), T as nat, RATE as nat),
            r.mode_view() == Seq::new(RATE as nat, |i: int| None::<nat>),
            r.uses_constants(),
    {
        Hash { sponge: Sponge::new(D::initial_capacity_element()), _domain: PhantomData }
    }
}

/// The first `c` words of the mode hold values, the others none.
pub open spec fn filled_prefix(mode: Seq<Option<nat>>, rate: nat, c: nat) -> bool {
    &&& mode.len() == rate
    &&& c <= rate
    &&& forall|k: int| 0 <= k < rate ==> ((#[trigger] mode[k]) is Some <==> k < c)
}

/// Absorbing fills the next word, or, where all are filled, leaves one.
proof fn lemma_absorb_fills(
    sp: (Seq<nat>, Seq<Option<nat>>),
    v: nat,
    perm: spec_fn(Seq<nat>) -> Seq<nat>,
    m: nat,
    rate: nat,
    c: nat,
)
    requires
        rate > 0,
        filled_prefix(sp.1, rate, c),
    ensures
        filled_prefix(absorb_step(sp, v, perm, m).1, rate, if c < rate { c + 1 } else { 1 }),
{
    if c < rate {
        assert forall|k: int| 0 <= k < c implies !is_empty_word()(#[trigger] sp.1[k]) by {
            assert(sp.1[k] is Some);
        }
        lemma_first_index_found(sp.1, is_empty_word(), c as int);
    } else {
        assert forall|k: int| 0 <= k < sp.1.len() implies !is_empty_word()(#[trigger] sp.1[k]) by {
            assert(sp.1[k] is Some);
        }
        lemma_first_index_none(sp.1, is_empty_word());
    }
}

impl<F: FieldExt, S: Spec<F, T, RATE>, const T: usize, const RATE: usize, const L: usize> Hash<
    F,
    S,
    ConstantLength<L>,
    T,
    RATE,
> {
    /// Hashes the given input: absorbs it and its padding, then squeezes one
    /// element.
    pub fn hash(self, message: [F; L]) -> (r: F)
        requires
            0 < RATE,
            0 < L,
            L + RATE <= usize::MAX,
        ensures
            r.value() == spec_hash::<F, S, T, RATE>(
                <ConstantLength<L> as Domain<F, RATE>>::spec_initial_capacity_element(),
                array_values(message) + <ConstantLength<L> as Domain<F, RATE>>::spec_padding(L),
            ),
    {
        proof {
            use_type_invariant(&self);
        }
        let ghost m = F::modulus();
        let ghost perm = |s: Seq<nat>|
            spec_permute::<F, S, T, RATE>(s, S::spec_constants().1, S::spec_constants().0);
        let ghost init = (self.state_view(), self.mode_view());
        let padding = <ConstantLength<L> as Domain<F, RATE>>::padding(L);
        let ghost inputs = array_values(message) + values(padding@);
        let mut sponge = self.sponge;
        assert(sponge.perm() =~= perm);
        let ghost mut c: nat = 0;
        let mut i: usize = 0;
        while i < L
            invariant
                0 < RATE < T,
                m == F::modulus(),
                i <= L,
                inputs == array_values(message) + values(padding@),
                sponge.perm() == perm,
                sponge.mds_view() == S::spec_constants().1,
                sponge.rcs_view() == S::spec_constants().0,
                (sponge.state_view(), sponge.mode_view()) == absorb_all(init, inputs.take(i as int), perm, m),
                filled_prefix(sponge.mode_view(), RATE as nat, c),
                i == 0 ==> c == 0,
                i > 0 ==> 1 <= c,
                (i - c) % (RATE as int) == 0,
            decreases L - i,
        {
            proof {
                lemma_absorb_fills(
                    (sponge.state_view(), sponge.mode_view()),
                    message[i as int].value(),
                    perm,
                    m,
                    RATE as nat,
                    c,
                );
                assert(inputs.take(i + 1).drop_last() =~= inputs.take(i as int));
                assert(inputs[i as int] == message[i as int].value());
                if c == RATE {
                    assert((i + 1 - 1) % (RATE as int) == 0) by (nonlinear_arith)
                        requires
                            (i - c) % (RATE as int) == 0,
                            c == RATE,
                            RATE > 0,
                    ;
                }
            }
            sponge.absorb(message[i]);
            assert(absorb_all(init, inputs.take(i + 1), perm, m) == absorb_step(
                absorb_all(init, inputs.take(i as int), perm, m),
                inputs[i as int],
                perm,
                m,
            ));
            proof {
                c = if c < RATE { c + 1 } else { 1 };
            }
            assert(sponge.perm() =~= perm);
            i = i + 1;
        }
        let mut j: usize = 0;
        while j < padding.len()
            invariant
                0 < RATE < T,
                m == F::modulus(),
                j <= padding@.len(),
                inputs == array_values(message) + values(padding@),
                inputs.len() == L + padding@.len(),
                sponge.perm() == perm,
                sponge.mds_view() == S::spec_constants().1,
                sponge.rcs_view() == S::spec_constants().0,
                (sponge.state_view(), sponge.mode_view()) == absorb_all(init, inputs.take(L + j), perm, m),
                filled_prefix(sponge.mode_view(), RATE as nat, c),
                1 <= c,
                (L + j - c) % (RATE as int) == 0,
            decreases padding@.len() - j,
        {
            proof {
                lemma_absorb_fills(
                    (sponge.state_view(), sponge.mode_view()),
                    padding@[j as int].value(),
                    perm,
                    m,
                    RATE as nat,
                    c,
                );
                assert(inputs.take(L + j + 1).drop_last() =~= inputs.take(L + j));
                assert(inputs[L + j] == padding@[j as int].value());
                if c == RATE {
                    assert((L + j + 1 - 1) % (RATE as int) == 0) by (nonlinear_arith)
                        requires
                            (L + j - c) % (RATE as int) == 0,
                            c == RATE,
                            RATE > 0,
                    ;
                }
            }
            sponge.absorb(padding[j]);
            assert(absorb_all(init, inputs.take(L + j + 1), perm, m) == absorb_step(
                absorb_all(init, inputs.take(L + j), perm, m),
                inputs[L + j],
                perm,
                m,
            ));
            proof {
                c = if c < RATE { c + 1 } else { 1 };
            }
            assert(sponge.perm() =~= perm);
            j = j + 1;
        }
        proof {
            assert(inputs.take(inputs.len() as int) =~= inputs);
            // The input and its padding fill a whole number of blocks.
            let k = ((L + RATE - 1) as nat) / (RATE as nat);
            assert(k * RATE >= L) by (nonlinear_arith)
                requires
                    k == ((L + RATE - 1) as nat) / (RATE as nat),
                    RATE > 0,
            ;
            assert(values(padding@).len() == padding_len(L as nat, RATE as nat));
            assert(k * RATE == L + padding@.len());
            assert(c == RATE) by (nonlinear_arith)
                requires
                    (k * RATE - c) % (RATE as int) == 0,
                    1 <= c <= RATE,
                    RATE > 0,
            ;
            assert(padded(T as nat, sponge.mode_view()));
        }
        let mut squeezing = sponge.finish_absorbing();
        proof {
            let mv = squeezing.mode_view();
            assert(mv[0] is Some);
            lemma_first_index_found(mv, is_full_word(), 0);
        }
        squeezing.squeeze()
    }
}

/// The padding of `ConstantLength` fills the input to a whole number of
/// blocks of `rate` words, and adds less than a block.
pub proof fn lemma_padding_fills_blocks(l: nat, rate: nat)
    requires
        rate > 0,
    ensures
        (l + padding_len(l, rate)) % rate == 0,
        padding_len(l, rate) < rate,
{
    let k = ((l + rate - 1) as nat) / rate;
    assert(k * rate >= l && k * rate <= l + rate - 1) by (nonlinear_arith)
        requires
            k == ((l + rate - 1) as nat) / rate,
            rate > 0,
    ;
    assert(padding_len(l, rate) == k * rate - l);
    assert((k * rate) % rate == 0) by (nonlinear_arith)
        requires
            rate > 0,
    ;
}

/// Absorbing `i` words into an empty mode fills its first `i` words, and
/// leaves the state as it was.
proof fn lemma_absorb_block(
    s: Seq<nat>,
    ms: Seq<nat>,
    rate: nat,
    perm: spec_fn(Seq<nat>) -> Seq<nat>,
    m: nat,
    i: nat,
)
    requires
        i <= ms.len() <= rate,
    ensures
        absorb_all((s, Seq::new(rate, |k: int| None::<nat>)), ms.take(i as int), perm, m) == (
            s,
            Seq::new(rate, |k: int| if k < i { Some(ms[k]) } else { None::<nat> }),
        ),
    decreases i,
{
    let empty = Seq::new(rate, |k: int| None::<nat>);
    if i == 0 {
        assert(ms.take(0) =~= Seq::<nat>::empty());
        assert(empty =~= Seq::new(rate, |k: int| if k < 0 { Some(ms[k]) } else { None::<nat> }));
    } else {
        let j = (i - 1) as nat;
        lemma_absorb_block(s, ms, rate, perm, m, j);
        assert(ms.take(i as int).drop_last() =~= ms.take(j as int));
        let mode = Seq::new(rate, |k: int| if k < j { Some(ms[k]) } else { None::<nat> });
        assert forall|k: int| 0 <= k < j implies !is_empty_word()(#[trigger] mode[k]) by {}
        lemma_first_index_found(mode, is_empty_word(), j as int);
        assert(mode.update(j as int, Some(ms[j as int])) =~= Seq::new(
            rate,
            |k: int| if k < i { Some(ms[k]) } else { None::<nat> },
        ));
    }
}

/// A hash of one block of input, in a state one word wider than the block,
/// is the first word of one permutation of the block followed by the capacity
/// word.
pub proof fn lemma_single_block_hash<F: FieldExt, S: Spec<F, T, RATE>, const T: usize, const RATE: usize>(
    cap: nat,
    ms: Seq<nat>,
)
    requires
        RATE > 0,
        T == RATE + 1,
        ms.len() == RATE,
        forall|i: int| 0 <= i < ms.len() ==> #[trigger] ms[i] < F::modulus(),
    ensures
        spec_hash::<F, S, T, RATE>(cap, ms) == spec_permute::<F, S, T, RATE>(
            ms.push(cap),
            S::spec_constants().1,
            S::spec_constants().0,
        )[0],
{
    let perm = |s: Seq<nat>| spec_permute::<F, S, T, RATE>(s, S::spec_constants().1, S::spec_constants().0);
    let s0 = initial_state(cap, T as nat, RATE as nat);
    lemma_absorb_block(s0, ms, RATE as nat, perm, F::modulus(), RATE as nat);
    assert(ms.take(RATE as int) =~= ms);
    let mode = Seq::new(RATE as nat, |k: int| if k < RATE { Some(ms[k]) } else { None::<nat> });
    F::lemma_value_bound(vstd::pervasive::arbitrary());
    assert forall|k: int| 0 <= k < RATE implies ms[k] % F::modulus() == ms[k] by {
        vstd::arithmetic::div_mod::lemma_small_mod(ms[k], F::modulus());
    }
    assert(add_rate(s0, mode, F::modulus()) =~= ms.push(cap));
}

/// A constant-length hash of exactly one block, in a state one word wider
/// than the block, is the first word of one permutation of the message
/// followed by the capacity word `L * 2^64`.
pub proof fn lemma_constant_length_single_block<
    F: FieldExt,
    S: Spec<F, T, RATE>,
    const T: usize,
    const RATE: usize,
    const L: usize,
>(ms: Seq<nat>)
    requires
        L == RATE,
        RATE > 0,
        T == RATE + 1,
        ms.len() == L,
        forall|i: int| 0 <= i < ms.len() ==> #[trigger] ms[i] < F::modulus(),
    ensures
        spec_hash::<F, S, T, RATE>(
            <ConstantLength<L> as Domain<F, RATE>>::spec_initial_capacity_element(),
            ms + <ConstantLength<L> as Domain<F, RATE>>::spec_padding(L),
        ) == spec_permute::<F, S, T, RATE>(
            ms.push(<ConstantLength<L> as Domain<F, RATE>>::spec_initial_capacity_element()),
            S::spec_constants().1,
            S::spec_constants().0,
        )[0],
{
    lemma_padding_fills_blocks(L as nat, RATE as nat);
    assert(padding_len(L as nat, RATE as nat) == 0) by (nonlinear_arith)
        requires
            (L as nat + padding_len(L as nat, RATE as nat)) % (RATE as nat) == 0,
            padding_len(L as nat, RATE as nat) < RATE,
            L == RATE,
            RATE > 0,
    ;
    assert(ms + <ConstantLength<L> as Domain<F, RATE>>::spec_padding(L) =~= ms);
    lemma_single_block_hash::<F, S, T, RATE>(
        <ConstantLength<L> as Domain<F, RATE>>::spec_initial_capacity_element(),
        ms,
    );
}

/// The capacity element of a constant-length domain encodes the length, so
/// that inputs of different lengths do not share a permutation: two lengths
/// whose values `L * 2^64` lie below the modulus give different capacity
/// elements.
pub proof fn lemma_capacity_encodes_length<F: FieldExt, const RATE: usize, const L1: usize, const L2: usize>()
    requires
        L1 != L2,
        L1 * 0x10000000000000000nat < F::modulus(),
        L2 * 0x10000000000000000nat < F::modulus(),
    ensures
        <ConstantLength<L1> as Domain<F, RATE>>::spec_initial_capacity_element()
            != <ConstantLength<L2> as Domain<F, RATE>>::spec_initial_capacity_element(),
{
    vstd::arithmetic::div_mod::lemma_small_mod(L1 as nat * 0x10000000000000000nat, F::modulus());
    vstd::arithmetic::div_mod::lemma_small_mod(L2 as nat * 0x10000000000000000nat, F::modulus());
}

/// The first `n` rounds read only the first `n` rows of round constants.
proof fn lemma_permutation_reads_rows(
    s: Seq<nat>,
    mds: Seq<Seq<nat>>,
    rcs1: Seq<Seq<nat>>,
    rcs2: Seq<Seq<nat>>,
    r_f: nat,
    r_p: nat,
    sbox: spec_fn(nat) -> nat,
    m: nat,
    n: nat,
)
    requires
        forall|k: int| 0 <= k < n ==> rcs1[k] == rcs2[k],
    ensures
        permutation(s, mds, rcs1, r_f, r_p, sbox, m, n) == permutation(s, mds, rcs2, r_f, r_p, sbox, m, n),
    decreases n,
{
    if n > 0 {
        lemma_permutation_reads_rows(s, mds, rcs1, rcs2, r_f, r_p, sbox, m, (n - 1) as nat);
        assert(rcs1[n - 1] == rcs2[n - 1]);
    }
}

/// Rows of round constants past the `R_F + R_P` rounds of the permutation are
/// ignored: the permutation is that of the first `R_F + R_P` rows.
pub proof fn lemma_permute_ignores_extra_constants<F: FieldExt, S: Spec<F, T, RATE>, const T: usize, const RATE: usize>(
    s: Seq<nat>,
    mds: Seq<Seq<nat>>,
    rcs: Seq<Seq<nat>>,
)
    requires
        rcs.len() >= 2 * (S::spec_full_rounds() / 2) + S::spec_partial_rounds(),
    ensures
        spec_permute::<F, S, T, RATE>(s, mds, rcs) == spec_permute::<F, S, T, RATE>(
            s,
            mds,
            rcs.take(2 * (S::spec_full_rounds() / 2) + S::spec_partial_rounds()),
        ),
{
    let r_f = (S::spec_full_rounds() / 2) as nat;
    let r_p = S::spec_partial_rounds() as nat;
    let n = 2 * r_f + r_p;
    let short = rcs.take(n as int);
    assert(num_rounds(r_f, r_p, rcs.len()) == n);
    assert(num_rounds(r_f, r_p, short.len()) == n);
    lemma_permutation_reads_rows(s, mds, rcs, short, r_f, r_p, |x: nat| S::spec_sbox(x), F::modulus(), n);
}

/// `s` holds `n` values below `m`: the values of a state of field elements.
pub open spec fn reduced(s: Seq<nat>, n: nat, m: nat) -> bool {
    s.len() == n && forall|i: int| 0 <= i < n ==> #[trigger] s[i] < m
}

/// The S-box maps the field one-to-one into itself.
pub open spec fn sbox_injective(sbox: spec_fn(nat) -> nat, m: nat) -> bool {
    &&& forall|x: nat| x < m ==> #[trigger] sbox(x) < m
    &&& forall|x: nat, y: nat| x < m && y < m && #[trigger] sbox(x) == #[trigger] sbox(y) ==> x == y
}

/// The matrix `mds` is invertible: the map `x -> mds * x` on states of `n`
/// field elements is one-to-one.
pub open spec fn mds_injective(mds: Seq<Seq<nat>>, n: nat, m: nat) -> bool {
    forall|x: Seq<nat>, y: Seq<nat>|
        reduced(x, n, m) && reduced(y, n, m) && #[trigger] apply_mds(mds, x, m) == #[trigger] apply_mds(mds, y, m)
            ==> x == y
}

proof fn lemma_dot_bound(row: Seq<nat>, s: Seq<nat>, m: nat, n: nat)
    requires
        m > 0,
    ensures
        dot(row, s, m, n) < m,
{
}

/// Two values below `m` that agree modulo `m` after adding `c` are equal.
proof fn lemma_add_mod_cancel(a: nat, b: nat, c: nat, m: nat)
    requires
        m > 0,
        a < m,
        b < m,
        (a + c) % m == (b + c) % m,
    ensures
        a == b,
{
    let x = (a + c) as int;
    let y = (b + c) as int;
    let d = m as int;
    vstd::arithmetic::div_mod::lemma_fundamental_div_mod(x, d);
    vstd::arithmetic::div_mod::lemma_fundamental_div_mod(y, d);
    let q1 = x / d;
    let q2 = y / d;
    let r = x % d;
    assert(y % d == r);
    assert(a - b == d * q1 - d * q2);
    assert(d * q1 - d * q2 == d * (q1 - q2)) by (nonlinear_arith);
    assert(q1 == q2) by (nonlinear_arith)
        requires
            a - b == d * (q1 - q2),
            a < d,
            b < d,
            d > 0,
    ;
}

/// One round maps states of field elements to states of field elements, one
/// to one.
proof fn lemma_round_injective(
    s1: Seq<nat>,
    s2: Seq<nat>,
    rcs: Seq<nat>,
    mds: Seq<Seq<nat>>,
    full: bool,
    sbox: spec_fn(nat) -> nat,
    m: nat,
    n: nat,
)
    requires
        m > 0,
        n > 0,
        reduced(s1, n, m),
        reduced(s2, n, m),
        sbox_injective(sbox, m),
        mds_injective(mds, n, m),
    ensures
        reduced(round(s1, rcs, mds, full, sbox, m), n, m),
        round(s1, rcs, mds, full, sbox, m) == round(s2, rcs, mds, full, sbox, m) ==> s1 == s2,
{
    let added1 = Seq::new(s1.len(), |i: int| (s1[i] + rcs[i]) % m);
    let added2 = Seq::new(s2.len(), |i: int| (s2[i] + rcs[i]) % m);
    let boxed1 = if full {
        Seq::new(s1.len(), |i: int| sbox(added1[i]))
    } else {
        added1.update(0, sbox(added1[0]))
    };
    let boxed2 = if full {
        Seq::new(s2.len(), |i: int| sbox(added2[i]))
    } else {
        added2.update(0, sbox(added2[0]))
    };
    assert forall|i: int| 0 <= i < n implies #[trigger] boxed1[i] < m by {
        assert(added1[i] < m);
        if full || i == 0 {
            assert(sbox(added1[i]) < m);
        }
    }
    assert forall|i: int| 0 <= i < n implies #[trigger] boxed2[i] < m by {
        assert(added2[i] < m);
        if full || i == 0 {
            assert(sbox(added2[i]) < m);
        }
    }
    assert(boxed1.len() == n && boxed2.len() == n);
    assert(reduced(boxed1, n, m));
    assert(reduced(boxed2, n, m));
    assert(round(s1, rcs, mds, full, sbox, m) == apply_mds(mds, boxed1, m));
    assert(round(s2, rcs, mds, full, sbox, m) == apply_mds(mds, boxed2, m));
    assert forall|i: int| 0 <= i < n implies #[trigger] apply_mds(mds, boxed1, m)[i] < m by {
        lemma_dot_bound(mds[i], boxed1, m, boxed1.len());
    }
    if round(s1, rcs, mds, full, sbox, m) == round(s2, rcs, mds, full, sbox, m) {
        assert(boxed1 == boxed2);
        assert forall|i: int| 0 <= i < n implies s1[i] == s2[i] by {
            assert(boxed1[i] == boxed2[i]);
            if full || i == 0 {
                assert(sbox(added1[i]) == sbox(added2[i]));
            } else {
                assert(boxed1[i] == added1[i] && boxed2[i] == added2[i]);
            }
            assert(added1[i] == added2[i]);
            lemma_add_mod_cancel(s1[i], s2[i], rcs[i], m);
        }
        assert(s1 =~= s2);
    }
}

proof fn lemma_permutation_injective(
    s1: Seq<nat>,
    s2: Seq<nat>,
    mds: Seq<Seq<nat>>,
    rcs: Seq<Seq<nat>>,
    r_f: nat,
    r_p: nat,
    sbox: spec_fn(nat) -> nat,
    m: nat,
    n: nat,
    t: nat,
)
    requires
        m > 0,
        t > 0,
        reduced(s1, t, m),
        reduced(s2, t, m),
        sbox_injective(sbox, m),
        mds_injective(mds, t, m),
    ensures
        reduced(permutation(s1, mds, rcs, r_f, r_p, sbox, m, n), t, m),
        permutation(s1, mds, rcs, r_f, r_p, sbox, m, n) == permutation(s2, mds, rcs, r_f, r_p, sbox, m, n)
            ==> s1 == s2,
    decreases n,
{
    if n > 0 {
        let k = (n - 1) as nat;
        lemma_permutation_injective(s1, s2, mds, rcs, r_f, r_p, sbox, m, k, t);
        lemma_permutation_injective(s2, s1, mds, rcs, r_f, r_p, sbox, m, k, t);
        let p1 = permutation(s1, mds, rcs, r_f, r_p, sbox, m, k);
        let p2 = permutation(s2, mds, rcs, r_f, r_p, sbox, m, k);
        lemma_round_injective(p1, p2, rcs[k as int], mds, is_full_round(k, r_f, r_p), sbox, m, t);
    }
}

/// The Poseidon permutation is one to one on states of field elements, where its S-box maps the field one to one into itself and its MDS
/// matrix is invertible: each round is undone by the inverse matrix, the subtraction of
/// the round constants and the inverse S-box.
pub proof fn lemma_permute_injective<F: FieldExt, S: Spec<F, T, RATE>, const T: usize, const RATE: usize>(
    s1: Seq<nat>,
    s2: Seq<nat>,
    mds: Seq<Seq<nat>>,
    rcs: Seq<Seq<nat>>,
)
    requires
        reduced(s1, T as nat, F::modulus()),
        reduced(s2, T as nat, F::modulus()),
        sbox_injective(|x: nat| S::spec_sbox(x), F::modulus()),
        mds_injective(mds, T as nat, F::modulus()),
        spec_permute::<F, S, T, RATE>(s1, mds, rcs) == spec_permute::<F, S, T, RATE>(s2, mds, rcs),
    ensures
        s1 == s2,
{
    F::lemma_value_bound(vstd::pervasive::arbitrary());
    if T == 0 {
        assert(s1 =~= s2);
    } else {
        let r_f = (S::spec_full_rounds() / 2) as nat;
        let r_p = S::spec_partial_rounds() as nat;
        lemma_permutation_injective(
            s1,
            s2,
            mds,
            rcs,
            r_f,
            r_p,
            |x: nat| S::spec_sbox(x),
            F::modulus(),
            num_rounds(r_f, r_p, rcs.len()),
            T as nat,
        );
    }
}

/// Round `k` of the permutation, for each `k < 2 * r_f + r_p`: the first
/// `r_f` rounds are full, the next `r_p` partial, the last `r_f` full.
pub proof fn lemma_round_schedule(
    s: Seq<nat>,
    mds: Seq<Seq<nat>>,
    rcs: Seq<Seq<nat>>,
    r_f: nat,
    r_p: nat,
    sbox: spec_fn(nat) -> nat,
    m: nat,
    k: nat,
)
    requires
        k < 2 * r_f + r_p,
    ensures
        permutation(s, mds, rcs, r_f, r_p, sbox, m, k + 1) == round(
            permutation(s, mds, rcs, r_f, r_p, sbox, m, k),
            rcs[k as int],
            mds,
            !(r_f <= k && k < r_f + r_p),
            sbox,
            m,
        ),
        k < r_f ==> is_full_round(k, r_f, r_p),
        r_f <= k < r_f + r_p ==> !is_full_round(k, r_f, r_p),
        r_f + r_p <= k ==> is_full_round(k, r_f, r_p),
{
}

/// `sum_{j < n} mds[i][j] * s[j]`, over the integers.
pub open spec fn row_times(mds: Seq<Seq<nat>>, s: Seq<nat>, i: int, n: nat) -> int
    decreases n,
{
    if n == 0 {
        0
    } else {
        row_times(mds, s, i, (n - 1) as nat) + mds[i][n - 1] * s[n - 1]
    }
}

proof fn lemma_dot_row_times(mds: Seq<Seq<nat>>, s: Seq<nat>, i: int, m: nat, n: nat)
    requires
        m > 0,
    ensures
        dot(mds[i], s, m, n) == row_times(mds, s, i, n) % (m as int),
    decreases n,
{
    if n > 0 {
        let k = (n - 1) as nat;
        lemma_dot_row_times(mds, s, i, m, k);
        vstd::arithmetic::div_mod::lemma_add_mod_noop(
            row_times(mds, s, i, k),
            (mds[i][k as int] * s[k as int]) as int,
            m as int,
        );
    } else {
        vstd::arithmetic::div_mod::lemma_small_mod(0, m);
    }
}

/// The MDS layer multiplies the state by the matrix: word `i` of the result
/// is row `i` of `mds` times the state, `sum_j mds[i][j] * s[j]`, modulo `m`.
pub proof fn lemma_apply_mds_rows(mds: Seq<Seq<nat>>, s: Seq<nat>, m: nat, i: int)
    requires
        m > 0,
        0 <= i < s.len(),
    ensures
        apply_mds(mds, s, m).len() == s.len(),
        apply_mds(mds, s, m)[i] == row_times(mds, s, i, s.len()) % (m as int),
{
    lemma_dot_row_times(mds, s, i, m, s.len());
}

/// Block `i` of `inputs`, of `rate` words.
pub open spec fn block(inputs: Seq<nat>, i: nat, rate: nat) -> Seq<Option<nat>> {
    Seq::new(rate, |k: int| Some(inputs[i * rate + k]))
}

/// The state after each of the first `k` blocks of `inputs` is added to its
/// first words and the state is permuted.
pub open spec fn sponge_blocks(
    s: Seq<nat>,
    inputs: Seq<nat>,
    rate: nat,
    perm: spec_fn(Seq<nat>) -> Seq<nat>,
    m: nat,
    k: nat,
) -> Seq<nat>
    decreases k,
{
    if k == 0 {
        s
    } else {
        perm(add_rate(sponge_blocks(s, inputs, rate, perm, m, (k - 1) as nat), block(inputs, (k - 1) as nat, rate), m))
    }
}

/// After `n = j * rate + t` words, `1 <= t <= rate`, the sponge has permuted
/// the first `j` blocks and holds the first `t` words of the next.
proof fn lemma_absorb_progress(
    s0: Seq<nat>,
    inputs: Seq<nat>,
    rate: nat,
    perm: spec_fn(Seq<nat>) -> Seq<nat>,
    m: nat,
    j: nat,
    t: nat,
)
    requires
        rate > 0,
        1 <= t <= rate,
        j * rate + t <= inputs.len(),
    ensures
        absorb_all((s0, Seq::new(rate, |k: int| None::<nat>)), inputs.take((j * rate + t) as int), perm, m) == (
            sponge_blocks(s0, inputs, rate, perm, m, j),
            Seq::new(rate, |k: int| if k < t { Some(inputs[j * rate + k]) } else { None::<nat> }),
        ),
    decreases j * rate + t,
{
    let n = j * rate + t;
    let empty = Seq::new(rate, |k: int| None::<nat>);
    let x = inputs[n - 1];
    let taken = inputs.take(n as int);
    let before = inputs.take(n - 1);
    assert(taken.drop_last() =~= before);
    assert(taken.last() == x);
    let goal = (
        sponge_blocks(s0, inputs, rate, perm, m, j),
        Seq::new(rate, |k: int| if k < t { Some(inputs[j * rate + k]) } else { None::<nat> }),
    );
    // One more word is absorbed into what the first `n - 1` words left.
    assert(absorb_all((s0, empty), taken, perm, m) == absorb_step(
        absorb_all((s0, empty), before, perm, m),
        x,
        perm,
        m,
    ));
    if t > 1 {
        lemma_absorb_progress(s0, inputs, rate, perm, m, j, (t - 1) as nat);
        let mode = Seq::new(rate, |k: int| if k < t - 1 { Some(inputs[j * rate + k]) } else { None::<nat> });
        assert(absorb_all((s0, empty), before, perm, m) == (sponge_blocks(s0, inputs, rate, perm, m, j), mode));
        assert forall|k: int| 0 <= k < t - 1 implies !is_empty_word()(#[trigger] mode[k]) by {}
        lemma_first_index_found(mode, is_empty_word(), t - 1);
        assert(mode.update(t - 1, Some(x)) =~= goal.1);
        assert(absorb_step((goal.0, mode), x, perm, m) == goal);
    } else if j == 0 {
        assert(n == 1);
        assert(before =~= Seq::<nat>::empty());
        assert(absorb_all((s0, empty), before, perm, m) == (s0, empty));
        lemma_first_index_found(empty, is_empty_word(), 0);
        assert(empty.update(0, Some(x)) =~= goal.1);
        assert(goal.0 == s0);
        assert(absorb_step((s0, empty), x, perm, m) == goal);
    } else {
        let jp = (j - 1) as nat;
        assert(jp * rate + rate == j * rate) by (nonlinear_arith)
            requires
                jp == j - 1,
                j > 0,
        ;
        lemma_absorb_progress(s0, inputs, rate, perm, m, jp, rate);
        let full = Seq::new(rate, |k: int| if k < rate { Some(inputs[jp * rate + k]) } else { None::<nat> });
        let prev = sponge_blocks(s0, inputs, rate, perm, m, jp);
        assert(absorb_all((s0, empty), before, perm, m) == (prev, full));
        assert forall|k: int| 0 <= k < full.len() implies !is_empty_word()(#[trigger] full[k]) by {}
        lemma_first_index_none(full, is_empty_word());
        assert(full =~= block(inputs, jp, rate));
        assert(init_with_view(x, rate) =~= goal.1);
        assert(goal.0 == perm(add_rate(prev, block(inputs, jp, rate), m)));
        assert(absorb_step((prev, full), x, perm, m) == goal);
    }
}

/// The sponge adds each block of `rate` words of the input to the first words
/// of the state and permutes the state, and the hash is the first word of the
/// final state: for an input of `k >= 1` whole blocks.
pub proof fn lemma_hash_blocks<F: FieldExt, S: Spec<F, T, RATE>, const T: usize, const RATE: usize>(
    cap: nat,
    inputs: Seq<nat>,
    k: nat,
)
    requires
        RATE > 0,
        k >= 1,
        inputs.len() == k * RATE,
    ensures
        spec_hash::<F, S, T, RATE>(cap, inputs) == sponge_blocks(
            initial_state(cap, T as nat, RATE as nat),
            inputs,
            RATE as nat,
            |s: Seq<nat>| spec_permute::<F, S, T, RATE>(s, S::spec_constants().1, S::spec_constants().0),
            F::modulus(),
            k,
        )[0],
{
    let perm = |s: Seq<nat>| spec_permute::<F, S, T, RATE>(s, S::spec_constants().1, S::spec_constants().0);
    let s0 = initial_state(cap, T as nat, RATE as nat);
    let j = (k - 1) as nat;
    assert(j * RATE + RATE == k * RATE) by (nonlinear_arith)
        requires
            j == k - 1,
            k >= 1,
    ;
    lemma_absorb_progress(s0, inputs, RATE as nat, perm, F::modulus(), j, RATE as nat);
    assert(inputs.take((k * RATE) as int) =~= inputs);
    assert(Seq::new(RATE as nat, |i: int| if i < RATE { Some(inputs[j * RATE + i]) } else { None::<nat> })
        =~= block(inputs, j, RATE as nat));
}

} // verus!
