//! Queries of a multi-opening proof, and their grouping into rotation sets.

use crate::arithmetic::{distinct, lemma_vanishing_remove, values, vanishing_eval};
use crate::field::sub_mod;
use vstd::arithmetic::div_mod::lemma_small_mod;
use crate::field::FieldExt;
use crate::msm::Msm;
use vstd::prelude::*;

verus! {

/// A commitment that a query opens: a point, or a combination of points.
pub enum CommitmentReference<F, P> {
    Commitment(P),
    MSM(Msm<F, P>),
}

/// A claim that the commitment known by `commitment_id` opens at `point` to
/// `eval`. Queries with one `commitment_id` open one commitment.
pub struct VerifierQuery<F, P> {
    pub commitment_id: usize,
    pub commitment: CommitmentReference<F, P>,
    pub point: F,
    pub eval: F,
}

/// What a query states.
pub trait Query<F> {
    type Commitment;

    spec fn spec_point(&self) -> F;

    spec fn spec_eval(&self) -> F;

    spec fn spec_commitment(&self) -> Self::Commitment;

    fn get_point(&self) -> (r: F)
        ensures
            r == self.spec_point(),
    ;

    fn get_eval(&self) -> (r: F)
        ensures
            r == self.spec_eval(),
    ;

    fn get_commitment(&self) -> (r: &Self::Commitment)
        ensures
            *r == self.spec_commitment(),
    ;
}

impl<F: Copy, P> Query<F> for VerifierQuery<F, P> {
    type Commitment = CommitmentReference<F, P>;

    open spec fn spec_point(&self) -> F {
        self.point
    }

    open spec fn spec_eval(&self) -> F {
        self.eval
    }

    open spec fn spec_commitment(&self) -> CommitmentReference<F, P> {
        self.commitment
    }

    fn get_point(&self) -> (r: F) {
        self.point
    }

    fn get_eval(&self) -> (r: F) {
        self.eval
    }

    fn get_commitment(&self) -> (r: &CommitmentReference<F, P>) {
        &self.commitment
    }
}

impl<F, P> VerifierQuery<F, P> {
    /// A query that opens the point `commitment`, known by `id`.
    pub fn new_commitment(id: usize, commitment: P, point: F, eval: F) -> (r: Self)
        ensures
            r.commitment_id == id,
            r.commitment == CommitmentReference::<F, P>::Commitment(commitment),
            r.point == point,
            r.eval == eval,
    {
        VerifierQuery { commitment_id: id, commitment: CommitmentReference::Commitment(commitment), point, eval }
    }

    /// A query that opens the combination `msm`, known by `id`.
    pub fn new_msm(id: usize, msm: Msm<F, P>, point: F, eval: F) -> (r: Self)
        ensures
            r.commitment_id == id,
            r.commitment == CommitmentReference::<F, P>::MSM(msm),
            r.point == point,
            r.eval == eval,
    {
        VerifierQuery { commitment_id: id, commitment: CommitmentReference::MSM(msm), point, eval }
    }
}

/// The index of the first element that satisfies `p`.
pub open spec fn first_index<A>(s: Seq<A>, p: spec_fn(A) -> bool) -> Option<int>
    decreases s.len(),
{
    if s.len() == 0 {
        None
    } else {
        match first_index(s.drop_last(), p) {
            Some(k) => Some(k),
            None => if p(s.last()) {
                Some(s.len() - 1)
            } else {
                None
            },
        }
    }
}

pub proof fn lemma_first_index_none<A>(s: Seq<A>, p: spec_fn(A) -> bool)
    requires
        forall|k: int| 0 <= k < s.len() ==> !p(#[trigger] s[k]),
    ensures
        first_index(s, p) == None::<int>,
    decreases s.len(),
{
    if s.len() > 0 {
        lemma_first_index_none(s.drop_last(), p);
    }
}

pub proof fn lemma_first_index_found<A>(s: Seq<A>, p: spec_fn(A) -> bool, j: int)
    requires
        0 <= j < s.len(),
        p(s[j]),
        forall|k: int| 0 <= k < j ==> !p(#[trigger] s[k]),
    ensures
        first_index(s, p) == Some(j),
    decreases s.len(),
{
    if s.len() > j + 1 {
        lemma_first_index_found(s.drop_last(), p, j);
    } else {
        lemma_first_index_none(s.drop_last(), p);
    }
}

/// The values in order of first occurrence, each once.
pub open spec fn dedup(s: Seq<nat>) -> Seq<nat>
    decreases s.len(),
{
    if s.len() == 0 {
        s
    } else {
        let d = dedup(s.drop_last());
        if d.contains(s.last()) {
            d
        } else {
            d.push(s.last())
        }
    }
}

/// The points of the queries.
pub open spec fn query_points<F: FieldExt, P>(qs: Seq<VerifierQuery<F, P>>) -> Seq<nat> {
    qs.map_values(|q: VerifierQuery<F, P>| q.point.value())
}

/// An entry `(i, _)` whose query `i` opens the commitment `id`.
pub open spec fn opens<F, P>(qs: Seq<VerifierQuery<F, P>>, id: usize) -> spec_fn((int, Seq<nat>)) -> bool {
    |e: (int, Seq<nat>)| qs[e.0].commitment_id == id
}

/// For each commitment of the first `n` queries, in order of its first query:
/// the index of that query, and the points at which the commitment is
/// opened, in order of first occurrence.
pub open spec fn commitment_map<F: FieldExt, P>(qs: Seq<VerifierQuery<F, P>>, n: nat) -> Seq<(int, Seq<nat>)>
    decreases n,
{
    if n == 0 {
        Seq::empty()
    } else {
        let cm = commitment_map(qs, (n - 1) as nat);
        let q = qs[n - 1];
        let x = q.point.value();
        match first_index(cm, opens(qs, q.commitment_id)) {
            Some(j) => if cm[j].1.contains(x) {
                cm
            } else {
                cm.update(j, (cm[j].0, cm[j].1.push(x)))
            },
            None => cm.push(((n - 1) as int, seq![x])),
        }
    }
}

/// `a` holds the points of `b`: as many, and each of them.
pub open spec fn same_points(a: Seq<nat>, b: Seq<nat>) -> bool {
    a.len() == b.len() && forall|i: int| 0 <= i < a.len() ==> b.contains(#[trigger] a[i])
}

/// A group whose points are those of `ps`.
pub open spec fn same_as(ps: Seq<nat>) -> spec_fn((Seq<nat>, Seq<int>)) -> bool {
    |g: (Seq<nat>, Seq<int>)| same_points(g.0, ps)
}

/// The commitments grouped by the points at which they are opened: each group
/// holds the points of its first commitment and the indices of the first
/// queries of its commitments, in order.
pub open spec fn group_sets(cm: Seq<(int, Seq<nat>)>) -> Seq<(Seq<nat>, Seq<int>)>
    decreases cm.len(),
{
    if cm.len() == 0 {
        Seq::empty()
    } else {
        let g = group_sets(cm.drop_last());
        let e = cm.last();
        match first_index(g, same_as(e.1)) {
            Some(j) => g.update(j, (g[j].0, g[j].1.push(e.0))),
            None => g.push((e.1, seq![e.0])),
        }
    }
}

/// A query that opens the commitment `id` at `x`.
pub open spec fn opens_at<F: FieldExt, P>(id: usize, x: nat) -> spec_fn(VerifierQuery<F, P>) -> bool {
    |q: VerifierQuery<F, P>| q.commitment_id == id && q.point.value() == x
}

/// The evaluation of the first query that opens the commitment `id` at `x`.
pub open spec fn first_eval<F: FieldExt, P>(qs: Seq<VerifierQuery<F, P>>, id: usize, x: nat) -> nat {
    match first_index(qs, opens_at::<F, P>(id, x)) {
        Some(i) => qs[i].eval.value(),
        None => 0,
    }
}

/// The values of `s` that are not in `ex`, in order.
pub open spec fn without(s: Seq<nat>, ex: Seq<nat>) -> Seq<nat>
    decreases s.len(),
{
    if s.len() == 0 {
        s
    } else if ex.contains(s.last()) {
        without(s.drop_last(), ex)
    } else {
        without(s.drop_last(), ex).push(s.last())
    }
}

/// The groups of commitments of the queries.
pub open spec fn query_groups<F: FieldExt, P>(qs: Seq<VerifierQuery<F, P>>) -> Seq<(Seq<nat>, Seq<int>)> {
    group_sets(commitment_map(qs, qs.len()))
}

/// The commitments that are opened at one set of points.
pub struct RotationSet<F> {
    /// For each commitment: the index of its first query, and its evaluations
    /// at `points`.
    pub commitments: Vec<(usize, Vec<F>)>,
    pub points: Vec<F>,
    /// The points of all queries that are not in `points`.
    pub diffs: Vec<F>,
}

/// The rotation sets of a list of queries, and all their points.
pub struct IntermediateSets<F> {
    pub rotation_sets: Vec<RotationSet<F>>,
    pub super_point_set: Vec<F>,
}

/// `s` holds the value of `x`.
pub fn contains<F: FieldExt>(s: &Vec<F>, x: &F) -> (r: bool)
    ensures
        r == values(s@).contains(x.value()),
{
    let mut i: usize = 0;
    while i < s.len()
        invariant
            i <= s@.len(),
            forall|k: int| 0 <= k < i ==> s@[k].value() != x.value(),
        decreases s@.len() - i,
    {
        if s[i].equals(x) {
            assert(values(s@)[i as int] == x.value());
            return true;
        }
        i = i + 1;
    }
    proof {
        if values(s@).contains(x.value()) {
            let k = choose|k: int| 0 <= k < values(s@).len() && values(s@)[k] == x.value();
            assert(s@[k].value() == x.value());
        }
    }
    false
}

/// A copy of `s`.
pub fn copy_values<F: FieldExt>(s: &Vec<F>) -> (r: Vec<F>)
    ensures
        r@ == s@,
{
    let mut r: Vec<F> = Vec::new();
    let mut i: usize = 0;
    while i < s.len()
        invariant
            i <= s@.len(),
            r@ == s@.take(i as int),
        decreases s@.len() - i,
    {
        r.push(s[i]);
        assert(s@.take(i + 1) =~= s@.take(i as int).push(s@[i as int]));
        i = i + 1;
    }
    assert(s@.take(s@.len() as int) =~= s@);
    r
}

/// The entries of a commitment map, each point taken by its value.
pub open spec fn cmap_view<F: FieldExt>(c: Seq<(usize, Vec<F>)>) -> Seq<(int, Seq<nat>)> {
    Seq::new(c.len(), |j: int| (c[j].0 as int, values(c[j].1@)))
}

/// The groups, each point taken by its value.
pub open spec fn groups_view<F: FieldExt>(g: Seq<(Vec<F>, Vec<usize>)>) -> Seq<(Seq<nat>, Seq<int>)> {
    Seq::new(g.len(), |j: int| (values(g[j].0@), g[j].1@.map_values(|x: usize| x as int)))
}

/// The points of the queries, each once, in order of first occurrence.
fn super_points<F: FieldExt, P>(queries: &[VerifierQuery<F, P>]) -> (r: Vec<F>)
    ensures
        values(r@) == dedup(query_points(queries@)),
{
    let ghost qp = query_points(queries@);
    let mut r: Vec<F> = Vec::new();
    let mut i: usize = 0;
    while i < queries.len()
        invariant
            i <= queries@.len(),
            qp == query_points(queries@),
            values(r@) == dedup(qp.take(i as int)),
        decreases queries@.len() - i,
    {
        let x = queries[i].point;
        let c = contains(&r, &x);
        assert(qp.take(i + 1).drop_last() =~= qp.take(i as int));
        if !c {
            r.push(x);
            assert(values(r@) =~= values(r@.drop_last()).push(x.value()));
        }
        i = i + 1;
    }
    assert(qp.take(queries@.len() as int) =~= qp);
    r
}

/// Each commitment with the points at which it is opened.
fn commitment_points<F: FieldExt, P>(queries: &[VerifierQuery<F, P>]) -> (r: Vec<(usize, Vec<F>)>)
    ensures
        cmap_view(r@) == commitment_map(queries@, queries@.len() as nat),
        forall|j: int| 0 <= j < r@.len() ==> (#[trigger] r@[j]).0 < queries@.len(),
        forall|j: int| 0 <= j < r@.len() ==> distinct(values((#[trigger] r@[j]).1@)),
{
    let mut r: Vec<(usize, Vec<F>)> = Vec::new();
    let mut i: usize = 0;
    while i < queries.len()
        invariant
            i <= queries@.len(),
            cmap_view(r@) == commitment_map(queries@, i as nat),
            forall|j: int| 0 <= j < r@.len() ==> (#[trigger] r@[j]).0 < i,
            forall|j: int| 0 <= j < r@.len() ==> distinct(values((#[trigger] r@[j]).1@)),
        decreases queries@.len() - i,
    {
        let id = queries[i].commitment_id;
        let x = queries[i].point;
        let ghost cm = cmap_view(r@);
        let ghost pred = opens(queries@, id);
        let mut t: usize = 0;
        let mut found = false;
        while t < r.len() && !found
            invariant
                t <= r@.len(),
                cm == cmap_view(r@),
                pred == opens(queries@, id),
                forall|j: int| 0 <= j < r@.len() ==> (#[trigger] r@[j]).0 < i,
                i < queries@.len(),
                forall|k: int| 0 <= k < t ==> !pred(#[trigger] cm[k]),
                found ==> t < r@.len() && pred(cm[t as int]),
            decreases r@.len() - t + (if found { 0int } else { 1int }),
        {
            if queries[r[t].0].commitment_id == id {
                found = true;
            } else {
                t = t + 1;
            }
        }
        if found {
            proof {
                lemma_first_index_found(cm, pred, t as int);
            }
            let c = contains(&r[t].1, &x);
            if !c {
                let ghost old_r = r@;
                r[t].1.push(x);
                proof {
                    assert(values(r@[t as int].1@) =~= values(old_r[t as int].1@).push(x.value()));
                    assert(cmap_view(r@) =~= cm.update(t as int, (cm[t as int].0, cm[t as int].1.push(x.value()))));
                    assert forall|j: int| 0 <= j < r@.len() implies distinct(values((#[trigger] r@[j]).1@)) by {
                        if j == t {
                            assert(distinct(values(old_r[j].1@)));
                        } else {
                            assert(r@[j] == old_r[j]);
                        }
                    }
                }
            }
        } else {
            proof {
                lemma_first_index_none(cm, pred);
            }
            let mut pts: Vec<F> = Vec::new();
            pts.push(x);
            r.push((i, pts));
            proof {
                assert(values(pts@) =~= seq![x.value()]);
                assert(cmap_view(r@) =~= cm.push((i as int, seq![x.value()])));
            }
        }
        i = i + 1;
    }
    r
}

/// The points of `a` are those of `b`.
fn same_point_set<F: FieldExt>(a: &Vec<F>, b: &Vec<F>) -> (r: bool)
    ensures
        r == same_points(values(a@), values(b@)),
{
    if a.len() != b.len() {
        return false;
    }
    let mut i: usize = 0;
    while i < a.len()
        invariant
            i <= a@.len(),
            forall|k: int| 0 <= k < i ==> values(b@).contains(#[trigger] values(a@)[k]),
        decreases a@.len() - i,
    {
        if !contains(b, &a[i]) {
            assert(values(a@)[i as int] == a@[i as int].value());
            return false;
        }
        i = i + 1;
    }
    true
}

/// The commitments grouped by the points at which they are opened.
fn group_commitments<F: FieldExt>(cmap: &Vec<(usize, Vec<F>)>, bound: usize) -> (r: Vec<(Vec<F>, Vec<usize>)>)
    requires
        forall|j: int| 0 <= j < cmap@.len() ==> (#[trigger] cmap@[j]).0 < bound,
        forall|j: int| 0 <= j < cmap@.len() ==> distinct(values((#[trigger] cmap@[j]).1@)),
    ensures
        groups_view(r@) == group_sets(cmap_view(cmap@)),
        forall|j: int| 0 <= j < r@.len() ==> distinct(values((#[trigger] r@[j]).0@)),
        forall|j: int, k: int| 0 <= j < r@.len() && 0 <= k < r@[j].1@.len() ==> (#[trigger] r@[j].1@[k]) < bound,
{
    let ghost cmv = cmap_view(cmap@);
    let mut r: Vec<(Vec<F>, Vec<usize>)> = Vec::new();
    let mut t: usize = 0;
    while t < cmap.len()
        invariant
            t <= cmap@.len(),
            cmv == cmap_view(cmap@),
            forall|j: int| 0 <= j < cmap@.len() ==> (#[trigger] cmap@[j]).0 < bound,
            forall|j: int| 0 <= j < cmap@.len() ==> distinct(values((#[trigger] cmap@[j]).1@)),
            groups_view(r@) == group_sets(cmv.take(t as int)),
            forall|j: int| 0 <= j < r@.len() ==> distinct(values((#[trigger] r@[j]).0@)),
            forall|j: int, k: int| 0 <= j < r@.len() && 0 <= k < r@[j].1@.len() ==> (#[trigger] r@[j].1@[k]) < bound,
        decreases cmap@.len() - t,
    {
        let ghost g = groups_view(r@);
        let ghost pred = same_as(cmv[t as int].1);
        let qi = cmap[t].0;
        assert(cmv.take(t + 1).drop_last() =~= cmv.take(t as int));
        assert(cmv.take(t + 1).last() == cmv[t as int]);
        let mut j: usize = 0;
        let mut found = false;
        while j < r.len() && !found
            invariant
                j <= r@.len(),
                t < cmap@.len(),
                g == groups_view(r@),
                cmv == cmap_view(cmap@),
                pred == same_as(cmv[t as int].1),
                forall|k: int| 0 <= k < j ==> !pred(#[trigger] g[k]),
                found ==> j < r@.len() && pred(g[j as int]),
            decreases r@.len() - j + (if found { 0int } else { 1int }),
        {
            if same_point_set(&r[j].0, &cmap[t].1) {
                found = true;
            } else {
                j = j + 1;
            }
        }
        if found {
            proof {
                lemma_first_index_found(g, pred, j as int);
            }
            let ghost old_r = r@;
            r[j].1.push(qi);
            proof {
                assert(r@[j as int].1@.map_values(|x: usize| x as int) =~= old_r[j as int].1@.map_values(
                    |x: usize| x as int,
                ).push(qi as int));
                assert(groups_view(r@) =~= g.update(j as int, (g[j as int].0, g[j as int].1.push(qi as int))));
                assert forall|a: int, k: int| 0 <= a < r@.len() && 0 <= k < r@[a].1@.len() implies (
                #[trigger] r@[a].1@[k]) < bound by {
                    if a == j && k == r@[a].1@.len() - 1 {
                    } else if a == j {
                        assert(r@[a].1@[k] == old_r[a].1@[k]);
                    } else {
                        assert(r@[a] == old_r[a]);
                    }
                }
                assert forall|a: int| 0 <= a < r@.len() implies distinct(values((#[trigger] r@[a]).0@)) by {
                    assert(r@[a].0 == old_r[a].0);
                }
            }
        } else {
            proof {
                lemma_first_index_none(g, pred);
            }
            let pts = copy_values(&cmap[t].1);
            let mut qis: Vec<usize> = Vec::new();
            qis.push(qi);
            let ghost old_r = r@;
            r.push((pts, qis));
            proof {
                assert(qis@.map_values(|x: usize| x as int) =~= seq![qi as int]);
                assert(groups_view(r@) =~= g.push((cmv[t as int].1, seq![qi as int])));
                assert forall|a: int, k: int| 0 <= a < r@.len() && 0 <= k < r@[a].1@.len() implies (
                #[trigger] r@[a].1@[k]) < bound by {
                    if a < old_r.len() {
                        assert(r@[a] == old_r[a]);
                    }
                }
            }
        }
        t = t + 1;
    }
    assert(cmv.take(cmap@.len() as int) =~= cmv);
    r
}

/// The evaluation of the first query that opens the commitment `id` at `x`,
/// or zero where none does.
fn eval_at<F: FieldExt, P>(queries: &[VerifierQuery<F, P>], id: usize, x: &F) -> (r: F)
    ensures
        r.value() == first_eval(queries@, id, x.value()),
{
    let ghost pred = opens_at::<F, P>(id, x.value());
    let mut i: usize = 0;
    while i < queries.len()
        invariant
            i <= queries@.len(),
            pred == opens_at::<F, P>(id, x.value()),
            forall|k: int| 0 <= k < i ==> !pred(#[trigger] queries@[k]),
        decreases queries@.len() - i,
    {
        if queries[i].commitment_id == id && queries[i].point.equals(x) {
            proof {
                lemma_first_index_found(queries@, pred, i as int);
            }
            return queries[i].eval;
        }
        i = i + 1;
    }
    proof {
        lemma_first_index_none(queries@, pred);
    }
    let z = F::zero();
    z
}

/// The evaluations of the commitment `id` at each of `points`.
pub open spec fn evals_of<F: FieldExt, P>(qs: Seq<VerifierQuery<F, P>>, id: usize, points: Seq<nat>) -> Seq<nat> {
    points.map_values(|x: nat| first_eval(qs, id, x))
}

/// `r` is the rotation set of the group `g` of the queries `qs`, all of
/// whose points are `sup`.
pub open spec fn rotation_set_of<F: FieldExt, P>(
    qs: Seq<VerifierQuery<F, P>>,
    sup: Seq<nat>,
    g: (Seq<nat>, Seq<int>),
    r: RotationSet<F>,
) -> bool {
    &&& values(r.points@) == g.0
    &&& values(r.diffs@) == without(sup, g.0)
    &&& r.commitments@.len() == g.1.len()
    &&& forall|k: int|
        0 <= k < g.1.len() ==> (#[trigger] r.commitments@[k]).0 == g.1[k] && values(r.commitments@[k].1@)
            == evals_of(qs, qs[g.1[k]].commitment_id, g.0)
}

/// The rotation set of one group.
fn rotation_set<F: FieldExt, P>(
    queries: &[VerifierQuery<F, P>],
    sup: &Vec<F>,
    group: &(Vec<F>, Vec<usize>),
) -> (r: RotationSet<F>)
    requires
        forall|k: int| 0 <= k < group.1@.len() ==> (#[trigger] group.1@[k]) < queries@.len(),
    ensures
        rotation_set_of(
            queries@,
            values(sup@),
            (values(group.0@), group.1@.map_values(|x: usize| x as int)),
            r,
        ),
{
    let points = copy_values(&group.0);
    let ghost ps = values(points@);
    let ghost gi = group.1@.map_values(|x: usize| x as int);
    // The points of all queries that are not in this set.
    let mut diffs: Vec<F> = Vec::new();
    let mut i: usize = 0;
    while i < sup.len()
        invariant
            i <= sup@.len(),
            ps == values(points@),
            values(diffs@) == without(values(sup@).take(i as int), ps),
        decreases sup@.len() - i,
    {
        let x = sup[i];
        let c = contains(&points, &x);
        assert(values(sup@).take(i + 1).drop_last() =~= values(sup@).take(i as int));
        if !c {
            diffs.push(x);
            assert(values(diffs@) =~= values(diffs@.drop_last()).push(x.value()));
        }
        i = i + 1;
    }
    assert(values(sup@).take(sup@.len() as int) =~= values(sup@));
    // Each commitment with its evaluations at the points.
    let mut commitments: Vec<(usize, Vec<F>)> = Vec::new();
    let mut k: usize = 0;
    while k < group.1.len()
        invariant
            k <= group.1@.len(),
            ps == values(points@),
            gi == group.1@.map_values(|x: usize| x as int),
            forall|a: int| 0 <= a < group.1@.len() ==> (#[trigger] group.1@[a]) < queries@.len(),
            commitments@.len() == k,
            forall|a: int|
                0 <= a < k ==> (#[trigger] commitments@[a]).0 == gi[a] && values(commitments@[a].1@)
                    == evals_of(queries@, queries@[gi[a]].commitment_id, ps),
        decreases group.1@.len() - k,
    {
        let qi = group.1[k];
        let id = queries[qi].commitment_id;
        let mut evals: Vec<F> = Vec::new();
        let mut t: usize = 0;
        while t < points.len()
            invariant
                t <= points@.len(),
                ps == values(points@),
                values(evals@) == evals_of(queries@, id, ps).take(t as int),
            decreases points@.len() - t,
        {
            let e = eval_at(queries, id, &points[t]);
            let ghost before = values(evals@);
            evals.push(e);
            assert(ps[t as int] == points@[t as int].value());
            assert(evals_of(queries@, id, ps)[t as int] == first_eval(queries@, id, ps[t as int]));
            assert(values(evals@) =~= before.push(e.value()));
            assert(evals_of(queries@, id, ps).take(t + 1) =~= evals_of(queries@, id, ps).take(t as int).push(
                e.value(),
            ));
            t = t + 1;
        }
        assert(evals_of(queries@, id, ps).take(points@.len() as int) =~= evals_of(queries@, id, ps));
        commitments.push((qi, evals));
        k = k + 1;
    }
    RotationSet { commitments, points, diffs }
}

/// The intermediate sets of the queries `qs`.
pub open spec fn sets_of<F: FieldExt, P>(qs: Seq<VerifierQuery<F, P>>, s: IntermediateSets<F>) -> bool {
    let g = query_groups(qs);
    let sup = dedup(query_points(qs));
    &&& values(s.super_point_set@) == sup
    &&& s.rotation_sets@.len() == g.len()
    &&& forall|i: int| 0 <= i < g.len() ==> rotation_set_of(qs, sup, g[i], #[trigger] s.rotation_sets@[i])
}

/// Groups the queries by commitment, and the commitments by the set of
/// points at which they are opened.
pub fn construct_intermediate_sets<F: FieldExt, P>(queries: &[VerifierQuery<F, P>]) -> (r: IntermediateSets<F>)
    ensures
        sets_of(queries@, r),
        forall|i: int| 0 <= i < r.rotation_sets@.len() ==> distinct(values((#[trigger] r.rotation_sets@[i]).points@)),
        forall|i: int, k: int|
            0 <= i < r.rotation_sets@.len() && 0 <= k < r.rotation_sets@[i].commitments@.len() ==> (
            #[trigger] r.rotation_sets@[i].commitments@[k]).0 < queries@.len(),
{
    let super_point_set = super_points(queries);
    let cmap = commitment_points(queries);
    let groups = group_commitments(&cmap, queries.len());
    let ghost g = groups_view(groups@);
    let mut rotation_sets: Vec<RotationSet<F>> = Vec::new();
    let mut i: usize = 0;
    while i < groups.len()
        invariant
            i <= groups@.len(),
            g == groups_view(groups@),
            g == query_groups(queries@),
            values(super_point_set@) == dedup(query_points(queries@)),
            forall|j: int| 0 <= j < groups@.len() ==> distinct(values((#[trigger] groups@[j]).0@)),
            forall|j: int, k: int|
                0 <= j < groups@.len() && 0 <= k < groups@[j].1@.len() ==> (#[trigger] groups@[j].1@[k])
                    < queries@.len(),
            rotation_sets@.len() == i,
            forall|j: int|
                0 <= j < i ==> rotation_set_of(
                    queries@,
                    values(super_point_set@),
                    g[j],
                    #[trigger] rotation_sets@[j],
                ),
            forall|j: int| 0 <= j < i ==> distinct(values((#[trigger] rotation_sets@[j]).points@)),
            forall|j: int, k: int|
                0 <= j < i && 0 <= k < rotation_sets@[j].commitments@.len() ==> (
                #[trigger] rotation_sets@[j].commitments@[k]).0 < queries@.len(),
        decreases groups@.len() - i,
    {
        assert forall|k: int| 0 <= k < groups@[i as int].1@.len() implies (#[trigger] groups@[i as int].1@[k])
            < queries@.len() by {}
        let rs = rotation_set(queries, &super_point_set, &groups[i]);
        assert(g[i as int] == (values(groups@[i as int].0@), groups@[i as int].1@.map_values(|x: usize| x as int)));
        rotation_sets.push(rs);
        proof {
            assert forall|j: int, k: int|
                0 <= j < i + 1 && 0 <= k < rotation_sets@[j].commitments@.len() implies (
                #[trigger] rotation_sets@[j].commitments@[k]).0 < queries@.len() by {
                if j == i {
                    assert(rotation_sets@[j].commitments@[k].0 == g[j].1[k]);
                    assert(g[j].1[k] == groups@[j].1@[k] as int);
                }
            }
        }
        i = i + 1;
    }
    IntermediateSets { rotation_sets, super_point_set }
}

/// The values of `s` without those of `ex` are those in `s` and not in `ex`.
pub proof fn lemma_without_contains(s: Seq<nat>, ex: Seq<nat>, x: nat)
    ensures
        without(s, ex).contains(x) <==> s.contains(x) && !ex.contains(x),
    decreases s.len(),
{
    if s.len() > 0 {
        lemma_without_contains(s.drop_last(), ex, x);
        if s.contains(x) && s.last() != x {
            let k = choose|k: int| 0 <= k < s.len() && s[k] == x;
            assert(s.drop_last()[k] == x);
        }
        if s.drop_last().contains(x) {
            let k = choose|k: int| 0 <= k < s.drop_last().len() && s.drop_last()[k] == x;
            assert(s[k] == x);
        }
        if !ex.contains(s.last()) {
            let w = without(s.drop_last(), ex);
            if w.contains(x) {
                let k = choose|k: int| 0 <= k < w.len() && w[k] == x;
                assert(w.push(s.last())[k] == x);
            }
            if w.push(s.last()).contains(x) && s.last() != x {
                let k = choose|k: int| 0 <= k < w.len() + 1 && w.push(s.last())[k] == x;
                assert(w[k] == x);
            }
            assert(w.push(s.last())[w.len() as int] == s.last());
        }
    }
}

/// Each point of the queries lies either among the points of a rotation set or
/// among its other points, and not in both.
pub proof fn lemma_rotation_set_partition<F: FieldExt, P>(qs: Seq<VerifierQuery<F, P>>, g: (Seq<nat>, Seq<int>), x: nat)
    requires
        dedup(query_points(qs)).contains(x),
    ensures
        g.0.contains(x) != without(dedup(query_points(qs)), g.0).contains(x),
{
    lemma_without_contains(dedup(query_points(qs)), g.0, x);
}

/// `without(s, ex)` depends only on which values of `s` the list `ex` holds.
proof fn lemma_without_agree(s: Seq<nat>, ex1: Seq<nat>, ex2: Seq<nat>)
    requires
        forall|i: int| 0 <= i < s.len() ==> (ex1.contains(#[trigger] s[i]) <==> ex2.contains(s[i])),
    ensures
        without(s, ex1) == without(s, ex2),
    decreases s.len(),
{
    if s.len() > 0 {
        let rest = s.drop_last();
        assert forall|i: int| 0 <= i < rest.len() implies (ex1.contains(#[trigger] rest[i]) <==> ex2.contains(
            rest[i],
        )) by {
            assert(rest[i] == s[i]);
        }
        lemma_without_agree(rest, ex1, ex2);
        assert(ex1.contains(s[s.len() - 1]) <==> ex2.contains(s[s.len() - 1]));
    }
}

/// The vanishing polynomial of the distinct values `sup` is that of the
/// distinct values `g` among them times that of the other values of `sup`.
pub proof fn lemma_vanishing_split(sup: Seq<nat>, g: Seq<nat>, z: nat, m: nat)
    requires
        m > 1,
        distinct(sup),
        distinct(g),
        forall|i: int| 0 <= i < g.len() ==> sup.contains(#[trigger] g[i]),
    ensures
        vanishing_eval(sup, z, m) == (vanishing_eval(g, z, m) * vanishing_eval(without(sup, g), z, m)) % m,
    decreases sup.len(),
{
    lemma_small_mod(1, m);
    if sup.len() == 0 {
        if g.len() > 0 {
            assert(sup.contains(g[0]));
        }
        assert(without(sup, g) == sup);
        assert(g.len() == 0);
        assert(vanishing_eval(g, z, m) == 1);
        assert(vanishing_eval(sup, z, m) == 1);
        assert(vanishing_eval(without(sup, g), z, m) == 1);
        assert(1nat * 1nat == 1nat);
        assert(vanishing_eval(sup, z, m) == (vanishing_eval(g, z, m) * vanishing_eval(without(sup, g), z, m)) % m);
    } else {
        let rest = sup.drop_last();
        let x = sup.last();
        let a = sub_mod(z, x, m);
        assert(distinct(rest));
        if g.contains(x) {
            let k = choose|k: int| 0 <= k < g.len() && g[k] == x;
            let g2 = g.remove(k);
            assert forall|i: int| 0 <= i < g2.len() implies rest.contains(#[trigger] g2[i]) by {
                let gi = if i < k { i } else { i + 1 };
                assert(g2[i] == g[gi]);
                assert(sup.contains(g[gi]));
                let j = choose|j: int| 0 <= j < sup.len() && sup[j] == g2[i];
                assert(j != sup.len() - 1);
                assert(rest[j] == g2[i]);
            }
            assert(distinct(g2)) by {
                assert forall|i: int, j: int| 0 <= i < g2.len() && 0 <= j < g2.len() && i != j implies g2[i]
                    != g2[j] by {
                    let gi = if i < k { i } else { i + 1 };
                    let gj = if j < k { j } else { j + 1 };
                    assert(g2[i] == g[gi]);
                    assert(g2[j] == g[gj]);
                }
            }
            lemma_vanishing_split(rest, g2, z, m);
            lemma_vanishing_remove(g, k, z, m);
            assert forall|i: int| 0 <= i < rest.len() implies (g.contains(#[trigger] rest[i]) <==> g2.contains(
                rest[i],
            )) by {
                assert(rest[i] == sup[i]);
                assert(rest[i] != x);
                if g.contains(rest[i]) {
                    let t = choose|t: int| 0 <= t < g.len() && g[t] == rest[i];
                    assert(t != k);
                    let t2 = if t < k { t } else { t - 1 };
                    assert(g2[t2] == rest[i]);
                }
                if g2.contains(rest[i]) {
                    let t = choose|t: int| 0 <= t < g2.len() && g2[t] == rest[i];
                    let gt = if t < k { t } else { t + 1 };
                    assert(g[gt] == rest[i]);
                }
            }
            lemma_without_agree(rest, g, g2);
            assert(without(sup, g) == without(rest, g));
            let vg2 = vanishing_eval(g2, z, m);
            let w = vanishing_eval(without(rest, g2), z, m);
            // a * ((vg2 * w) % m) and ((a * vg2) % m) * w agree modulo m.
            vstd::arithmetic::div_mod::lemma_mul_mod_noop_right(a as int, (vg2 * w) as int, m as int);
            vstd::arithmetic::div_mod::lemma_mul_mod_noop_left((a * vg2) as int, w as int, m as int);
            assert(a * (vg2 * w) == (a * vg2) * w) by (nonlinear_arith);
            assert(vanishing_eval(sup, z, m) == (a * vanishing_eval(rest, z, m)) % m);
            assert(vanishing_eval(g, z, m) == (a * vg2) % m);
            assert(vanishing_eval(sup, z, m) == (vanishing_eval(g, z, m) * vanishing_eval(without(sup, g), z, m)) % m);
        } else {
            assert forall|i: int| 0 <= i < g.len() implies rest.contains(#[trigger] g[i]) by {
                assert(sup.contains(g[i]));
                let j = choose|j: int| 0 <= j < sup.len() && sup[j] == g[i];
                assert(j != sup.len() - 1);
                assert(rest[j] == g[i]);
            }
            lemma_vanishing_split(rest, g, z, m);
            let w = without(rest, g);
            assert(without(sup, g) == w.push(x));
            assert(w.push(x).drop_last() =~= w);
            let vg = vanishing_eval(g, z, m);
            let vw = vanishing_eval(w, z, m);
            assert(vanishing_eval(w.push(x), z, m) == (a * vw) % m);
            vstd::arithmetic::div_mod::lemma_mul_mod_noop_right(a as int, (vg * vw) as int, m as int);
            vstd::arithmetic::div_mod::lemma_mul_mod_noop_right(vg as int, (a * vw) as int, m as int);
            assert(a * (vg * vw) == vg * (a * vw)) by (nonlinear_arith);
            assert(vanishing_eval(sup, z, m) == (a * vanishing_eval(rest, z, m)) % m);
            assert(vanishing_eval(sup, z, m) == (vanishing_eval(g, z, m) * vanishing_eval(without(sup, g), z, m)) % m);
        }
    }
}

/// `s` holds `x` exactly where `x` is its last value or its other values hold it.
proof fn lemma_contains_last(s: Seq<nat>, x: nat)
    requires
        s.len() > 0,
    ensures
        s.contains(x) <==> (s.drop_last().contains(x) || s.last() == x),
{
    if s.contains(x) && s.last() != x {
        let k = choose|k: int| 0 <= k < s.len() && s[k] == x;
        assert(s.drop_last()[k] == x);
    }
    if s.drop_last().contains(x) {
        let k = choose|k: int| 0 <= k < s.drop_last().len() && s.drop_last()[k] == x;
        assert(s[k] == x);
    }
    if s.last() == x {
        assert(s[s.len() - 1] == x);
    }
}

/// `dedup(s)` holds each value of `s` once, and no other.
proof fn lemma_dedup(s: Seq<nat>)
    ensures
        distinct(dedup(s)),
        forall|x: nat| #[trigger] dedup(s).contains(x) <==> s.contains(x),
    decreases s.len(),
{
    if s.len() > 0 {
        let rest = s.drop_last();
        lemma_dedup(rest);
        let d = dedup(rest);
        assert forall|x: nat| #[trigger] dedup(s).contains(x) <==> s.contains(x) by {
            lemma_contains_last(s, x);
            if !d.contains(s.last()) {
                lemma_contains_last(d.push(s.last()), x);
                assert(d.push(s.last()).drop_last() =~= d);
            }
        }
        if !d.contains(s.last()) {
            let e = d.push(s.last());
            assert forall|i: int, j: int| 0 <= i < e.len() && 0 <= j < e.len() && i != j implies e[i] != e[j] by {
                if i == d.len() {
                    assert(e[j] == d[j]);
                } else if j == d.len() {
                    assert(e[i] == d[i]);
                } else {
                    assert(e[i] == d[i] && e[j] == d[j]);
                }
            }
        }
    }
}

/// The points of each entry of the commitment map are points of the queries.
proof fn lemma_commitment_map_points<F: FieldExt, P>(qs: Seq<VerifierQuery<F, P>>, n: nat)
    requires
        n <= qs.len(),
    ensures
        forall|j: int, a: int|
            0 <= j < commitment_map(qs, n).len() && 0 <= a < commitment_map(qs, n)[j].1.len()
                ==> query_points(qs).contains(#[trigger] commitment_map(qs, n)[j].1[a]),
    decreases n,
{
    if n > 0 {
        let k = (n - 1) as nat;
        lemma_commitment_map_points(qs, k);
        let cm = commitment_map(qs, k);
        let x = qs[k as int].point.value();
        assert(query_points(qs)[k as int] == x);
        let cm2 = commitment_map(qs, n);
        let q = qs[k as int];
        assert forall|j: int, a: int| 0 <= j < cm2.len() && 0 <= a < cm2[j].1.len() implies query_points(
            qs,
        ).contains(#[trigger] cm2[j].1[a]) by {
            match first_index(cm, opens(qs, q.commitment_id)) {
                Some(f) => {
                    lemma_first_index_some(cm, opens(qs, q.commitment_id));
                    if cm[f].1.contains(x) || j != f {
                        assert(cm2[j] == cm[j]);
                    } else if a < cm[j].1.len() {
                        assert(cm2[j].1 == cm[j].1.push(x));
                        assert(cm2[j].1[a] == cm[j].1[a]);
                    } else {
                        assert(cm2[j].1 == cm[j].1.push(x));
                        assert(cm2[j].1[a] == x);
                    }
                },
                None => {
                    assert(cm2 == cm.push((k as int, seq![x])));
                    if j < cm.len() {
                        assert(cm2[j] == cm[j]);
                    } else {
                        assert(cm2[j].1[a] == x);
                    }
                },
            }
        }
    }
}

/// The points of each group are points of an entry of the commitment map.
proof fn lemma_group_sets_points(cm: Seq<(int, Seq<nat>)>, pts: Seq<nat>)
    requires
        forall|t: int, a: int| 0 <= t < cm.len() && 0 <= a < cm[t].1.len() ==> pts.contains(#[trigger] cm[t].1[a]),
    ensures
        forall|j: int, a: int|
            0 <= j < group_sets(cm).len() && 0 <= a < group_sets(cm)[j].0.len() ==> pts.contains(
                #[trigger] group_sets(cm)[j].0[a],
            ),
    decreases cm.len(),
{
    if cm.len() > 0 {
        let rest = cm.drop_last();
        assert forall|t: int, a: int| 0 <= t < rest.len() && 0 <= a < rest[t].1.len() implies pts.contains(
            #[trigger] rest[t].1[a],
        ) by {
            assert(rest[t] == cm[t]);
        }
        lemma_group_sets_points(rest, pts);
        let g = group_sets(rest);
        let e = cm.last();
        let g2 = group_sets(cm);
        assert forall|j: int, a: int| 0 <= j < g2.len() && 0 <= a < g2[j].0.len() implies pts.contains(
            #[trigger] g2[j].0[a],
        ) by {
            match first_index(g, same_as(e.1)) {
                Some(f) => {
                    lemma_first_index_some(g, same_as(e.1));
                    assert(g2[j].0 == g[j].0);
                },
                None => {
                    if j < g.len() {
                        assert(g2[j] == g[j]);
                    } else {
                        assert(g2[j].0[a] == cm[cm.len() - 1].1[a]);
                    }
                },
            }
        }
    }
}

/// In each rotation set of the queries, the vanishing polynomial of all the
/// points of the queries is that of the points of the set times that of its
/// other points: `Z_T(z) = Z_S(z) * Z_{T \ S}(z)`.
pub proof fn lemma_rotation_set_vanishing<F: FieldExt, P>(
    qs: Seq<VerifierQuery<F, P>>,
    sets: IntermediateSets<F>,
    i: int,
    z: nat,
)
    requires
        sets_of(qs, sets),
        0 <= i < sets.rotation_sets@.len(),
    ensures
        vanishing_eval(values(sets.super_point_set@), z, F::modulus()) == (vanishing_eval(
            values(sets.rotation_sets@[i].points@),
            z,
            F::modulus(),
        ) * vanishing_eval(values(sets.rotation_sets@[i].diffs@), z, F::modulus())) % F::modulus(),
{
    let m = F::modulus();
    F::lemma_value_bound(vstd::pervasive::arbitrary());
    let sup = dedup(query_points(qs));
    let cm = commitment_map(qs, qs.len());
    let g = query_groups(qs);
    assert(rotation_set_of(qs, sup, g[i], sets.rotation_sets@[i]));
    lemma_dedup(query_points(qs));
    lemma_commitment_map_covers(qs, qs.len());
    lemma_group_sets_cover(cm);
    lemma_commitment_map_points(qs, qs.len());
    lemma_group_sets_points(cm, query_points(qs));
    assert(distinct(g[i].0));
    assert forall|a: int| 0 <= a < g[i].0.len() implies sup.contains(#[trigger] g[i].0[a]) by {
        assert(query_points(qs).contains(g[i].0[a]));
    }
    lemma_vanishing_split(sup, g[i].0, z, m);
}

/// `same_points` is symmetric on sequences without repeated values.
proof fn lemma_same_points_symmetric(a: Seq<nat>, b: Seq<nat>)
    requires
        distinct(a),
        distinct(b),
        same_points(a, b),
    ensures
        forall|i: int| 0 <= i < b.len() ==> a.contains(#[trigger] b[i]),
{
    assert(a.no_duplicates());
    assert(b.no_duplicates());
    a.unique_seq_to_set();
    b.unique_seq_to_set();
    vstd::seq_lib::seq_to_set_is_finite(a);
    vstd::seq_lib::seq_to_set_is_finite(b);
    assert(a.to_set().subset_of(b.to_set())) by {
        assert forall|x: nat| a.to_set().contains(x) implies b.to_set().contains(x) by {
            let i = choose|i: int| 0 <= i < a.len() && a[i] == x;
            assert(b.contains(a[i]));
        }
    }
    vstd::set_lib::lemma_subset_equality(a.to_set(), b.to_set());
    assert forall|i: int| 0 <= i < b.len() implies a.contains(#[trigger] b[i]) by {
        assert(b.to_set().contains(b[i]));
        assert(a.to_set().contains(b[i]));
    }
}

/// An entry of the commitment map of the commitment of query `i` holds its
/// point.
pub open spec fn covers<F: FieldExt, P>(qs: Seq<VerifierQuery<F, P>>, cm: Seq<(int, Seq<nat>)>, i: int) -> bool {
    exists|j: int|
        0 <= j < cm.len() && qs[(#[trigger] cm[j]).0].commitment_id == qs[i].commitment_id && cm[j].1.contains(
            qs[i].point.value(),
        )
}

/// Each of the first `n` queries is covered by the commitment map, and the
/// points of each entry are distinct.
proof fn lemma_commitment_map_covers<F: FieldExt, P>(qs: Seq<VerifierQuery<F, P>>, n: nat)
    requires
        n <= qs.len(),
    ensures
        forall|i: int| 0 <= i < n ==> #[trigger] covers(qs, commitment_map(qs, n), i),
        forall|j: int|
            0 <= j < commitment_map(qs, n).len() ==> distinct((#[trigger] commitment_map(qs, n)[j]).1),
    decreases n,
{
    if n > 0 {
        let k = (n - 1) as nat;
        lemma_commitment_map_covers(qs, k);
        let cm = commitment_map(qs, k);
        let q = qs[k as int];
        let x = q.point.value();
        let cm2 = commitment_map(qs, n);
        match first_index(cm, opens(qs, q.commitment_id)) {
            Some(j) => {
                lemma_first_index_some(cm, opens(qs, q.commitment_id));
                assert forall|i: int| 0 <= i < n implies #[trigger] covers(qs, cm2, i) by {
                    if i == k {
                        if cm[j].1.contains(x) {
                            assert(cm2[j] == cm[j]);
                        } else {
                            assert(cm2[j].1 == cm[j].1.push(x));
                            assert(cm2[j].1[cm[j].1.len() as int] == x);
                        }
                    } else {
                        assert(covers(qs, cm, i));
                        let t = choose|t: int|
                            0 <= t < cm.len() && qs[(#[trigger] cm[t]).0].commitment_id == qs[i].commitment_id
                                && cm[t].1.contains(qs[i].point.value());
                        let y = qs[i].point.value();
                        let a = choose|a: int| 0 <= a < cm[t].1.len() && cm[t].1[a] == y;
                        if cm[j].1.contains(x) || t != j {
                            assert(cm2[t] == cm[t]);
                        } else {
                            assert(cm2[t].1 == cm[t].1.push(x));
                            assert(cm2[t].1[a] == y);
                        }
                    }
                }
                assert forall|t: int| 0 <= t < cm2.len() implies distinct((#[trigger] cm2[t]).1) by {
                    if t == j && !cm[j].1.contains(x) {
                        assert(cm2[t].1 == cm[t].1.push(x));
                        assert(distinct(cm[t].1));
                    } else {
                        assert(cm2[t] == cm[t]);
                    }
                }
            },
            None => {
                assert(cm2 == cm.push((k as int, seq![x])));
                assert forall|i: int| 0 <= i < n implies #[trigger] covers(qs, cm2, i) by {
                    if i == k {
                        assert(cm2[cm.len() as int].1[0] == x);
                    } else {
                        assert(covers(qs, cm, i));
                        let t = choose|t: int|
                            0 <= t < cm.len() && qs[(#[trigger] cm[t]).0].commitment_id == qs[i].commitment_id
                                && cm[t].1.contains(qs[i].point.value());
                        assert(cm2[t] == cm[t]);
                    }
                }
                assert forall|t: int| 0 <= t < cm2.len() implies distinct((#[trigger] cm2[t]).1) by {
                    if t < cm.len() {
                        assert(cm2[t] == cm[t]);
                    }
                }
            },
        }
    }
}

/// The index that `first_index` finds holds an element that satisfies `p`.
pub proof fn lemma_first_index_some<A>(s: Seq<A>, p: spec_fn(A) -> bool)
    ensures
        first_index(s, p) matches Some(j) ==> 0 <= j < s.len() && p(s[j]),
    decreases s.len(),
{
    if s.len() > 0 {
        lemma_first_index_some(s.drop_last(), p);
    }
}

/// A group holds the first query of the entry `e`, and the points of `e`.
pub open spec fn grouped(g: Seq<(Seq<nat>, Seq<int>)>, e: (int, Seq<nat>)) -> bool {
    exists|j: int, k: int|
        0 <= j < g.len() && 0 <= k < g[j].1.len() && (#[trigger] g[j].1[k]) == e.0 && same_points(g[j].0, e.1)
}

/// Each entry of the commitment map is in a group with its points, and the
/// points of each group are distinct.
proof fn lemma_group_sets_cover(cm: Seq<(int, Seq<nat>)>)
    requires
        forall|t: int| 0 <= t < cm.len() ==> distinct((#[trigger] cm[t]).1),
    ensures
        forall|t: int| 0 <= t < cm.len() ==> grouped(group_sets(cm), #[trigger] cm[t]),
        forall|j: int| 0 <= j < group_sets(cm).len() ==> distinct((#[trigger] group_sets(cm)[j]).0),
    decreases cm.len(),
{
    if cm.len() > 0 {
        let rest = cm.drop_last();
        assert forall|t: int| 0 <= t < rest.len() implies distinct((#[trigger] rest[t]).1) by {
            assert(rest[t] == cm[t]);
        }
        lemma_group_sets_cover(rest);
        let g = group_sets(rest);
        let e = cm.last();
        let g2 = group_sets(cm);
        match first_index(g, same_as(e.1)) {
            Some(f) => {
                lemma_first_index_some(g, same_as(e.1));
                assert(g2 == g.update(f, (g[f].0, g[f].1.push(e.0))));
                assert forall|t: int| 0 <= t < cm.len() implies grouped(g2, #[trigger] cm[t]) by {
                    if t == cm.len() - 1 {
                        assert(g2[f].1[g[f].1.len() as int] == e.0);
                    } else {
                        assert(rest[t] == cm[t]);
                        assert(grouped(g, rest[t]));
                        let (j, k) = choose|j: int, k: int|
                            0 <= j < g.len() && 0 <= k < g[j].1.len() && (#[trigger] g[j].1[k]) == rest[t].0
                                && same_points(g[j].0, rest[t].1);
                        assert(g2[j].1[k] == g[j].1[k]);
                    }
                }
                assert forall|j: int| 0 <= j < g2.len() implies distinct((#[trigger] g2[j]).0) by {
                    assert(g2[j].0 == g[j].0);
                }
            },
            None => {
                assert(g2 == g.push((e.1, seq![e.0])));
                assert forall|t: int| 0 <= t < cm.len() implies grouped(g2, #[trigger] cm[t]) by {
                    if t == cm.len() - 1 {
                        assert(g2[g.len() as int].1[0] == e.0);
                        assert forall|a: int| 0 <= a < e.1.len() implies e.1.contains(#[trigger] e.1[a]) by {}
                    } else {
                        assert(rest[t] == cm[t]);
                        assert(grouped(g, rest[t]));
                        let (j, k) = choose|j: int, k: int|
                            0 <= j < g.len() && 0 <= k < g[j].1.len() && (#[trigger] g[j].1[k]) == rest[t].0
                                && same_points(g[j].0, rest[t].1);
                        assert(g2[j] == g[j]);
                    }
                }
                assert forall|j: int| 0 <= j < g2.len() implies distinct((#[trigger] g2[j]).0) by {
                    if j < g.len() {
                        assert(g2[j] == g[j]);
                    }
                }
            },
        }
    }
}

/// Every query is opened in the rotation set of its commitment: some rotation
/// set holds a commitment whose first query opens the same commitment, and
/// holds the point of the query among its points.
pub proof fn lemma_query_covered<F: FieldExt, P>(qs: Seq<VerifierQuery<F, P>>, i: int)
    requires
        0 <= i < qs.len(),
    ensures
        exists|j: int, k: int|
            0 <= j < query_groups(qs).len() && 0 <= k < query_groups(qs)[j].1.len() && qs[(
            #[trigger] query_groups(qs)[j].1[k])].commitment_id == qs[i].commitment_id && query_groups(
                qs,
            )[j].0.contains(qs[i].point.value()),
{
    let cm = commitment_map(qs, qs.len());
    lemma_commitment_map_covers(qs, qs.len());
    lemma_group_sets_cover(cm);
    let g = group_sets(cm);
    assert(covers(qs, cm, i));
    let t = choose|t: int|
        0 <= t < cm.len() && qs[(#[trigger] cm[t]).0].commitment_id == qs[i].commitment_id && cm[t].1.contains(
            qs[i].point.value(),
        );
    assert(grouped(g, cm[t]));
    let (j, k) = choose|j: int, k: int|
        0 <= j < g.len() && 0 <= k < g[j].1.len() && (#[trigger] g[j].1[k]) == cm[t].0 && same_points(g[j].0, cm[t].1);
    lemma_same_points_symmetric(g[j].0, cm[t].1);
    let a = choose|a: int| 0 <= a < cm[t].1.len() && cm[t].1[a] == qs[i].point.value();
    assert(g[j].0.contains(cm[t].1[a]));
    assert(query_groups(qs) == g);
    assert(qs[query_groups(qs)[j].1[k]].commitment_id == qs[i].commitment_id);
    assert(query_groups(qs)[j].0.contains(qs[i].point.value()));
}

} // verus!
