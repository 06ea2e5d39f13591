//! The initial subregion of the SHA-256 compression function of the Table16
//! chip: the assignment of the initial eight state words.
//!
//! A [`Region`] records the cells assigned in it. Each state word is assigned
//! in two 16-bit halves, each with its spread form (its bits interleaved with
//! zeros); words `A, B, C` are further decomposed into (2, 11, 3, 3, 3, 10)-bit
//! chunks and words `E, F, G` into (3, 3, 2, 3, 14, 7)-bit chunks, each with
//! its spread form.

use vstd::prelude::*;

verus! {

/// Why an assignment failed.
#[derive(Clone, Copy, Debug, PartialEq, Eq)]
pub enum Error {
    /// A row lies beyond the usable rows of the circuit.
    NotEnoughRowsAvailable,
}

/// A cell of a column, with the value assigned to it where known.
#[derive(Clone, Copy, Debug, PartialEq, Eq)]
pub struct AssignedCell<V> {
    pub column: usize,
    pub row: usize,
    pub value: Option<V>,
}

/// A region of the circuit, from row `offset` on, with the cells assigned
/// and the selectors enabled in it, in order.
pub struct Region {
    pub offset: usize,
    pub usable_rows: usize,
    pub cells: Vec<(usize, usize, Option<u64>)>,
    pub selectors: Vec<(usize, usize)>,
}

/// Row `row` of the region lies within the usable rows.
pub open spec fn row_fits(region: &Region, row: usize) -> bool {
    region.offset + row < region.usable_rows
}

impl Region {
    /// A region of no cells from row `offset` on.
    pub fn new(offset: usize, usable_rows: usize) -> (r: Region)
        ensures
            r.offset == offset,
            r.usable_rows == usable_rows,
            r.cells@ == Seq::<(usize, usize, Option<u64>)>::empty(),
            r.selectors@ == Seq::<(usize, usize)>::empty(),
    {
        Region { offset, usable_rows, cells: Vec::new(), selectors: Vec::new() }
    }

    fn check_row(&self, row: usize) -> (r: Result<(), Error>)
        ensures
            r is Ok <==> row_fits(self, row),
    {
        if row < self.usable_rows && self.offset < self.usable_rows - row {
            Ok(())
        } else {
            Err(Error::NotEnoughRowsAvailable)
        }
    }

    /// Assigns `value` to the cell of `column` at `row`.
    pub fn assign_advice(&mut self, column: usize, row: usize, value: Option<u64>) -> (r: Result<(), Error>)
        ensures
            r is Ok <==> row_fits(old(self), row),
            r is Ok ==> final(self).cells@ == old(self).cells@.push((column, row, value)),
            r is Err ==> final(self).cells@ == old(self).cells@,
            final(self).selectors@ == old(self).selectors@,
            final(self).offset == old(self).offset,
            final(self).usable_rows == old(self).usable_rows,
            runs(old(self), final(self), seq![RegionOp::Assign(column, row, value)]),
    {
        proof {
            reveal(runs);
            reveal(completes);
            let ops = seq![RegionOp::Assign(column, row, value)];
            lemma_runs_single(self, ops[0]);
            assert(ops.take(1) =~= ops);
            assert(ops.take(0) =~= Seq::<RegionOp>::empty());
            assert(op_cells(ops.take(0)) =~= Seq::empty());
            assert(op_selectors(ops.take(0)) =~= Seq::empty());
            assert(ops.drop_last() =~= Seq::<RegionOp>::empty());
            assert(op_cells(ops) =~= seq![(column, row, value)]);
            assert(op_selectors(ops) =~= Seq::empty());
            assert(self.cells@ + Seq::empty() =~= self.cells@);
            assert(self.selectors@ + Seq::empty() =~= self.selectors@);
        }
        self.check_row(row)?;
        self.cells.push((column, row, value));
        Ok(())
    }

    /// Enables `selector` at `row`.
    pub fn enable_selector(&mut self, selector: usize, row: usize) -> (r: Result<(), Error>)
        ensures
            r is Ok <==> row_fits(old(self), row),
            r is Ok ==> final(self).selectors@ == old(self).selectors@.push((selector, row)),
            r is Err ==> final(self).selectors@ == old(self).selectors@,
            final(self).cells@ == old(self).cells@,
            final(self).offset == old(self).offset,
            final(self).usable_rows == old(self).usable_rows,
            runs(old(self), final(self), seq![RegionOp::Enable(selector, row)]),
    {
        proof {
            reveal(runs);
            reveal(completes);
            let ops = seq![RegionOp::Enable(selector, row)];
            lemma_runs_single(self, ops[0]);
            assert(ops.take(1) =~= ops);
            assert(ops.take(0) =~= Seq::<RegionOp>::empty());
            assert(op_cells(ops.take(0)) =~= Seq::empty());
            assert(op_selectors(ops.take(0)) =~= Seq::empty());
            assert(ops.drop_last() =~= Seq::<RegionOp>::empty());
            assert(op_selectors(ops) =~= seq![(selector, row)]);
            assert(op_cells(ops) =~= Seq::empty());
            assert(self.cells@ + Seq::empty() =~= self.cells@);
            assert(self.selectors@ + Seq::empty() =~= self.selectors@);
        }
        self.check_row(row)?;
        self.selectors.push((selector, row));
        Ok(())
    }
}

/// An operation on a region: the assignment of a cell, or the enabling of a
/// selector, each at a row.
pub enum RegionOp {
    Assign(usize, usize, Option<u64>),
    Enable(usize, usize),
}

/// The row of an operation.
pub open spec fn op_row(op: RegionOp) -> usize {
    match op {
        RegionOp::Assign(_, row, _) => row,
        RegionOp::Enable(_, row) => row,
    }
}

/// The number of leading operations of `ops` whose rows lie within the
/// usable rows: the operations that run before the first that fails.
pub open spec fn fit_len(offset: usize, usable: usize, ops: Seq<RegionOp>) -> nat
    decreases ops.len(),
{
    if ops.len() == 0 {
        0
    } else {
        let k = fit_len(offset, usable, ops.drop_last());
        if k == ops.len() - 1 && offset + op_row(ops.last()) < usable {
            ops.len()
        } else {
            k
        }
    }
}

/// The cells that `ops` assign, in order.
pub open spec fn op_cells(ops: Seq<RegionOp>) -> Seq<(usize, usize, Option<u64>)>
    decreases ops.len(),
{
    if ops.len() == 0 {
        Seq::empty()
    } else {
        match ops.last() {
            RegionOp::Assign(column, row, value) => op_cells(ops.drop_last()).push((column, row, value)),
            RegionOp::Enable(_, _) => op_cells(ops.drop_last()),
        }
    }
}

/// The selectors that `ops` enable, in order.
pub open spec fn op_selectors(ops: Seq<RegionOp>) -> Seq<(usize, usize)>
    decreases ops.len(),
{
    if ops.len() == 0 {
        Seq::empty()
    } else {
        match ops.last() {
            RegionOp::Assign(_, _, _) => op_selectors(ops.drop_last()),
            RegionOp::Enable(selector, row) => op_selectors(ops.drop_last()).push((selector, row)),
        }
    }
}

/// Running `ops` on region `a` gives region `b`: the operations run in order
/// up to the first whose row lies beyond the usable rows, which fails and
/// stops the run.
#[verifier::opaque]
pub open spec fn runs(a: &Region, b: &Region, ops: Seq<RegionOp>) -> bool {
    let k = fit_len(a.offset, a.usable_rows, ops);
    &&& b.offset == a.offset
    &&& b.usable_rows == a.usable_rows
    &&& b.cells@ == a.cells@ + op_cells(ops.take(k as int))
    &&& b.selectors@ == a.selectors@ + op_selectors(ops.take(k as int))
}

/// Every operation of `ops` succeeds on region `a`.
#[verifier::opaque]
pub open spec fn completes(a: &Region, ops: Seq<RegionOp>) -> bool {
    fit_len(a.offset, a.usable_rows, ops) == ops.len()
}

proof fn lemma_fit_len_bound(offset: usize, usable: usize, ops: Seq<RegionOp>)
    ensures
        fit_len(offset, usable, ops) <= ops.len(),
    decreases ops.len(),
{
    if ops.len() > 0 {
        lemma_fit_len_bound(offset, usable, ops.drop_last());
    }
}

/// Operations after one that fails do not run.
proof fn lemma_fit_len_append(offset: usize, usable: usize, a: Seq<RegionOp>, b: Seq<RegionOp>)
    ensures
        fit_len(offset, usable, a + b) == if fit_len(offset, usable, a) < a.len() {
            fit_len(offset, usable, a)
        } else {
            a.len() + fit_len(offset, usable, b)
        },
    decreases b.len(),
{
    lemma_fit_len_bound(offset, usable, a);
    if b.len() == 0 {
        assert(a + b =~= a);
    } else {
        lemma_fit_len_append(offset, usable, a, b.drop_last());
        lemma_fit_len_bound(offset, usable, b.drop_last());
        assert((a + b).drop_last() =~= a + b.drop_last());
        assert((a + b).last() == b.last());
    }
}

proof fn lemma_op_lists_append(a: Seq<RegionOp>, b: Seq<RegionOp>)
    ensures
        op_cells(a + b) == op_cells(a) + op_cells(b),
        op_selectors(a + b) == op_selectors(a) + op_selectors(b),
    decreases b.len(),
{
    if b.len() == 0 {
        assert(a + b =~= a);
        assert(op_cells(a) + op_cells(b) =~= op_cells(a));
        assert(op_selectors(a) + op_selectors(b) =~= op_selectors(a));
    } else {
        lemma_op_lists_append(a, b.drop_last());
        assert((a + b).drop_last() =~= a + b.drop_last());
        assert((a + b).last() == b.last());
        match b.last() {
            RegionOp::Assign(c, r, v) => {
                assert(op_cells(a) + op_cells(b.drop_last()).push((c, r, v)) =~= (op_cells(a) + op_cells(
                    b.drop_last(),
                )).push((c, r, v)));
            },
            RegionOp::Enable(sel, r) => {
                assert(op_selectors(a) + op_selectors(b.drop_last()).push((sel, r)) =~= (op_selectors(a)
                    + op_selectors(b.drop_last())).push((sel, r)));
            },
        }
    }
}

/// Runs of the same operations from one region leave the same region: the
/// cells assigned and the selectors enabled, on success and on failure alike.
pub proof fn lemma_runs_deterministic(a: &Region, b1: &Region, b2: &Region, ops: Seq<RegionOp>)
    requires
        runs(a, b1, ops),
        runs(a, b2, ops),
    ensures
        b1.offset == b2.offset,
        b1.usable_rows == b2.usable_rows,
        b1.cells@ == b2.cells@,
        b1.selectors@ == b2.selectors@,
{
    reveal(runs);
}

/// A run of no operations leaves the region as it is.
proof fn lemma_runs_start(a: &Region)
    ensures
        runs(a, a, Seq::empty()),
        completes(a, Seq::empty()),
{
    reveal(runs);
    reveal(completes);
    let e = Seq::<RegionOp>::empty();
    assert(e.take(0) =~= e);
    assert(a.cells@ + op_cells(e) =~= a.cells@);
    assert(a.selectors@ + op_selectors(e) =~= a.selectors@);
}

/// One operation runs exactly when its row fits.
proof fn lemma_runs_single(a: &Region, op: RegionOp)
    ensures
        completes(a, seq![op]) <==> row_fits(a, op_row(op)),
        fit_len(a.offset, a.usable_rows, seq![op]) == if row_fits(a, op_row(op)) { 1nat } else { 0nat },
{
    reveal(runs);
    reveal(completes);
    let s = seq![op];
    assert(s.drop_last() =~= Seq::<RegionOp>::empty());
    assert(fit_len(a.offset, a.usable_rows, s.drop_last()) == 0);
    assert(s.len() == 1 && s.last() == op);
}

/// A run of `all` from region `r0` that has run its first `n` operations
/// and then runs the next `len` from region `before` to region `after`:
/// either all `n + len` ran, or the whole run stops at `after`.
proof fn lemma_runs_step(
    r0: &Region,
    before: &Region,
    after: &Region,
    all: Seq<RegionOp>,
    n: int,
    len: int,
)
    requires
        0 <= n,
        0 <= len,
        n + len <= all.len(),
        runs(r0, before, all.take(n)),
        completes(r0, all.take(n)),
        runs(before, after, all.subrange(n, n + len)),
    ensures
        runs(r0, after, all.take(n + len)),
        completes(r0, all.take(n + len)) <==> completes(before, all.subrange(n, n + len)),
        !completes(r0, all.take(n + len)) ==> runs(r0, after, all) && !completes(r0, all),
{
    reveal(runs);
    reveal(completes);
    let off = r0.offset;
    let u = r0.usable_rows;
    let a = all.take(n);
    let b = all.subrange(n, n + len);
    let rest = all.subrange(n + len, all.len() as int);
    assert(all.take(n + len) =~= a + b);
    assert(all =~= (a + b) + rest);
    lemma_fit_len_append(off, u, a, b);
    lemma_fit_len_append(off, u, a + b, rest);
    lemma_fit_len_bound(off, u, b);
    let kb = fit_len(off, u, b);
    assert((a + b).take(n + kb) =~= a + b.take(kb as int));
    assert(a.take(n) =~= a);
    lemma_op_lists_append(a, b.take(kb as int));
    assert(after.cells@ =~= r0.cells@ + op_cells((a + b).take(n + kb)));
    assert(after.selectors@ =~= r0.selectors@ + op_selectors((a + b).take(n + kb)));
    if kb < len {
        assert(((a + b) + rest).take(n + kb) =~= (a + b).take(n + kb));
    }
}

/// `4` to the power `n`.
pub open spec fn pow4(n: nat) -> nat
    decreases n,
{
    if n == 0 {
        1
    } else {
        4 * pow4((n - 1) as nat)
    }
}

/// The low `n` bits of `x`, each followed by a zero bit: the bit `i` of `x`
/// becomes the bit `2 i`.
pub open spec fn spread(x: nat, n: nat) -> nat
    decreases n,
{
    if n == 0 {
        0
    } else {
        spread(x / 2, (n - 1) as nat) * 4 + x % 2
    }
}

proof fn lemma_pow4_bound(n: nat)
    requires
        n <= 15,
    ensures
        pow4(n) <= 0x40000000,
    decreases n,
{
    if n > 0 {
        lemma_pow4_bound((n - 1) as nat);
    }
    reveal_with_fuel(pow4, 16);
    assert(pow4(15) == 0x40000000);
    lemma_pow4_monotone(n, 15);
}

proof fn lemma_pow4_monotone(a: nat, b: nat)
    requires
        a <= b,
    ensures
        pow4(a) <= pow4(b),
    decreases b,
{
    if a < b {
        lemma_pow4_monotone(a, (b - 1) as nat);
    }
}

/// The spread form of the low `n` bits of `x`.
pub fn spread_bits(x: u16, n: u32) -> (r: u32)
    requires
        n <= 16,
    ensures
        r == spread(x as nat, n as nat),
        r < pow4(n as nat),
    decreases n,
{
    if n == 0 {
        0
    } else {
        let rest = spread_bits(x / 2, n - 1);
        proof {
            lemma_pow4_bound((n - 1) as nat);
        }
        rest * 4 + (x % 2) as u32
    }
}

/// The bits of `w` from bit `lo` on, as far as `mask` reaches.
pub open spec fn chunk(w: u32, lo: u32, mask: u32) -> u16 {
    ((w >> lo) & mask) as u16
}

/// The low half of `w`.
pub open spec fn lo16(w: u32) -> u16 {
    (w & 0xffff) as u16
}

/// The high half of `w`.
pub open spec fn hi16(w: u32) -> u16 {
    (w >> 16u32) as u16
}

/// The columns of the spread lookup table.
#[derive(Clone, Copy, Debug, PartialEq, Eq)]
pub struct SpreadInputs {
    pub tag: usize,
    pub dense: usize,
    pub spread: usize,
}

/// The columns and selectors of the compression gates.
#[derive(Clone, Copy, Debug, PartialEq, Eq)]
pub struct CompressionConfig {
    pub lookup: SpreadInputs,
    pub message_schedule: usize,
    pub extras: [usize; 6],
    pub s_decompose_abcd: usize,
    pub s_decompose_efgh: usize,
}

/// A chunk of a word, dense and spread.
#[derive(Clone, Copy, Debug, PartialEq, Eq)]
pub struct SpreadVar {
    pub dense: AssignedCell<u16>,
    pub spread: AssignedCell<u32>,
}

/// The dense halves of a word.
#[derive(Clone, Copy, Debug, PartialEq, Eq)]
pub struct RoundWordDense {
    pub lo: AssignedCell<u16>,
    pub hi: AssignedCell<u16>,
}

/// The spread halves of a word.
#[derive(Clone, Copy, Debug, PartialEq, Eq)]
pub struct RoundWordSpread {
    pub lo: AssignedCell<u32>,
    pub hi: AssignedCell<u32>,
}

/// A word in its dense and spread halves.
#[derive(Clone, Copy, Debug, PartialEq, Eq)]
pub struct RoundWord {
    pub dense_halves: RoundWordDense,
    pub spread_halves: RoundWordSpread,
}

/// The (2, 11, 3, 3, 3, 10)-bit chunks of a word `A`, `B`, `C` or `D`.
#[derive(Clone, Copy, Debug, PartialEq, Eq)]
pub struct AbcdVar {
    pub a: SpreadVar,
    pub b: SpreadVar,
    pub c_lo: SpreadVar,
    pub c_mid: SpreadVar,
    pub c_hi: SpreadVar,
    pub d: SpreadVar,
}

/// The (3, 3, 2, 3, 14, 7)-bit chunks of a word `E`, `F`, `G` or `H`.
#[derive(Clone, Copy, Debug, PartialEq, Eq)]
pub struct EfghVar {
    pub a_lo: SpreadVar,
    pub a_hi: SpreadVar,
    pub b_lo: SpreadVar,
    pub b_hi: SpreadVar,
    pub c: SpreadVar,
    pub d: SpreadVar,
}

/// The word `A`: its chunks and its halves.
#[derive(Clone, Copy, Debug, PartialEq, Eq)]
pub struct RoundWordA {
    pub pieces: AbcdVar,
    pub dense_halves: RoundWordDense,
    pub spread_halves: RoundWordSpread,
}

/// The word `E`: its chunks and its halves.
#[derive(Clone, Copy, Debug, PartialEq, Eq)]
pub struct RoundWordE {
    pub pieces: EfghVar,
    pub dense_halves: RoundWordDense,
    pub spread_halves: RoundWordSpread,
}

/// The eight words of the compression state.
#[derive(Clone, Copy, Debug, PartialEq, Eq)]
pub struct State {
    pub a: RoundWordA,
    pub b: RoundWord,
    pub c: RoundWord,
    pub d: RoundWordDense,
    pub e: RoundWordE,
    pub f: RoundWord,
    pub g: RoundWord,
    pub h: RoundWordDense,
}

/// The round whose rows are laid out.
#[derive(Clone, Copy, Debug, PartialEq, Eq)]
pub enum RoundIdx {
    /// The initial round, which assigns the initial state.
    Init,
}

/// The rows of a decomposition gate.
pub const DECOMPOSE_ABCD: usize = 2;

/// The rows of a decomposition gate.
pub const DECOMPOSE_EFGH: usize = 2;

/// The first row of the round.
pub fn get_round_row(round_idx: RoundIdx) -> (r: usize)
    ensures
        r == 0,
{
    match round_idx {
        RoundIdx::Init => 0,
    }
}

/// The row of the decomposition of `E`.
pub fn get_decompose_e_row(round_idx: RoundIdx) -> (r: usize)
    ensures
        r == 0,
{
    get_round_row(round_idx)
}

/// The row of the decomposition of `F`.
pub fn get_decompose_f_row(round_idx: RoundIdx) -> (r: usize)
    ensures
        r == 2,
{
    get_decompose_e_row(round_idx) + DECOMPOSE_EFGH
}

/// The row of the decomposition of `G`.
pub fn get_decompose_g_row(round_idx: RoundIdx) -> (r: usize)
    ensures
        r == 4,
{
    get_decompose_f_row(round_idx) + DECOMPOSE_EFGH
}

/// The row of the word `H`.
pub fn get_h_row(round_idx: RoundIdx) -> (r: usize)
    ensures
        r == 6,
{
    get_decompose_g_row(round_idx) + DECOMPOSE_EFGH
}

/// The row of the decomposition of `A`.
pub fn get_decompose_a_row(round_idx: RoundIdx) -> (r: usize)
    ensures
        r == 8,
{
    get_h_row(round_idx) + DECOMPOSE_EFGH
}

/// The row of the decomposition of `B`.
pub fn get_decompose_b_row(round_idx: RoundIdx) -> (r: usize)
    ensures
        r == 10,
{
    get_decompose_a_row(round_idx) + DECOMPOSE_ABCD
}

/// The row of the decomposition of `C`.
pub fn get_decompose_c_row(round_idx: RoundIdx) -> (r: usize)
    ensures
        r == 12,
{
    get_decompose_b_row(round_idx) + DECOMPOSE_ABCD
}

/// The row of the word `D`.
pub fn get_d_row(round_idx: RoundIdx) -> (r: usize)
    ensures
        r == 14,
{
    get_decompose_c_row(round_idx) + DECOMPOSE_ABCD
}

/// A known 16-bit value as a cell value.
pub open spec fn widen16(v: Option<u16>) -> Option<u64> {
    match v {
        Some(x) => Some(x as u64),
        None => None,
    }
}

/// A known 32-bit value as a cell value.
pub open spec fn widen32(v: Option<u32>) -> Option<u64> {
    match v {
        Some(x) => Some(x as u64),
        None => None,
    }
}

/// The spread form of a known value.
pub open spec fn opt_spread(v: Option<u16>, bits: nat) -> Option<u32> {
    match v {
        Some(x) => Some(spread(x as nat, bits) as u32),
        None => None,
    }
}

/// A chunk of a known word.
pub open spec fn opt_chunk(v: Option<u32>, lo: u32, mask: u32) -> Option<u16> {
    match v {
        Some(w) => Some(chunk(w, lo, mask)),
        None => None,
    }
}

/// The low half of a known word.
pub open spec fn opt_lo(v: Option<u32>) -> Option<u16> {
    match v {
        Some(w) => Some(lo16(w)),
        None => None,
    }
}

/// The high half of a known word.
pub open spec fn opt_hi(v: Option<u32>) -> Option<u16> {
    match v {
        Some(w) => Some(hi16(w)),
        None => None,
    }
}

/// The cell of a dense value.
pub open spec fn cell16(c: AssignedCell<u16>) -> (usize, usize, Option<u64>) {
    (c.column, c.row, widen16(c.value))
}

/// The cell of a spread value.
pub open spec fn cell32(c: AssignedCell<u32>) -> (usize, usize, Option<u64>) {
    (c.column, c.row, widen32(c.value))
}

/// The chunk `v` of `bits` bits, dense at `(dc, dr)`, spread at `(sc, sr)`.
pub open spec fn spread_var_of(dc: usize, dr: usize, sc: usize, sr: usize, v: Option<u16>, bits: nat) -> SpreadVar {
    SpreadVar {
        dense: AssignedCell { column: dc, row: dr, value: v },
        spread: AssignedCell { column: sc, row: sr, value: opt_spread(v, bits) },
    }
}

/// The cells of a chunk, in the order of assignment.
pub open spec fn spread_var_cells(v: SpreadVar) -> Seq<(usize, usize, Option<u64>)> {
    seq![cell16(v.dense), cell32(v.spread)]
}

/// The assignment of a cell.
pub open spec fn assign_op(c: (usize, usize, Option<u64>)) -> RegionOp {
    RegionOp::Assign(c.0, c.1, c.2)
}

/// The assignments of a chunk, in order.
pub open spec fn spread_var_ops(v: SpreadVar) -> Seq<RegionOp> {
    seq![assign_op(cell16(v.dense)), assign_op(cell32(v.spread))]
}

/// `b` is `a` with more cells assigned and more selectors enabled.
pub open spec fn extends(a: &Region, b: &Region) -> bool {
    &&& a.offset == b.offset
    &&& a.usable_rows == b.usable_rows
    &&& a.cells@.is_prefix_of(b.cells@)
    &&& a.selectors@.is_prefix_of(b.selectors@)
}

/// Assigns a chunk of `bits` bits and its spread form.
fn assign_spread_var(
    region: &mut Region,
    dc: usize,
    dr: usize,
    sc: usize,
    sr: usize,
    value: Option<u16>,
    bits: u32,
) -> (r: Result<SpreadVar, Error>)
    requires
        bits <= 16,
    ensures
        r is Ok <==> row_fits(old(region), dr) && row_fits(old(region), sr),
        r matches Ok(v) ==> v == spread_var_of(dc, dr, sc, sr, value, bits as nat) && final(region).cells@
            == old(region).cells@ + spread_var_cells(v),
        extends(old(region), final(region)),
        final(region).selectors@ == old(region).selectors@,
        runs(old(region), final(region), spread_var_ops(spread_var_of(dc, dr, sc, sr, value, bits as nat))),
        r is Ok <==> completes(old(region), spread_var_ops(spread_var_of(dc, dr, sc, sr, value, bits as nat))),
{
    let ghost r0 = *region;
    let ghost all = spread_var_ops(spread_var_of(dc, dr, sc, sr, value, bits as nat));
    let spread_value: Option<u32> = match value {
        Some(x) => Some(spread_bits(x, bits)),
        None => None,
    };
    let dense64: Option<u64> = match value {
        Some(x) => Some(x as u64),
        None => None,
    };
    let spread64: Option<u64> = match spread_value {
        Some(x) => Some(x as u64),
        None => None,
    };
    proof {
        lemma_runs_start(&r0);
        assert(all.take(0) =~= Seq::<RegionOp>::empty());
        assert(all.subrange(0, 1) =~= seq![RegionOp::Assign(dc, dr, dense64)]);
        assert(all.subrange(1, 2) =~= seq![RegionOp::Assign(sc, sr, spread64)]);
        assert(all.take(2) =~= all);
    }
    let res = region.assign_advice(dc, dr, dense64);
    proof {
        lemma_runs_step(&r0, &r0, &*region, all, 0, 1);
        lemma_runs_single(&r0, all[0]);
    }
    res?;
    let ghost mid = *region;
    let res = region.assign_advice(sc, sr, spread64);
    proof {
        lemma_runs_step(&r0, &mid, &*region, all, 1, 1);
        lemma_runs_single(&mid, all[1]);
    }
    match res {
        Ok(()) => {},
        Err(e) => {
            assert(old(region).cells@.is_prefix_of(region.cells@)) by {
                assert(region.cells@ == mid.cells@);
            }
            return Err(e);
        },
    }
    let v = SpreadVar {
        dense: AssignedCell { column: dc, row: dr, value },
        spread: AssignedCell { column: sc, row: sr, value: spread_value },
    };
    assert(region.cells@ =~= old(region).cells@ + spread_var_cells(v));
    Ok(v)
}

/// A chunk of a known word.
fn chunk_of(val: Option<u32>, lo: u32, mask: u32) -> (r: Option<u16>)
    requires
        lo < 32,
        mask <= 0xffff,
    ensures
        r == opt_chunk(val, lo, mask),
{
    match val {
        Some(w) => {
            let c = (w >> lo) & mask;
            assert(c <= 0xffff) by (bit_vector)
                requires
                    c == (w >> lo) & mask,
                    mask <= 0xffff,
            ;
            Some(c as u16)
        },
        None => None,
    }
}

/// The chunks of a word `A`, `B`, `C` or `D` at `row` and `row + 1`.
pub open spec fn abcd_of(cfg: CompressionConfig, row: usize, val: Option<u32>) -> AbcdVar {
    let a_3 = cfg.extras[0];
    let a_4 = cfg.extras[1];
    let a_5 = cfg.message_schedule;
    let a_6 = cfg.extras[2];
    let ld = cfg.lookup.dense;
    let ls = cfg.lookup.spread;
    AbcdVar {
        a: spread_var_of(a_3, row, a_4, row, opt_chunk(val, 0, 0x3), 2),
        b: spread_var_of(ld, row, ls, row, opt_chunk(val, 2, 0x7ff), 11),
        c_lo: spread_var_of(a_5, row, a_6, row, opt_chunk(val, 13, 0x7), 3),
        c_mid: spread_var_of(a_3, (row + 1) as usize, a_4, (row + 1) as usize, opt_chunk(val, 16, 0x7), 3),
        c_hi: spread_var_of(a_5, (row + 1) as usize, a_6, (row + 1) as usize, opt_chunk(val, 19, 0x7), 3),
        d: spread_var_of(ld, (row + 1) as usize, ls, (row + 1) as usize, opt_chunk(val, 22, 0x3ff), 10),
    }
}

/// The cells of the chunks of a word `A`, `B`, `C` or `D`, in order.
pub open spec fn abcd_cells(v: AbcdVar) -> Seq<(usize, usize, Option<u64>)> {
    spread_var_cells(v.a) + spread_var_cells(v.b) + spread_var_cells(v.c_lo) + spread_var_cells(v.c_mid)
        + spread_var_cells(v.c_hi) + spread_var_cells(v.d)
}

/// The chunks of a word `E`, `F`, `G` or `H` at `row` and `row + 1`.
pub open spec fn efgh_of(cfg: CompressionConfig, row: usize, val: Option<u32>) -> EfghVar {
    let a_3 = cfg.extras[0];
    let a_4 = cfg.extras[1];
    let a_5 = cfg.message_schedule;
    let a_6 = cfg.extras[2];
    let ld = cfg.lookup.dense;
    let ls = cfg.lookup.spread;
    EfghVar {
        a_lo: spread_var_of(a_3, row, a_4, row, opt_chunk(val, 0, 0x7), 3),
        a_hi: spread_var_of(a_5, row, a_6, row, opt_chunk(val, 3, 0x7), 3),
        b_lo: spread_var_of(a_3, (row + 1) as usize, a_4, (row + 1) as usize, opt_chunk(val, 6, 0x3), 2),
        b_hi: spread_var_of(a_5, (row + 1) as usize, a_6, (row + 1) as usize, opt_chunk(val, 8, 0x7), 3),
        c: spread_var_of(ld, row, ls, row, opt_chunk(val, 11, 0x3fff), 14),
        d: spread_var_of(ld, (row + 1) as usize, ls, (row + 1) as usize, opt_chunk(val, 25, 0x7f), 7),
    }
}

/// The cells of the chunks of a word `E`, `F`, `G` or `H`, in order.
pub open spec fn efgh_cells(v: EfghVar) -> Seq<(usize, usize, Option<u64>)> {
    spread_var_cells(v.a_lo) + spread_var_cells(v.a_hi) + spread_var_cells(v.b_lo) + spread_var_cells(v.b_hi)
        + spread_var_cells(v.c) + spread_var_cells(v.d)
}

/// The operations of the decomposition of a word `A`, `B`, `C` or `D`, in
/// order: the selector `sel` at `row`, then the chunks.
pub open spec fn abcd_ops(sel: usize, row: usize, v: AbcdVar) -> Seq<RegionOp> {
    seq![RegionOp::Enable(sel, row)] + spread_var_ops(v.a) + spread_var_ops(v.b) + spread_var_ops(v.c_lo)
        + spread_var_ops(v.c_mid) + spread_var_ops(v.c_hi) + spread_var_ops(v.d)
}

/// The operations of the decomposition of a word `E`, `F`, `G` or `H`, in
/// order: the selector `sel` at `row`, then the chunks.
pub open spec fn efgh_ops(sel: usize, row: usize, v: EfghVar) -> Seq<RegionOp> {
    seq![RegionOp::Enable(sel, row)] + spread_var_ops(v.a_lo) + spread_var_ops(v.a_hi) + spread_var_ops(v.b_lo)
        + spread_var_ops(v.b_hi) + spread_var_ops(v.c) + spread_var_ops(v.d)
}

impl CompressionConfig {
    /// Decomposes a word `A`, `B`, `C` or `D` into (2, 11, 3, 3, 3, 10)-bit
    /// chunks at `row` and `row + 1`.
    fn decompose_abcd(&self, region: &mut Region, row: usize, val: Option<u32>) -> (r: Result<AbcdVar, Error>)
        requires
            row < usize::MAX,
        ensures
            r is Ok <==> row_fits(old(region), (row + 1) as usize),
            r matches Ok(v) ==> {
                &&& v == abcd_of(*self, row, val)
                &&& final(region).cells@ == old(region).cells@ + abcd_cells(v)
                &&& final(region).selectors@ == old(region).selectors@.push((self.s_decompose_abcd, row))
            },
            extends(old(region), final(region)),
            runs(old(region), final(region), abcd_ops(self.s_decompose_abcd, row, abcd_of(*self, row, val))),
            r is Ok <==> completes(old(region), abcd_ops(self.s_decompose_abcd, row, abcd_of(*self, row, val))),
    {
        let ghost cfg = *self;
        let ghost r0 = *region;
        let ghost all = abcd_ops(self.s_decompose_abcd, row, abcd_of(cfg, row, val));
        proof {
            lemma_runs_start(&r0);
            assert(all.take(0) =~= Seq::<RegionOp>::empty());
            assert(all.subrange(0, 1) =~= seq![RegionOp::Enable(self.s_decompose_abcd, row)]);
            assert(all.subrange(1, 3) =~= spread_var_ops(abcd_of(cfg, row, val).a));
            assert(all.subrange(3, 5) =~= spread_var_ops(abcd_of(cfg, row, val).b));
            assert(all.subrange(5, 7) =~= spread_var_ops(abcd_of(cfg, row, val).c_lo));
            assert(all.subrange(7, 9) =~= spread_var_ops(abcd_of(cfg, row, val).c_mid));
            assert(all.subrange(9, 11) =~= spread_var_ops(abcd_of(cfg, row, val).c_hi));
            assert(all.subrange(11, 13) =~= spread_var_ops(abcd_of(cfg, row, val).d));
            assert(all.take(13) =~= all);
        }
        let res = region.enable_selector(self.s_decompose_abcd, row);
        proof {
            lemma_runs_step(&r0, &r0, &*region, all, 0, 1);
            lemma_runs_single(&r0, all[0]);
        }
        res?;
        let a_3 = self.extras[0];
        let a_4 = self.extras[1];
        let a_5 = self.message_schedule;
        let a_6 = self.extras[2];
        let ld = self.lookup.dense;
        let ls = self.lookup.spread;
        let ghost before = *region;
        let res = assign_spread_var(region, a_3, row, a_4, row, chunk_of(val, 0, 0x3), 2);
        proof {
            lemma_runs_step(&r0, &before, &*region, all, 1, 2);
        }
        let a = res?;
        let ghost before = *region;
        let res = assign_spread_var(region, ld, row, ls, row, chunk_of(val, 2, 0x7ff), 11);
        proof {
            lemma_runs_step(&r0, &before, &*region, all, 3, 2);
        }
        let b = res?;
        let ghost before = *region;
        let res = assign_spread_var(region, a_5, row, a_6, row, chunk_of(val, 13, 0x7), 3);
        proof {
            lemma_runs_step(&r0, &before, &*region, all, 5, 2);
        }
        let c_lo = res?;
        let ghost before = *region;
        let res = assign_spread_var(region, a_3, row + 1, a_4, row + 1, chunk_of(val, 16, 0x7), 3);
        proof {
            lemma_runs_step(&r0, &before, &*region, all, 7, 2);
        }
        let c_mid = res?;
        let ghost before = *region;
        let res = assign_spread_var(region, a_5, row + 1, a_6, row + 1, chunk_of(val, 19, 0x7), 3);
        proof {
            lemma_runs_step(&r0, &before, &*region, all, 9, 2);
        }
        let c_hi = res?;
        let ghost before = *region;
        let res = assign_spread_var(region, ld, row + 1, ls, row + 1, chunk_of(val, 22, 0x3ff), 10);
        proof {
            lemma_runs_step(&r0, &before, &*region, all, 11, 2);
        }
        let d = res?;
        let v = AbcdVar { a, b, c_lo, c_mid, c_hi, d };
        assert(v == abcd_of(cfg, row, val));
        assert(region.cells@ =~= old(region).cells@ + abcd_cells(v));
        Ok(v)
    }

    /// Decomposes a word `E`, `F`, `G` or `H` into (3, 3, 2, 3, 14, 7)-bit
    /// chunks at `row` and `row + 1`.
    fn decompose_efgh(&self, region: &mut Region, row: usize, val: Option<u32>) -> (r: Result<EfghVar, Error>)
        requires
            row < usize::MAX,
        ensures
            r is Ok <==> row_fits(old(region), (row + 1) as usize),
            r matches Ok(v) ==> {
                &&& v == efgh_of(*self, row, val)
                &&& final(region).cells@ == old(region).cells@ + efgh_cells(v)
                &&& final(region).selectors@ == old(region).selectors@.push((self.s_decompose_efgh, row))
            },
            extends(old(region), final(region)),
            runs(old(region), final(region), efgh_ops(self.s_decompose_efgh, row, efgh_of(*self, row, val))),
            r is Ok <==> completes(old(region), efgh_ops(self.s_decompose_efgh, row, efgh_of(*self, row, val))),
    {
        let ghost cfg = *self;
        let ghost r0 = *region;
        let ghost all = efgh_ops(self.s_decompose_efgh, row, efgh_of(cfg, row, val));
        proof {
            lemma_runs_start(&r0);
            assert(all.take(0) =~= Seq::<RegionOp>::empty());
            assert(all.subrange(0, 1) =~= seq![RegionOp::Enable(self.s_decompose_efgh, row)]);
            assert(all.subrange(1, 3) =~= spread_var_ops(efgh_of(cfg, row, val).a_lo));
            assert(all.subrange(3, 5) =~= spread_var_ops(efgh_of(cfg, row, val).a_hi));
            assert(all.subrange(5, 7) =~= spread_var_ops(efgh_of(cfg, row, val).b_lo));
            assert(all.subrange(7, 9) =~= spread_var_ops(efgh_of(cfg, row, val).b_hi));
            assert(all.subrange(9, 11) =~= spread_var_ops(efgh_of(cfg, row, val).c));
            assert(all.subrange(11, 13) =~= spread_var_ops(efgh_of(cfg, row, val).d));
            assert(all.take(13) =~= all);
        }
        let res = region.enable_selector(self.s_decompose_efgh, row);
        proof {
            lemma_runs_step(&r0, &r0, &*region, all, 0, 1);
            lemma_runs_single(&r0, all[0]);
        }
        res?;
        let a_3 = self.extras[0];
        let a_4 = self.extras[1];
        let a_5 = self.message_schedule;
        let a_6 = self.extras[2];
        let ld = self.lookup.dense;
        let ls = self.lookup.spread;
        let ghost before = *region;
        let res = assign_spread_var(region, a_3, row, a_4, row, chunk_of(val, 0, 0x7), 3);
        proof {
            lemma_runs_step(&r0, &before, &*region, all, 1, 2);
        }
        let a_lo = res?;
        let ghost before = *region;
        let res = assign_spread_var(region, a_5, row, a_6, row, chunk_of(val, 3, 0x7), 3);
        proof {
            lemma_runs_step(&r0, &before, &*region, all, 3, 2);
        }
        let a_hi = res?;
        let ghost before = *region;
        let res = assign_spread_var(region, a_3, row + 1, a_4, row + 1, chunk_of(val, 6, 0x3), 2);
        proof {
            lemma_runs_step(&r0, &before, &*region, all, 5, 2);
        }
        let b_lo = res?;
        let ghost before = *region;
        let res = assign_spread_var(region, a_5, row + 1, a_6, row + 1, chunk_of(val, 8, 0x7), 3);
        proof {
            lemma_runs_step(&r0, &before, &*region, all, 7, 2);
        }
        let b_hi = res?;
        let ghost before = *region;
        let res = assign_spread_var(region, ld, row, ls, row, chunk_of(val, 11, 0x3fff), 14);
        proof {
            lemma_runs_step(&r0, &before, &*region, all, 9, 2);
        }
        let c = res?;
        let ghost before = *region;
        let res = assign_spread_var(region, ld, row + 1, ls, row + 1, chunk_of(val, 25, 0x7f), 7);
        proof {
            lemma_runs_step(&r0, &before, &*region, all, 11, 2);
        }
        let d = res?;
        let v = EfghVar { a_lo, a_hi, b_lo, b_hi, c, d };
        assert(v == efgh_of(cfg, row, val));
        assert(region.cells@ =~= old(region).cells@ + efgh_cells(v));
        Ok(v)
    }
}

/// The halves of a known word, dense at `(a_7, row)` and `(a_7, row + 1)`,
/// spread at `(a_8, row)` and `(a_8, row + 1)`.
pub open spec fn halves_of(cfg: CompressionConfig, row: usize, word: Option<u32>) -> (SpreadVar, SpreadVar) {
    let a_7 = cfg.extras[3];
    let a_8 = cfg.extras[4];
    (
        spread_var_of(a_7, row, a_8, row, opt_lo(word), 16),
        spread_var_of(a_7, (row + 1) as usize, a_8, (row + 1) as usize, opt_hi(word), 16),
    )
}

/// The dense halves of two chunks.
pub open spec fn dense_of_halves(h: (SpreadVar, SpreadVar)) -> RoundWordDense {
    RoundWordDense { lo: h.0.dense, hi: h.1.dense }
}

/// The spread halves of two chunks.
pub open spec fn spread_of_halves(h: (SpreadVar, SpreadVar)) -> RoundWordSpread {
    RoundWordSpread { lo: h.0.spread, hi: h.1.spread }
}

/// The cells of the halves of a word, in order.
pub open spec fn halves_cells(h: (SpreadVar, SpreadVar)) -> Seq<(usize, usize, Option<u64>)> {
    spread_var_cells(h.0) + spread_var_cells(h.1)
}

/// The dense halves of a known word at `(lo_col, lo_row)` and `(hi_col, hi_row)`.
pub open spec fn dense_of(lo_row: usize, lo_col: usize, hi_row: usize, hi_col: usize, word: Option<u32>) -> RoundWordDense {
    RoundWordDense {
        lo: AssignedCell { column: lo_col, row: lo_row, value: opt_lo(word) },
        hi: AssignedCell { column: hi_col, row: hi_row, value: opt_hi(word) },
    }
}

/// The cells of the dense halves of a word, in order.
pub open spec fn dense_cells(d: RoundWordDense) -> Seq<(usize, usize, Option<u64>)> {
    seq![cell16(d.lo), cell16(d.hi)]
}

/// The low half of a known word.
fn lo_of(word: Option<u32>) -> (r: Option<u16>)
    ensures
        r == opt_lo(word),
{
    match word {
        Some(w) => Some((w & 0xffff) as u16),
        None => None,
    }
}

/// The high half of a known word.
fn hi_of(word: Option<u32>) -> (r: Option<u16>)
    ensures
        r == opt_hi(word),
{
    match word {
        Some(w) => Some((w >> 16) as u16),
        None => None,
    }
}

impl CompressionConfig {
    /// Assigns the halves of a word, dense and spread, at `row` and `row + 1`.
    fn assign_word_halves(&self, region: &mut Region, row: usize, word: Option<u32>) -> (r: Result<
        (RoundWordDense, RoundWordSpread),
        Error,
    >)
        requires
            row < usize::MAX,
        ensures
            r is Ok <==> row_fits(old(region), (row + 1) as usize),
            r matches Ok(v) ==> {
                let h = halves_of(*self, row, word);
                &&& v == (dense_of_halves(h), spread_of_halves(h))
                &&& final(region).cells@ == old(region).cells@ + halves_cells(h)
            },
            extends(old(region), final(region)),
            final(region).selectors@ == old(region).selectors@,
            runs(old(region), final(region), halves_ops(halves_of(*self, row, word))),
            r is Ok <==> completes(old(region), halves_ops(halves_of(*self, row, word))),
    {
        let ghost r0 = *region;
        let ghost h = halves_of(*self, row, word);
        let ghost all = halves_ops(h);
        proof {
            lemma_runs_start(&r0);
            assert(all.take(0) =~= Seq::<RegionOp>::empty());
            assert(all.subrange(0, 2) =~= spread_var_ops(h.0));
            assert(all.subrange(2, 4) =~= spread_var_ops(h.1));
            assert(all.take(4) =~= all);
        }
        // Rename these here for ease of matching the gates to the specification.
        let a_7 = self.extras[3];
        let a_8 = self.extras[4];
        let res = assign_spread_var(region, a_7, row, a_8, row, lo_of(word), 16);
        proof {
            lemma_runs_step(&r0, &r0, &*region, all, 0, 2);
        }
        let w_lo = res?;
        let ghost before = *region;
        let res = assign_spread_var(region, a_7, row + 1, a_8, row + 1, hi_of(word), 16);
        proof {
            lemma_runs_step(&r0, &before, &*region, all, 2, 2);
        }
        let w_hi = res?;
        assert(region.cells@ =~= old(region).cells@ + halves_cells(halves_of(*self, row, word)));
        Ok((RoundWordDense { lo: w_lo.dense, hi: w_hi.dense }, RoundWordSpread { lo: w_lo.spread, hi: w_hi.spread }))
    }

    /// Assigns the dense halves of a word at `(lo_col, lo_row)` and
    /// `(hi_col, hi_row)`.
    fn assign_word_halves_dense(
        &self,
        region: &mut Region,
        lo_row: usize,
        lo_col: usize,
        hi_row: usize,
        hi_col: usize,
        word: Option<u32>,
    ) -> (r: Result<RoundWordDense, Error>)
        ensures
            r is Ok <==> row_fits(old(region), lo_row) && row_fits(old(region), hi_row),
            r matches Ok(v) ==> {
                &&& v == dense_of(lo_row, lo_col, hi_row, hi_col, word)
                &&& final(region).cells@ == old(region).cells@ + dense_cells(v)
            },
            extends(old(region), final(region)),
            final(region).selectors@ == old(region).selectors@,
            runs(old(region), final(region), dense_ops(dense_of(lo_row, lo_col, hi_row, hi_col, word))),
            r is Ok <==> completes(old(region), dense_ops(dense_of(lo_row, lo_col, hi_row, hi_col, word))),
    {
        let ghost r0 = *region;
        let ghost all = dense_ops(dense_of(lo_row, lo_col, hi_row, hi_col, word));
        let lo = lo_of(word);
        let hi = hi_of(word);
        let lo64: Option<u64> = match lo {
            Some(x) => Some(x as u64),
            None => None,
        };
        let hi64: Option<u64> = match hi {
            Some(x) => Some(x as u64),
            None => None,
        };
        proof {
            lemma_runs_start(&r0);
            assert(all.take(0) =~= Seq::<RegionOp>::empty());
            assert(all.subrange(0, 1) =~= seq![RegionOp::Assign(lo_col, lo_row, lo64)]);
            assert(all.subrange(1, 2) =~= seq![RegionOp::Assign(hi_col, hi_row, hi64)]);
            assert(all.take(2) =~= all);
        }
        let res = region.assign_advice(lo_col, lo_row, lo64);
        proof {
            lemma_runs_step(&r0, &r0, &*region, all, 0, 1);
            lemma_runs_single(&r0, all[0]);
        }
        res?;
        let ghost before = *region;
        let ghost mid = region.cells@;
        let res = region.assign_advice(hi_col, hi_row, hi64);
        proof {
            lemma_runs_step(&r0, &before, &*region, all, 1, 1);
            lemma_runs_single(&before, all[1]);
        }
        match res {
            Ok(()) => {},
            Err(e) => {
                assert(region.cells@ == mid);
                return Err(e);
            },
        }
        let v = RoundWordDense {
            lo: AssignedCell { column: lo_col, row: lo_row, value: lo },
            hi: AssignedCell { column: hi_col, row: hi_row, value: hi },
        };
        assert(region.cells@ =~= old(region).cells@ + dense_cells(v));
        Ok(v)
    }
}

/// A word `B`, `C`, `F` or `G` from its halves.
pub open spec fn round_word_of(h: (SpreadVar, SpreadVar)) -> RoundWord {
    RoundWord { dense_halves: dense_of_halves(h), spread_halves: spread_of_halves(h) }
}

/// The word `A` of a known value at `row`.
pub open spec fn word_a_of(cfg: CompressionConfig, row: usize, w: Option<u32>) -> RoundWordA {
    let h = halves_of(cfg, row, w);
    RoundWordA { pieces: abcd_of(cfg, row, w), dense_halves: dense_of_halves(h), spread_halves: spread_of_halves(h) }
}

/// The word `E` of a known value at `row`.
pub open spec fn word_e_of(cfg: CompressionConfig, row: usize, w: Option<u32>) -> RoundWordE {
    let h = halves_of(cfg, row, w);
    RoundWordE { pieces: efgh_of(cfg, row, w), dense_halves: dense_of_halves(h), spread_halves: spread_of_halves(h) }
}

/// The cells of a word decomposed as `A`, `B`, `C` or `D`, in order.
pub open spec fn abcd_word_cells(cfg: CompressionConfig, row: usize, w: Option<u32>) -> Seq<(usize, usize, Option<u64>)> {
    halves_cells(halves_of(cfg, row, w)) + abcd_cells(abcd_of(cfg, row, w))
}

/// The cells of a word decomposed as `E`, `F`, `G` or `H`, in order.
pub open spec fn efgh_word_cells(cfg: CompressionConfig, row: usize, w: Option<u32>) -> Seq<(usize, usize, Option<u64>)> {
    halves_cells(halves_of(cfg, row, w)) + efgh_cells(efgh_of(cfg, row, w))
}

/// The assignments of the halves of a word, in order.
pub open spec fn halves_ops(h: (SpreadVar, SpreadVar)) -> Seq<RegionOp> {
    spread_var_ops(h.0) + spread_var_ops(h.1)
}

/// The assignments of the dense halves of a word, in order.
pub open spec fn dense_ops(d: RoundWordDense) -> Seq<RegionOp> {
    seq![assign_op(cell16(d.lo)), assign_op(cell16(d.hi))]
}

/// The operations of a word decomposed as `A`, `B`, `C` or `D`, in order.
pub open spec fn abcd_word_ops(cfg: CompressionConfig, row: usize, w: Option<u32>) -> Seq<RegionOp> {
    halves_ops(halves_of(cfg, row, w)) + abcd_ops(cfg.s_decompose_abcd, row, abcd_of(cfg, row, w))
}

/// The operations of a word decomposed as `E`, `F`, `G` or `H`, in order.
pub open spec fn efgh_word_ops(cfg: CompressionConfig, row: usize, w: Option<u32>) -> Seq<RegionOp> {
    halves_ops(halves_of(cfg, row, w)) + efgh_ops(cfg.s_decompose_efgh, row, efgh_of(cfg, row, w))
}

impl CompressionConfig {
    /// Decomposes the word `A` at its row of the round.
    fn decompose_a(&self, region: &mut Region, round_idx: RoundIdx, a_val: Option<u32>) -> (r: Result<RoundWordA, Error>)
        ensures
            r is Ok <==> row_fits(old(region), 9),
            r matches Ok(v) ==> {
                &&& v == word_a_of(*self, 8, a_val)
                &&& final(region).cells@ == old(region).cells@ + abcd_word_cells(*self, 8, a_val)
                &&& final(region).selectors@ == old(region).selectors@.push((self.s_decompose_abcd, 8usize))
            },
            extends(old(region), final(region)),
            runs(old(region), final(region), abcd_word_ops(*self, 8, a_val)),
            r is Ok <==> completes(old(region), abcd_word_ops(*self, 8, a_val)),
    {
        let ghost r0 = *region;
        let ghost all = abcd_word_ops(*self, 8, a_val);
        proof {
            lemma_runs_start(&r0);
            assert(all.take(0) =~= Seq::<RegionOp>::empty());
            assert(all.subrange(0, 4) =~= halves_ops(halves_of(*self, 8, a_val)));
            assert(all.subrange(4, 17) =~= abcd_ops(self.s_decompose_abcd, 8, abcd_of(*self, 8, a_val)));
            assert(all.take(17) =~= all);
        }
        let row = get_decompose_a_row(round_idx);
        let res = self.assign_word_halves(region, row, a_val);
        proof {
            lemma_runs_step(&r0, &r0, &*region, all, 0, 4);
        }
        let (dense_halves, spread_halves) = res?;
        let ghost before = *region;
        let res = self.decompose_abcd(region, row, a_val);
        proof {
            lemma_runs_step(&r0, &before, &*region, all, 4, 13);
        }
        let pieces = res?;
        assert(region.cells@ =~= old(region).cells@ + abcd_word_cells(*self, 8, a_val));
        Ok(RoundWordA { pieces, dense_halves, spread_halves })
    }

    fn decompose_b(&self, region: &mut Region, round_idx: RoundIdx, b_val: Option<u32>) -> (r: Result<RoundWord, Error>)
        ensures
            r is Ok <==> row_fits(old(region), 11),
            r matches Ok(v) ==> {
                &&& v == round_word_of(halves_of(*self, 10, b_val))
                &&& final(region).cells@ == old(region).cells@ + abcd_word_cells(*self, 10, b_val)
                &&& final(region).selectors@ == old(region).selectors@.push((self.s_decompose_abcd, 10usize))
            },
            extends(old(region), final(region)),
            runs(old(region), final(region), abcd_word_ops(*self, 10, b_val)),
            r is Ok <==> completes(old(region), abcd_word_ops(*self, 10, b_val)),
    {
        let ghost r0 = *region;
        let ghost all = abcd_word_ops(*self, 10, b_val);
        proof {
            lemma_runs_start(&r0);
            assert(all.take(0) =~= Seq::<RegionOp>::empty());
            assert(all.subrange(0, 4) =~= halves_ops(halves_of(*self, 10, b_val)));
            assert(all.subrange(4, 17) =~= abcd_ops(self.s_decompose_abcd, 10, abcd_of(*self, 10, b_val)));
            assert(all.take(17) =~= all);
        }
        let row = get_decompose_b_row(round_idx);
        let res = self.assign_word_halves(region, row, b_val);
        proof {
            lemma_runs_step(&r0, &r0, &*region, all, 0, 4);
        }
        let (dense_halves, spread_halves) = res?;
        let ghost before = *region;
        let res = self.decompose_abcd(region, row, b_val);
        proof {
            lemma_runs_step(&r0, &before, &*region, all, 4, 13);
        }
        res?;
        assert(region.cells@ =~= old(region).cells@ + abcd_word_cells(*self, 10, b_val));
        Ok(RoundWord { dense_halves, spread_halves })
    }

    fn decompose_c(&self, region: &mut Region, round_idx: RoundIdx, c_val: Option<u32>) -> (r: Result<RoundWord, Error>)
        ensures
            r is Ok <==> row_fits(old(region), 13),
            r matches Ok(v) ==> {
                &&& v == round_word_of(halves_of(*self, 12, c_val))
                &&& final(region).cells@ == old(region).cells@ + abcd_word_cells(*self, 12, c_val)
                &&& final(region).selectors@ == old(region).selectors@.push((self.s_decompose_abcd, 12usize))
            },
            extends(old(region), final(region)),
            runs(old(region), final(region), abcd_word_ops(*self, 12, c_val)),
            r is Ok <==> completes(old(region), abcd_word_ops(*self, 12, c_val)),
    {
        let ghost r0 = *region;
        let ghost all = abcd_word_ops(*self, 12, c_val);
        proof {
            lemma_runs_start(&r0);
            assert(all.take(0) =~= Seq::<RegionOp>::empty());
            assert(all.subrange(0, 4) =~= halves_ops(halves_of(*self, 12, c_val)));
            assert(all.subrange(4, 17) =~= abcd_ops(self.s_decompose_abcd, 12, abcd_of(*self, 12, c_val)));
            assert(all.take(17) =~= all);
        }
        let row = get_decompose_c_row(round_idx);
        let res = self.assign_word_halves(region, row, c_val);
        proof {
            lemma_runs_step(&r0, &r0, &*region, all, 0, 4);
        }
        let (dense_halves, spread_halves) = res?;
        let ghost before = *region;
        let res = self.decompose_abcd(region, row, c_val);
        proof {
            lemma_runs_step(&r0, &before, &*region, all, 4, 13);
        }
        res?;
        assert(region.cells@ =~= old(region).cells@ + abcd_word_cells(*self, 12, c_val));
        Ok(RoundWord { dense_halves, spread_halves })
    }

    /// Decomposes the word `E` at its row of the round.
    fn decompose_e(&self, region: &mut Region, round_idx: RoundIdx, e_val: Option<u32>) -> (r: Result<RoundWordE, Error>)
        ensures
            r is Ok <==> row_fits(old(region), 1),
            r matches Ok(v) ==> {
                &&& v == word_e_of(*self, 0, e_val)
                &&& final(region).cells@ == old(region).cells@ + efgh_word_cells(*self, 0, e_val)
                &&& final(region).selectors@ == old(region).selectors@.push((self.s_decompose_efgh, 0usize))
            },
            extends(old(region), final(region)),
            runs(old(region), final(region), efgh_word_ops(*self, 0, e_val)),
            r is Ok <==> completes(old(region), efgh_word_ops(*self, 0, e_val)),
    {
        let ghost r0 = *region;
        let ghost all = efgh_word_ops(*self, 0, e_val);
        proof {
            lemma_runs_start(&r0);
            assert(all.take(0) =~= Seq::<RegionOp>::empty());
            assert(all.subrange(0, 4) =~= halves_ops(halves_of(*self, 0, e_val)));
            assert(all.subrange(4, 17) =~= efgh_ops(self.s_decompose_efgh, 0, efgh_of(*self, 0, e_val)));
            assert(all.take(17) =~= all);
        }
        let row = get_decompose_e_row(round_idx);
        let res = self.assign_word_halves(region, row, e_val);
        proof {
            lemma_runs_step(&r0, &r0, &*region, all, 0, 4);
        }
        let (dense_halves, spread_halves) = res?;
        let ghost before = *region;
        let res = self.decompose_efgh(region, row, e_val);
        proof {
            lemma_runs_step(&r0, &before, &*region, all, 4, 13);
        }
        let pieces = res?;
        assert(region.cells@ =~= old(region).cells@ + efgh_word_cells(*self, 0, e_val));
        Ok(RoundWordE { pieces, dense_halves, spread_halves })
    }

    fn decompose_f(&self, region: &mut Region, round_idx: RoundIdx, f_val: Option<u32>) -> (r: Result<RoundWord, Error>)
        ensures
            r is Ok <==> row_fits(old(region), 3),
            r matches Ok(v) ==> {
                &&& v == round_word_of(halves_of(*self, 2, f_val))
                &&& final(region).cells@ == old(region).cells@ + efgh_word_cells(*self, 2, f_val)
                &&& final(region).selectors@ == old(region).selectors@.push((self.s_decompose_efgh, 2usize))
            },
            extends(old(region), final(region)),
            runs(old(region), final(region), efgh_word_ops(*self, 2, f_val)),
            r is Ok <==> completes(old(region), efgh_word_ops(*self, 2, f_val)),
    {
        let ghost r0 = *region;
        let ghost all = efgh_word_ops(*self, 2, f_val);
        proof {
            lemma_runs_start(&r0);
            assert(all.take(0) =~= Seq::<RegionOp>::empty());
            assert(all.subrange(0, 4) =~= halves_ops(halves_of(*self, 2, f_val)));
            assert(all.subrange(4, 17) =~= efgh_ops(self.s_decompose_efgh, 2, efgh_of(*self, 2, f_val)));
            assert(all.take(17) =~= all);
        }
        let row = get_decompose_f_row(round_idx);
        let res = self.assign_word_halves(region, row, f_val);
        proof {
            lemma_runs_step(&r0, &r0, &*region, all, 0, 4);
        }
        let (dense_halves, spread_halves) = res?;
        let ghost before = *region;
        let res = self.decompose_efgh(region, row, f_val);
        proof {
            lemma_runs_step(&r0, &before, &*region, all, 4, 13);
        }
        res?;
        assert(region.cells@ =~= old(region).cells@ + efgh_word_cells(*self, 2, f_val));
        Ok(RoundWord { dense_halves, spread_halves })
    }

    fn decompose_g(&self, region: &mut Region, round_idx: RoundIdx, g_val: Option<u32>) -> (r: Result<RoundWord, Error>)
        ensures
            r is Ok <==> row_fits(old(region), 5),
            r matches Ok(v) ==> {
                &&& v == round_word_of(halves_of(*self, 4, g_val))
                &&& final(region).cells@ == old(region).cells@ + efgh_word_cells(*self, 4, g_val)
                &&& final(region).selectors@ == old(region).selectors@.push((self.s_decompose_efgh, 4usize))
            },
            extends(old(region), final(region)),
            runs(old(region), final(region), efgh_word_ops(*self, 4, g_val)),
            r is Ok <==> completes(old(region), efgh_word_ops(*self, 4, g_val)),
    {
        let ghost r0 = *region;
        let ghost all = efgh_word_ops(*self, 4, g_val);
        proof {
            lemma_runs_start(&r0);
            assert(all.take(0) =~= Seq::<RegionOp>::empty());
            assert(all.subrange(0, 4) =~= halves_ops(halves_of(*self, 4, g_val)));
            assert(all.subrange(4, 17) =~= efgh_ops(self.s_decompose_efgh, 4, efgh_of(*self, 4, g_val)));
            assert(all.take(17) =~= all);
        }
        let row = get_decompose_g_row(round_idx);
        let res = self.assign_word_halves(region, row, g_val);
        proof {
            lemma_runs_step(&r0, &r0, &*region, all, 0, 4);
        }
        let (dense_halves, spread_halves) = res?;
        let ghost before = *region;
        let res = self.decompose_efgh(region, row, g_val);
        proof {
            lemma_runs_step(&r0, &before, &*region, all, 4, 13);
        }
        res?;
        assert(region.cells@ =~= old(region).cells@ + efgh_word_cells(*self, 4, g_val));
        Ok(RoundWord { dense_halves, spread_halves })
    }
}

/// The word of two known halves.
pub open spec fn dense_value(d: RoundWordDense) -> Option<u32> {
    match (d.lo.value, d.hi.value) {
        (Some(lo), Some(hi)) => Some((lo as nat + hi as nat * 0x10000) as u32),
        _ => None,
    }
}

impl RoundWordDense {
    /// The word, where both halves are known.
    pub fn value(&self) -> (r: Option<u32>)
        ensures
            r == dense_value(*self),
    {
        match (self.lo.value, self.hi.value) {
            (Some(lo), Some(hi)) => Some(lo as u32 + (hi as u32) * 0x10000),
            _ => None,
        }
    }
}

/// The initial state of known words `w` (in the order `A` to `H`), laid out
/// in the rows of the initial round.
pub open spec fn init_state_of(cfg: CompressionConfig, w: Seq<Option<u32>>) -> State {
    let a_7 = cfg.extras[3];
    State {
        a: word_a_of(cfg, 8, w[0]),
        b: round_word_of(halves_of(cfg, 10, w[1])),
        c: round_word_of(halves_of(cfg, 12, w[2])),
        d: dense_of(14, a_7, 15, a_7, w[3]),
        e: word_e_of(cfg, 0, w[4]),
        f: round_word_of(halves_of(cfg, 2, w[5])),
        g: round_word_of(halves_of(cfg, 4, w[6])),
        h: dense_of(6, a_7, 7, a_7, w[7]),
    }
}

/// The cells of the initial round, in the order of assignment: `E, F, G, H,
/// A, B, C, D`.
pub open spec fn init_cells(cfg: CompressionConfig, w: Seq<Option<u32>>) -> Seq<(usize, usize, Option<u64>)> {
    let a_7 = cfg.extras[3];
    efgh_word_cells(cfg, 0, w[4]) + efgh_word_cells(cfg, 2, w[5]) + efgh_word_cells(cfg, 4, w[6]) + dense_cells(
        dense_of(6, a_7, 7, a_7, w[7]),
    ) + abcd_word_cells(cfg, 8, w[0]) + abcd_word_cells(cfg, 10, w[1]) + abcd_word_cells(cfg, 12, w[2])
        + dense_cells(dense_of(14, a_7, 15, a_7, w[3]))
}

/// The selectors of the initial round, in the order of enabling.
pub open spec fn init_selectors(cfg: CompressionConfig) -> Seq<(usize, usize)> {
    seq![
        (cfg.s_decompose_efgh, 0usize),
        (cfg.s_decompose_efgh, 2usize),
        (cfg.s_decompose_efgh, 4usize),
        (cfg.s_decompose_abcd, 8usize),
        (cfg.s_decompose_abcd, 10usize),
        (cfg.s_decompose_abcd, 12usize),
    ]
}

/// The operations of the initial round, in order: `E, F, G, H, A, B, C, D`.
pub open spec fn init_ops(cfg: CompressionConfig, w: Seq<Option<u32>>) -> Seq<RegionOp> {
    let a_7 = cfg.extras[3];
    efgh_word_ops(cfg, 0, w[4]) + efgh_word_ops(cfg, 2, w[5]) + efgh_word_ops(cfg, 4, w[6]) + dense_ops(
        dense_of(6, a_7, 7, a_7, w[7]),
    ) + abcd_word_ops(cfg, 8, w[0]) + abcd_word_ops(cfg, 10, w[1]) + abcd_word_ops(cfg, 12, w[2]) + dense_ops(
        dense_of(14, a_7, 15, a_7, w[3]),
    )
}

/// The steps of the initial round within its operations.
proof fn lemma_init_ops_parts(cfg: CompressionConfig, w: Seq<Option<u32>>)
    ensures
        init_ops(cfg, w).len() == 106,
        init_ops(cfg, w).take(0) == Seq::<RegionOp>::empty(),
        init_ops(cfg, w).subrange(0, 17) == efgh_word_ops(cfg, 0, w[4]),
        init_ops(cfg, w).subrange(17, 34) == efgh_word_ops(cfg, 2, w[5]),
        init_ops(cfg, w).subrange(34, 51) == efgh_word_ops(cfg, 4, w[6]),
        init_ops(cfg, w).subrange(51, 53) == dense_ops(dense_of(6, cfg.extras[3], 7, cfg.extras[3], w[7])),
        init_ops(cfg, w).subrange(53, 70) == abcd_word_ops(cfg, 8, w[0]),
        init_ops(cfg, w).subrange(70, 87) == abcd_word_ops(cfg, 10, w[1]),
        init_ops(cfg, w).subrange(87, 104) == abcd_word_ops(cfg, 12, w[2]),
        init_ops(cfg, w).subrange(104, 106) == dense_ops(dense_of(14, cfg.extras[3], 15, cfg.extras[3], w[3])),
        init_ops(cfg, w).take(106) == init_ops(cfg, w),
{
    let all = init_ops(cfg, w);
    assert(all.take(0) =~= Seq::<RegionOp>::empty());
    assert(all.subrange(0, 17) =~= efgh_word_ops(cfg, 0, w[4]));
    assert(all.subrange(17, 34) =~= efgh_word_ops(cfg, 2, w[5]));
    assert(all.subrange(34, 51) =~= efgh_word_ops(cfg, 4, w[6]));
    assert(all.subrange(51, 53) =~= dense_ops(dense_of(6, cfg.extras[3], 7, cfg.extras[3], w[7])));
    assert(all.subrange(53, 70) =~= abcd_word_ops(cfg, 8, w[0]));
    assert(all.subrange(70, 87) =~= abcd_word_ops(cfg, 10, w[1]));
    assert(all.subrange(87, 104) =~= abcd_word_ops(cfg, 12, w[2]));
    assert(all.subrange(104, 106) =~= dense_ops(dense_of(14, cfg.extras[3], 15, cfg.extras[3], w[3])));
    assert(all.take(106) =~= all);
}

/// The words of a state, `A` to `H`, where known.
pub open spec fn state_words(s: State) -> Seq<Option<u32>> {
    seq![
        dense_value(s.a.dense_halves),
        dense_value(s.b.dense_halves),
        dense_value(s.c.dense_halves),
        dense_value(s.d),
        dense_value(s.e.dense_halves),
        dense_value(s.f.dense_halves),
        dense_value(s.g.dense_halves),
        dense_value(s.h),
    ]
}

impl CompressionConfig {
    /// Assigns the initial state `iv` in the initial round.
    #[verifier::rlimit(100)]
    pub fn initialize_iv(&self, region: &mut Region, iv: [u32; 8]) -> (r: Result<State, Error>)
        ensures
            r is Ok <==> row_fits(old(region), 15),
            r matches Ok(s) ==> {
                &&& s == init_state_of(*self, iv@.map_values(|x: u32| Some(x)))
                &&& final(region).cells@ == old(region).cells@ + init_cells(
                    *self,
                    iv@.map_values(|x: u32| Some(x)),
                )
                &&& final(region).selectors@ == old(region).selectors@ + init_selectors(*self)
            },
            extends(old(region), final(region)),
            runs(old(region), final(region), init_ops(*self, iv@.map_values(|x: u32| Some(x)))),
            r is Ok <==> completes(old(region), init_ops(*self, iv@.map_values(|x: u32| Some(x)))),
    {
        let ghost r0 = *region;
        proof {
            lemma_runs_start(&r0);
        }
        let a_7 = self.extras[3];
        let ghost w = iv@.map_values(|x: u32| Some(x));
        proof {
            lemma_init_ops_parts(*self, w);
        }
        assert(w[0] == Some(iv[0]) && w[1] == Some(iv[1]) && w[2] == Some(iv[2]) && w[3] == Some(iv[3]));
        assert(w[4] == Some(iv[4]) && w[5] == Some(iv[5]) && w[6] == Some(iv[6]) && w[7] == Some(iv[7]));

        // Decompose E into (6, 5, 14, 7)-bit chunks
        let ghost before = *region;
        let res = self.decompose_e(region, RoundIdx::Init, Some(iv[4]));
        proof {
            lemma_runs_step(&r0, &before, &*region, init_ops(*self, w), 0, 17);
        }
        let e = res?;

        // Decompose F, G
        let ghost before = *region;
        let res = self.decompose_f(region, RoundIdx::Init, Some(iv[5]));
        proof {
            lemma_runs_step(&r0, &before, &*region, init_ops(*self, w), 17, 17);
        }
        let f = res?;
        let ghost before = *region;
        let res = self.decompose_g(region, RoundIdx::Init, Some(iv[6]));
        proof {
            lemma_runs_step(&r0, &before, &*region, init_ops(*self, w), 34, 17);
        }
        let g = res?;

        // Assign H
        let h_row = get_h_row(RoundIdx::Init);
        let ghost before = *region;
        let res = self.assign_word_halves_dense(region, h_row, a_7, h_row + 1, a_7, Some(iv[7]));
        proof {
            lemma_runs_step(&r0, &before, &*region, init_ops(*self, w), 51, 2);
        }
        let h = res?;

        // Decompose A into (2, 11, 9, 10)-bit chunks
        let ghost before = *region;
        let res = self.decompose_a(region, RoundIdx::Init, Some(iv[0]));
        proof {
            lemma_runs_step(&r0, &before, &*region, init_ops(*self, w), 53, 17);
        }
        let a = res?;

        // Decompose B, C
        let ghost before = *region;
        let res = self.decompose_b(region, RoundIdx::Init, Some(iv[1]));
        proof {
            lemma_runs_step(&r0, &before, &*region, init_ops(*self, w), 70, 17);
        }
        let b = res?;
        let ghost before = *region;
        let res = self.decompose_c(region, RoundIdx::Init, Some(iv[2]));
        proof {
            lemma_runs_step(&r0, &before, &*region, init_ops(*self, w), 87, 17);
        }
        let c = res?;

        // Assign D
        let d_row = get_d_row(RoundIdx::Init);
        let ghost before = *region;
        let res = self.assign_word_halves_dense(region, d_row, a_7, d_row + 1, a_7, Some(iv[3]));
        proof {
            lemma_runs_step(&r0, &before, &*region, init_ops(*self, w), 104, 2);
        }
        let d = res?;

        let s = State { a, b, c, d, e, f, g, h };
        assert(s == init_state_of(*self, w));
        assert(region.cells@ =~= old(region).cells@ + init_cells(*self, w));
        assert(region.selectors@ =~= old(region).selectors@ + init_selectors(*self));
        Ok(s)
    }

    /// Assigns the words of `state` anew in the initial round.
    #[verifier::rlimit(100)]
    pub fn initialize_state(&self, region: &mut Region, state: State) -> (r: Result<State, Error>)
        ensures
            r is Ok <==> row_fits(old(region), 15),
            r matches Ok(s) ==> {
                &&& s == init_state_of(*self, state_words(state))
                &&& final(region).cells@ == old(region).cells@ + init_cells(*self, state_words(state))
                &&& final(region).selectors@ == old(region).selectors@ + init_selectors(*self)
            },
            extends(old(region), final(region)),
            runs(old(region), final(region), init_ops(*self, state_words(state))),
            r is Ok <==> completes(old(region), init_ops(*self, state_words(state))),
    {
        let ghost r0 = *region;
        proof {
            lemma_runs_start(&r0);
        }
        let a_7 = self.extras[3];
        let ghost w = state_words(state);
        proof {
            lemma_init_ops_parts(*self, w);
        }

        // Decompose E into (6, 5, 14, 7)-bit chunks
        let e = state.e.dense_halves.value();
        assert(e == w[4]);
        let ghost before = *region;
        let res = self.decompose_e(region, RoundIdx::Init, e);
        proof {
            lemma_runs_step(&r0, &before, &*region, init_ops(*self, w), 0, 17);
        }
        let e = res?;

        // Decompose F, G
        let f = state.f.dense_halves.value();
        assert(f == w[5]);
        let ghost before = *region;
        let res = self.decompose_f(region, RoundIdx::Init, f);
        proof {
            lemma_runs_step(&r0, &before, &*region, init_ops(*self, w), 17, 17);
        }
        let f = res?;
        let g = state.g.dense_halves.value();
        assert(g == w[6]);
        let ghost before = *region;
        let res = self.decompose_g(region, RoundIdx::Init, g);
        proof {
            lemma_runs_step(&r0, &before, &*region, init_ops(*self, w), 34, 17);
        }
        let g = res?;

        // Assign H
        let h = state.h.value();
        assert(h == w[7]);
        let h_row = get_h_row(RoundIdx::Init);
        let ghost before = *region;
        let res = self.assign_word_halves_dense(region, h_row, a_7, h_row + 1, a_7, h);
        proof {
            lemma_runs_step(&r0, &before, &*region, init_ops(*self, w), 51, 2);
        }
        let h = res?;

        // Decompose A into (2, 11, 9, 10)-bit chunks
        let a = state.a.dense_halves.value();
        assert(a == w[0]);
        let ghost before = *region;
        let res = self.decompose_a(region, RoundIdx::Init, a);
        proof {
            lemma_runs_step(&r0, &before, &*region, init_ops(*self, w), 53, 17);
        }
        let a = res?;

        // Decompose B, C
        let b = state.b.dense_halves.value();
        assert(b == w[1]);
        let ghost before = *region;
        let res = self.decompose_b(region, RoundIdx::Init, b);
        proof {
            lemma_runs_step(&r0, &before, &*region, init_ops(*self, w), 70, 17);
        }
        let b = res?;
        let c = state.c.dense_halves.value();
        assert(c == w[2]);
        let ghost before = *region;
        let res = self.decompose_c(region, RoundIdx::Init, c);
        proof {
            lemma_runs_step(&r0, &before, &*region, init_ops(*self, w), 87, 17);
        }
        let c = res?;

        // Assign D
        let d = state.d.value();
        assert(d == w[3]);
        let d_row = get_d_row(RoundIdx::Init);
        let ghost before = *region;
        let res = self.assign_word_halves_dense(region, d_row, a_7, d_row + 1, a_7, d);
        proof {
            lemma_runs_step(&r0, &before, &*region, init_ops(*self, w), 104, 2);
        }
        let d = res?;

        let s = State { a, b, c, d, e, f, g, h };
        assert(s == init_state_of(*self, w));
        assert(region.cells@ =~= old(region).cells@ + init_cells(*self, w));
        assert(region.selectors@ =~= old(region).selectors@ + init_selectors(*self));
        Ok(s)
    }
}

/// A word is its low half plus its high half times `2^16`.
pub proof fn lemma_halves_recombine(w: u32)
    ensures
        lo16(w) as nat + hi16(w) as nat * 0x10000 == w as nat,
{
    assert((w & 0xffff) as u16 as u32 + ((w >> 16u32) as u16 as u32) * 0x10000u32 == w) by (bit_vector);
}

/// A word `A`, `B`, `C` or `D` is the sum of its (2, 11, 3, 3, 3, 10)-bit
/// chunks, each shifted to its place.
pub proof fn lemma_abcd_recombine(w: u32)
    ensures
        chunk(w, 0, 0x3) as nat + chunk(w, 2, 0x7ff) as nat * 0x4 + chunk(w, 13, 0x7) as nat * 0x2000 + chunk(
            w,
            16,
            0x7,
        ) as nat * 0x10000 + chunk(w, 19, 0x7) as nat * 0x80000 + chunk(w, 22, 0x3ff) as nat * 0x400000
            == w as nat,
{
    assert(((w >> 0u32) & 0x3) as u16 as u64 + ((w >> 2u32) & 0x7ff) as u16 as u64 * 0x4 + ((w >> 13u32) & 0x7) as u16 as u64
        * 0x2000 + ((w >> 16u32) & 0x7) as u16 as u64 * 0x10000 + ((w >> 19u32) & 0x7) as u16 as u64 * 0x80000 + ((w
        >> 22u32) & 0x3ff) as u16 as u64 * 0x400000 == w as u64) by (bit_vector);
}

/// A word `E`, `F`, `G` or `H` is the sum of its (3, 3, 2, 3, 14, 7)-bit
/// chunks, each shifted to its place.
pub proof fn lemma_efgh_recombine(w: u32)
    ensures
        chunk(w, 0, 0x7) as nat + chunk(w, 3, 0x7) as nat * 0x8 + chunk(w, 6, 0x3) as nat * 0x40 + chunk(w, 8, 0x7) as nat
            * 0x100 + chunk(w, 11, 0x3fff) as nat * 0x800 + chunk(w, 25, 0x7f) as nat * 0x2000000 == w as nat,
{
    assert(((w >> 0u32) & 0x7) as u16 as u64 + ((w >> 3u32) & 0x7) as u16 as u64 * 0x8 + ((w >> 6u32) & 0x3) as u16 as u64
        * 0x40 + ((w >> 8u32) & 0x7) as u16 as u64 * 0x100 + ((w >> 11u32) & 0x3fff) as u16 as u64 * 0x800 + ((w
        >> 25u32) & 0x7f) as u16 as u64 * 0x2000000 == w as u64) by (bit_vector);
}

/// The words of an initial state are the words it was assigned from; so
/// assigning a state anew in the initial round gives back the same state.
pub proof fn lemma_reinitialize(cfg: CompressionConfig, w: Seq<Option<u32>>)
    requires
        w.len() == 8,
    ensures
        state_words(init_state_of(cfg, w)) == w,
        init_state_of(cfg, state_words(init_state_of(cfg, w))) == init_state_of(cfg, w),
{
    let a_7 = cfg.extras[3];
    assert forall|i: int, lr: usize, hr: usize| 0 <= i < 8 implies #[trigger] dense_value(dense_of(lr, a_7, hr, a_7, w[i])) == w[i] by {
        if let Some(x) = w[i] {
            lemma_halves_recombine(x);
        }
    }
    assert forall|i: int, row: usize| 0 <= i < 8 implies #[trigger] dense_value(dense_of_halves(halves_of(cfg, row, w[i]))) == w[i] by {
        if let Some(x) = w[i] {
            lemma_halves_recombine(x);
        }
    }
    assert(state_words(init_state_of(cfg, w)) =~= w) by {
        assert(dense_value(dense_of_halves(halves_of(cfg, 8, w[0]))) == w[0]);
        assert(dense_value(dense_of_halves(halves_of(cfg, 10, w[1]))) == w[1]);
        assert(dense_value(dense_of_halves(halves_of(cfg, 12, w[2]))) == w[2]);
        assert(dense_value(dense_of(14, a_7, 15, a_7, w[3])) == w[3]);
        assert(dense_value(dense_of_halves(halves_of(cfg, 0, w[4]))) == w[4]);
        assert(dense_value(dense_of_halves(halves_of(cfg, 2, w[5]))) == w[5]);
        assert(dense_value(dense_of_halves(halves_of(cfg, 4, w[6]))) == w[6]);
        assert(dense_value(dense_of(6, a_7, 7, a_7, w[7])) == w[7]);
    }
}

/// The spread cell of a piece holds the spread form of the whole dense value
/// of the piece, over all sixteen bits of a cell.
pub open spec fn spread_of_dense(p: SpreadVar) -> bool {
    &&& p.dense.value is Some
    &&& p.spread.value == Some(spread(p.dense.value.unwrap() as nat, 16) as u32)
}

/// The dense value of a piece.
pub open spec fn dense_nat(p: SpreadVar) -> nat {
    p.dense.value.unwrap() as nat
}

proof fn lemma_spread_zero(n: nat)
    ensures
        spread(0, n) == 0,
    decreases n,
{
    if n > 0 {
        lemma_spread_zero((n - 1) as nat);
    }
}

/// A value of `k` bits has the same spread form over any `n >= k` bits.
proof fn lemma_spread_extend(x: nat, k: nat, n: nat)
    requires
        x < vstd::arithmetic::power2::pow2(k),
        k <= n,
    ensures
        spread(x, n) == spread(x, k),
    decreases k,
{
    if k == 0 {
        vstd::arithmetic::power2::lemma2_to64();
        lemma_spread_zero(n);
    } else {
        vstd::arithmetic::power2::lemma_pow2_unfold(k);
        lemma_spread_extend(x / 2, (k - 1) as nat, (n - 1) as nat);
    }
}

/// A piece of `bits` bits holding the chunk `c` has the spread form of `c`
/// over all sixteen bits.
proof fn lemma_piece_spread(p: SpreadVar, c: u16, bits: nat)
    requires
        p.dense.value == Some(c),
        p.spread.value == Some(spread(c as nat, bits) as u32),
        c < vstd::arithmetic::power2::pow2(bits),
        bits <= 16,
    ensures
        spread_of_dense(p),
{
    lemma_spread_extend(c as nat, bits, 16);
}

/// The pieces of a word `A`, `B`, `C` or `D` in the initial round: each
/// spread cell holds the spread form of its whole chunk, the chunks are of
/// 2, 11, 3, 3, 3 and 10 bits, and they recombine to the word.
pub proof fn lemma_abcd_pieces(cfg: CompressionConfig, row: usize, w: u32)
    ensures
        spread_of_dense(abcd_of(cfg, row, Some(w)).a),
        spread_of_dense(abcd_of(cfg, row, Some(w)).b),
        spread_of_dense(abcd_of(cfg, row, Some(w)).c_lo),
        spread_of_dense(abcd_of(cfg, row, Some(w)).c_mid),
        spread_of_dense(abcd_of(cfg, row, Some(w)).c_hi),
        spread_of_dense(abcd_of(cfg, row, Some(w)).d),
        dense_nat(abcd_of(cfg, row, Some(w)).a) < 0x4,
        dense_nat(abcd_of(cfg, row, Some(w)).b) < 0x800,
        dense_nat(abcd_of(cfg, row, Some(w)).c_lo) < 0x8,
        dense_nat(abcd_of(cfg, row, Some(w)).c_mid) < 0x8,
        dense_nat(abcd_of(cfg, row, Some(w)).c_hi) < 0x8,
        dense_nat(abcd_of(cfg, row, Some(w)).d) < 0x400,
        dense_nat(abcd_of(cfg, row, Some(w)).a) + dense_nat(abcd_of(cfg, row, Some(w)).b) * 0x4 + dense_nat(
            abcd_of(cfg, row, Some(w)).c_lo,
        ) * 0x2000 + dense_nat(abcd_of(cfg, row, Some(w)).c_mid) * 0x10000 + dense_nat(
            abcd_of(cfg, row, Some(w)).c_hi,
        ) * 0x80000 + dense_nat(abcd_of(cfg, row, Some(w)).d) * 0x400000 == w as nat,
{
    let v = abcd_of(cfg, row, Some(w));
    vstd::arithmetic::power2::lemma2_to64();
    assert(chunk(w, 0, 0x3) < 0x4) by (bit_vector);
    assert(chunk(w, 2, 0x7ff) < 0x800) by (bit_vector);
    assert(chunk(w, 13, 0x7) < 0x8) by (bit_vector);
    assert(chunk(w, 16, 0x7) < 0x8) by (bit_vector);
    assert(chunk(w, 19, 0x7) < 0x8) by (bit_vector);
    assert(chunk(w, 22, 0x3ff) < 0x400) by (bit_vector);
    lemma_piece_spread(v.a, chunk(w, 0, 0x3), 2);
    lemma_piece_spread(v.b, chunk(w, 2, 0x7ff), 11);
    lemma_piece_spread(v.c_lo, chunk(w, 13, 0x7), 3);
    lemma_piece_spread(v.c_mid, chunk(w, 16, 0x7), 3);
    lemma_piece_spread(v.c_hi, chunk(w, 19, 0x7), 3);
    lemma_piece_spread(v.d, chunk(w, 22, 0x3ff), 10);
    lemma_abcd_recombine(w);
}

/// The pieces of a word `E`, `F`, `G` or `H` in the initial round: each
/// spread cell holds the spread form of its whole chunk, the chunks are of
/// 3, 3, 2, 3, 14 and 7 bits, and they recombine to the word.
pub proof fn lemma_efgh_pieces(cfg: CompressionConfig, row: usize, w: u32)
    ensures
        spread_of_dense(efgh_of(cfg, row, Some(w)).a_lo),
        spread_of_dense(efgh_of(cfg, row, Some(w)).a_hi),
        spread_of_dense(efgh_of(cfg, row, Some(w)).b_lo),
        spread_of_dense(efgh_of(cfg, row, Some(w)).b_hi),
        spread_of_dense(efgh_of(cfg, row, Some(w)).c),
        spread_of_dense(efgh_of(cfg, row, Some(w)).d),
        dense_nat(efgh_of(cfg, row, Some(w)).a_lo) < 0x8,
        dense_nat(efgh_of(cfg, row, Some(w)).a_hi) < 0x8,
        dense_nat(efgh_of(cfg, row, Some(w)).b_lo) < 0x4,
        dense_nat(efgh_of(cfg, row, Some(w)).b_hi) < 0x8,
        dense_nat(efgh_of(cfg, row, Some(w)).c) < 0x4000,
        dense_nat(efgh_of(cfg, row, Some(w)).d) < 0x80,
        dense_nat(efgh_of(cfg, row, Some(w)).a_lo) + dense_nat(efgh_of(cfg, row, Some(w)).a_hi) * 0x8 + dense_nat(
            efgh_of(cfg, row, Some(w)).b_lo,
        ) * 0x40 + dense_nat(efgh_of(cfg, row, Some(w)).b_hi) * 0x100 + dense_nat(efgh_of(cfg, row, Some(w)).c)
            * 0x800 + dense_nat(efgh_of(cfg, row, Some(w)).d) * 0x2000000 == w as nat,
{
    let v = efgh_of(cfg, row, Some(w));
    vstd::arithmetic::power2::lemma2_to64();
    assert(chunk(w, 0, 0x7) < 0x8) by (bit_vector);
    assert(chunk(w, 3, 0x7) < 0x8) by (bit_vector);
    assert(chunk(w, 6, 0x3) < 0x4) by (bit_vector);
    assert(chunk(w, 8, 0x7) < 0x8) by (bit_vector);
    assert(chunk(w, 11, 0x3fff) < 0x4000) by (bit_vector);
    assert(chunk(w, 25, 0x7f) < 0x80) by (bit_vector);
    lemma_piece_spread(v.a_lo, chunk(w, 0, 0x7), 3);
    lemma_piece_spread(v.a_hi, chunk(w, 3, 0x7), 3);
    lemma_piece_spread(v.b_lo, chunk(w, 6, 0x3), 2);
    lemma_piece_spread(v.b_hi, chunk(w, 8, 0x7), 3);
    lemma_piece_spread(v.c, chunk(w, 11, 0x3fff), 14);
    lemma_piece_spread(v.d, chunk(w, 25, 0x7f), 7);
    lemma_efgh_recombine(w);
}

/// The halves of an assigned word: each spread half is the spread form of
/// its whole 16-bit dense half, and the dense halves recombine to the word.
pub proof fn lemma_word_halves(cfg: CompressionConfig, row: usize, w: u32)
    ensures
        spread_of_dense(halves_of(cfg, row, Some(w)).0),
        spread_of_dense(halves_of(cfg, row, Some(w)).1),
        dense_nat(halves_of(cfg, row, Some(w)).0) + dense_nat(halves_of(cfg, row, Some(w)).1) * 0x10000
            == w as nat,
{
    let h = halves_of(cfg, row, Some(w));
    vstd::arithmetic::power2::lemma2_to64();
    lemma_piece_spread(h.0, lo16(w), 16);
    lemma_piece_spread(h.1, hi16(w), 16);
    lemma_halves_recombine(w);
}

} // verus!
