use halo2_core::sha256::{spread_bits, CompressionConfig, Error, Region, SpreadInputs};

const IV: [u32; 8] = [
    0x6a09e667, 0xbb67ae85, 0x3c6ef372, 0xa54ff53a, 0x510e527f, 0x9b05688c, 0x1f83d9ab, 0x5be0cd19,
];

fn config() -> CompressionConfig {
    CompressionConfig {
        lookup: SpreadInputs { tag: 0, dense: 1, spread: 2 },
        message_schedule: 5,
        extras: [3, 4, 6, 7, 8, 9],
        s_decompose_abcd: 20,
        s_decompose_efgh: 21,
    }
}

/// The bits of `x`, each followed by a zero bit.
fn spread(x: u32) -> u32 {
    let mut r = 0u32;
    for i in 0..16 {
        r |= ((x >> i) & 1) << (2 * i);
    }
    r
}

#[test]
fn spread_interleaves_zeros() {
    assert_eq!(spread_bits(0b1011, 4), 0b0100_0101);
    assert_eq!(spread_bits(0xffff, 16), 0x5555_5555);
    assert_eq!(spread_bits(0xffff, 3), 0b01_0101);
}

#[test]
fn initialize_iv_assigns_each_word() {
    let cfg = config();
    let mut region = Region::new(0, 64);
    let state = cfg.initialize_iv(&mut region, IV).unwrap();
    assert_eq!(state.a.dense_halves.value(), Some(IV[0]));
    assert_eq!(state.b.dense_halves.value(), Some(IV[1]));
    assert_eq!(state.c.dense_halves.value(), Some(IV[2]));
    assert_eq!(state.d.value(), Some(IV[3]));
    assert_eq!(state.e.dense_halves.value(), Some(IV[4]));
    assert_eq!(state.f.dense_halves.value(), Some(IV[5]));
    assert_eq!(state.g.dense_halves.value(), Some(IV[6]));
    assert_eq!(state.h.value(), Some(IV[7]));
}

#[test]
fn initialize_iv_lays_out_the_rows() {
    let cfg = config();
    let mut region = Region::new(0, 64);
    let state = cfg.initialize_iv(&mut region, IV).unwrap();
    assert_eq!((state.e.dense_halves.lo.row, state.e.dense_halves.hi.row), (0, 1));
    assert_eq!(state.f.dense_halves.lo.row, 2);
    assert_eq!(state.g.dense_halves.lo.row, 4);
    assert_eq!((state.h.lo.row, state.h.hi.row, state.h.lo.column, state.h.hi.column), (6, 7, 7, 7));
    assert_eq!(state.a.dense_halves.lo.row, 8);
    assert_eq!(state.b.dense_halves.lo.row, 10);
    assert_eq!(state.c.dense_halves.lo.row, 12);
    assert_eq!((state.d.lo.row, state.d.hi.row, state.d.lo.column), (14, 15, 7));
    // Six decomposed words of 16 cells, two dense words of 2 cells.
    assert_eq!(region.cells.len(), 100);
    assert_eq!(region.selectors, vec![(21, 0), (21, 2), (21, 4), (20, 8), (20, 10), (20, 12)]);
    assert!(region.cells.iter().all(|(_, row, _)| *row < 16));
}

#[test]
fn initialize_iv_decomposes_a_and_e() {
    let cfg = config();
    let mut region = Region::new(0, 64);
    let state = cfg.initialize_iv(&mut region, IV).unwrap();
    let a = IV[0];
    let p = &state.a.pieces;
    assert_eq!(p.a.dense.value, Some((a & 0x3) as u16));
    assert_eq!(p.b.dense.value, Some(((a >> 2) & 0x7ff) as u16));
    assert_eq!(p.c_lo.dense.value, Some(((a >> 13) & 0x7) as u16));
    assert_eq!(p.c_mid.dense.value, Some(((a >> 16) & 0x7) as u16));
    assert_eq!(p.c_hi.dense.value, Some(((a >> 19) & 0x7) as u16));
    assert_eq!(p.d.dense.value, Some((a >> 22) as u16));
    assert_eq!(p.b.spread.value, Some(spread((a >> 2) & 0x7ff)));
    assert_eq!(p.d.spread.value, Some(spread(a >> 22)));
    let e = IV[4];
    let q = &state.e.pieces;
    assert_eq!(q.a_lo.dense.value, Some((e & 0x7) as u16));
    assert_eq!(q.a_hi.dense.value, Some(((e >> 3) & 0x7) as u16));
    assert_eq!(q.b_lo.dense.value, Some(((e >> 6) & 0x3) as u16));
    assert_eq!(q.b_hi.dense.value, Some(((e >> 8) & 0x7) as u16));
    assert_eq!(q.c.dense.value, Some(((e >> 11) & 0x3fff) as u16));
    assert_eq!(q.d.dense.value, Some((e >> 25) as u16));
    assert_eq!(q.c.spread.value, Some(spread((e >> 11) & 0x3fff)));
    assert_eq!(state.e.spread_halves.lo.value, Some(spread(e & 0xffff)));
    assert_eq!(state.e.spread_halves.hi.value, Some(spread(e >> 16)));
}

#[test]
fn initialize_iv_needs_sixteen_rows() {
    let cfg = config();
    let mut region = Region::new(0, 15);
    assert_eq!(cfg.initialize_iv(&mut region, IV), Err(Error::NotEnoughRowsAvailable));
    let mut region = Region::new(1, 16);
    assert_eq!(cfg.initialize_iv(&mut region, IV), Err(Error::NotEnoughRowsAvailable));
    let mut region = Region::new(4, 20);
    assert!(cfg.initialize_iv(&mut region, IV).is_ok());
}

#[test]
fn initialize_state_reassigns_the_same_state() {
    let cfg = config();
    let mut r1 = Region::new(0, 64);
    let s1 = cfg.initialize_iv(&mut r1, IV).unwrap();
    let mut r2 = Region::new(0, 64);
    let s2 = cfg.initialize_state(&mut r2, s1).unwrap();
    assert_eq!(s1, s2);
    assert_eq!(r1.cells, r2.cells);
    assert_eq!(r1.selectors, r2.selectors);
}

#[test]
fn initialize_state_with_an_unknown_word() {
    let cfg = config();
    let mut r1 = Region::new(0, 64);
    let mut s1 = cfg.initialize_iv(&mut r1, IV).unwrap();
    s1.b.dense_halves.hi.value = None;
    let mut r2 = Region::new(0, 64);
    let s2 = cfg.initialize_state(&mut r2, s1).unwrap();
    assert_eq!(s2.b.dense_halves.value(), None);
    assert_eq!(s2.b.spread_halves.lo.value, None);
    assert_eq!(s2.a.dense_halves.value(), Some(IV[0]));
    assert_eq!(r2.cells.iter().filter(|(_, _, v)| v.is_none()).count(), 16);
}

#[test]
fn initialize_iv_keeps_the_steps_before_a_failure() {
    let cfg = config();
    // Rows 0 and 1 hold E; F starts at row 2, which does not fit.
    let mut region = Region::new(0, 2);
    assert_eq!(cfg.initialize_iv(&mut region, IV), Err(Error::NotEnoughRowsAvailable));
    assert_eq!(region.cells.len(), 16);
    assert!(region.cells.iter().all(|(_, row, _)| *row < 2));
    assert_eq!(region.selectors, vec![(cfg.s_decompose_efgh, 0)]);
    // A failing `initialize_state` of the same words leaves the same cells.
    let mut full = Region::new(0, 64);
    let state = cfg.initialize_iv(&mut full, IV).unwrap();
    let mut again = Region::new(0, 2);
    assert_eq!(cfg.initialize_state(&mut again, state), Err(Error::NotEnoughRowsAvailable));
    assert_eq!(again.cells, region.cells);
    assert_eq!(again.selectors, region.selectors);
}
