use moc::qty::{Hpx, MocQty, Time};
use moc_cli::cells::{cell_depth, cell_sub_cells, cells_per_base_cell, time_index, time_shift};
use moc_cli::lines::LineError;

#[test]
fn cells_per_base_cell_values() {
    assert_eq!(cells_per_base_cell(0), 1);
    assert_eq!(cells_per_base_cell(1), 4);
    assert_eq!(cells_per_base_cell(3), 64);
    assert_eq!(cells_per_base_cell(29), 1u64 << 58);
    // The doubling is computed on u8, as `1_u64 << (depth << 1)` does.
    assert_eq!(cells_per_base_cell(130), 16);
}

#[test]
fn cell_sub_cells_of_base_and_deeper_cells() {
    // uniq 4 is the first base cell (depth 0).
    assert_eq!(cell_sub_cells(4, 0), Ok((0, 1)));
    assert_eq!(cell_sub_cells(15, 2), Ok((0, 16)));
    // uniq 16 is the first cell at depth 1.
    assert_eq!(cell_sub_cells(16, 3), Ok((1, 16)));
    assert_eq!(cell_sub_cells(63, 1), Ok((1, 1)));
    assert_eq!(cell_sub_cells(64, 8), Ok((2, 1 << 12)));
}

#[test]
fn cell_too_deep_is_refused() {
    assert_eq!(cell_sub_cells(16, 0), Err(LineError::CellTooDeep { cell_depth: 1, depth: 0 }));
    assert_eq!(cell_sub_cells(u64::MAX, 29), Err(LineError::CellTooDeep { cell_depth: 30, depth: 29 }));
}

#[test]
fn cell_depth_agrees_with_moc() {
    for uniq in [4u64, 5, 15, 16, 17, 63, 64, 1000, 123456789, u64::MAX / 3, u64::MAX].iter() {
        let (d, _) = Hpx::<u64>::from_uniq_hpx(*uniq);
        match cell_sub_cells(*uniq, 30) {
            Ok((cd, n)) => {
                assert_eq!(cd, d);
                assert_eq!(n, 1u64 << (2 * (30 - d as u32)));
            }
            Err(e) => panic!("unexpected {:?}", e),
        }
    }
}

#[test]
fn sub_cells_partition_the_cell() {
    for depth in 0u8..=29 {
        for cd in 0..=depth {
            let uniq = 4u64 << (2 * cd as u32);
            let (_, n) = cell_sub_cells(uniq, depth).unwrap();
            assert_eq!(n * cells_per_base_cell(cd), cells_per_base_cell(depth));
        }
    }
}

#[test]
fn time_shift_values() {
    assert_eq!(time_shift(61), 0);
    assert_eq!(time_shift(0), 61);
    assert_eq!(time_shift(24), 37);
    assert_eq!(time_shift(35) as u8, Time::<u64>::shift_from_depth_max(35));
}

#[test]
fn time_index_values() {
    assert_eq!(time_index(1000, 3), 125);
    assert_eq!(time_index(1000, 0), 1000);
    assert_eq!(time_index(u64::MAX, 63), 1);
    let shift = time_shift(24);
    let t = 211_000_000_000_000_000u64;
    let i = time_index(t, shift);
    assert!(i << shift <= t && t < (i + 1) << shift);
}

#[test]
fn time_index_is_monotone() {
    let shift = time_shift(30);
    let mut prev = 0;
    for t in (0u64..10_000_000_000).step_by(777_777_777) {
        let i = time_index(t, shift);
        assert!(prev <= i);
        prev = i;
    }
}

#[test]
fn each_uniq_names_one_cell_of_its_depth() {
    for uniq in [4u64, 15, 16, 63, 64, 255, 256, 1 << 40, (1 << 42) - 1, u64::MAX].iter() {
        let d = cell_depth(*uniq) as u32;
        let first = 4u64 << (2 * d);
        assert!(first <= *uniq);
        assert!(*uniq - first < 12u64 << (2 * d));
        assert_eq!(Hpx::<u64>::from_uniq_hpx(*uniq), (d as u8, *uniq - first));
    }
}
