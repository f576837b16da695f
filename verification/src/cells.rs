//! Cell arithmetic: HEALPix `uniq` cells and their sub-cells, and time
//! indices at a given depth of a time MOC.

use vstd::prelude::*;
use vstd::arithmetic::power2::{
    pow2,
    lemma_pow2_adds,
    lemma_pow2_pos,
    lemma_pow2_strictly_increases,
    lemma2_to64,
};
use vstd::arithmetic::div_mod::{
    lemma_div_is_ordered,
    lemma_fundamental_div_mod,
    lemma_mod_pos_bound,
};
use vstd::bits::{lemma_u64_pow2_no_overflow, lemma_u64_shl_is_mul, lemma_u64_shr_is_div};

use moc::qty::{Hpx, MocQty, Time};

use crate::lines::LineError;

verus! {

/// The largest depth of a time MOC on `u64` indices.
pub const TIME_DEPTH_MAX: u8 = 61;

/// `uniq` is the HEALPix "uniq" number of a cell at depth `d`:
/// `4^(d+1) <= uniq < 4^(d+2)`.
pub open spec fn uniq_at_depth(uniq: nat, d: nat) -> bool {
    pow2(2 * d + 2) <= uniq < pow2(2 * d + 4)
}

/// The depth of the cell whose uniq number is `uniq`.
pub open spec fn uniq_depth(uniq: nat) -> nat {
    choose|d: nat| uniq_at_depth(uniq, d)
}

/// The index, among the cells of its depth, of the cell whose uniq number
/// is `uniq`.
pub open spec fn uniq_index(uniq: nat) -> int {
    uniq - pow2((2 * uniq_depth(uniq) + 2) as nat)
}

/// A uniq number names at most one depth.
pub proof fn lemma_uniq_depth_unique(uniq: nat, d1: nat, d2: nat)
    requires
        uniq_at_depth(uniq, d1),
        uniq_at_depth(uniq, d2),
    ensures
        d1 == d2,
{
    if d1 < d2 {
        if 2 * d1 + 4 < 2 * d2 + 2 {
            lemma_pow2_strictly_increases(2 * d1 + 4, 2 * d2 + 2);
        }
    } else if d2 < d1 {
        if 2 * d2 + 4 < 2 * d1 + 2 {
            lemma_pow2_strictly_increases(2 * d2 + 4, 2 * d1 + 2);
        }
    }
}

/// `moc::qty::Hpx::<u64>::from_uniq_hpx`: the depth `d` and the index of the
/// cell coded by `uniq`, where `4^(d+1) <= uniq < 4^(d+2)` and the index is
/// `uniq - 4^(d+1)`. It panics (subtraction overflow) on `uniq < 4`.
#[verifier::external_body]
fn hpx_from_uniq(uniq: u64) -> (r: (u8, u64))
    requires
        uniq >= 4,
    ensures
        uniq_at_depth(uniq as nat, r.0 as nat),
        r.1 == uniq - pow2((2 * r.0 + 2) as nat),
{
    Hpx::<u64>::from_uniq_hpx(uniq)
}

/// `moc::qty::Time::<u64>::shift_from_depth_max`: the number of bits that
/// separate a time index at `depth` from one at the largest depth, that is
/// `61 - depth`. It panics (subtraction overflow) on a depth above 61.
#[verifier::external_body]
fn time_shift_from_depth_max(depth: u8) -> (r: u8)
    requires
        depth <= TIME_DEPTH_MAX,
    ensures
        r == TIME_DEPTH_MAX - depth,
{
    Time::<u64>::shift_from_depth_max(depth)
}

/// The shift `(2 * d) mod 256` that a `u8` doubling of `d` yields.
pub open spec fn doubled_u8(d: int) -> nat {
    ((2 * d) % 256) as nat
}

/// The number of cells at `depth` in each of the 12 base cells:
/// `1 << (depth << 1)`, with the doubling computed on `u8`.
pub open spec fn cells_per_base_cell_spec(depth: u8) -> nat {
    pow2(doubled_u8(depth as int))
}

/// The number of sub-cells at `depth` of a cell at `cell_depth`:
/// `1 << ((depth - cell_depth) << 1)`, the doubling computed on `u8`.
pub open spec fn sub_cells_spec(cell_depth: u8, depth: u8) -> nat {
    pow2(doubled_u8(depth - cell_depth))
}

/// The number of cells at `depth` inside one base cell (`4^depth` for a
/// depth up to 31).
pub fn cells_per_base_cell(depth: u8) -> (r: u64)
    requires
        doubled_u8(depth as int) < 64,
    ensures
        r == cells_per_base_cell_spec(depth),
{
    let sh: u32 = ((depth as u32) * 2) % 256;
    proof {
        lemma_u64_pow2_no_overflow(sh as nat);
        lemma_u64_shl_is_mul(1, sh as u64);
    }
    1u64 << (sh as u64)
}

/// The depth of the cell whose uniq number is `uniq`.
pub fn cell_depth(uniq: u64) -> (d: u8)
    requires
        uniq >= 4,
    ensures
        d == uniq_depth(uniq as nat),
        uniq_at_depth(uniq as nat, d as nat),
{
    let (d, _idx) = hpx_from_uniq(uniq);
    proof {
        let e = uniq_depth(uniq as nat);
        assert(uniq_at_depth(uniq as nat, e));
        lemma_uniq_depth_unique(uniq as nat, e, d as nat);
    }
    d
}

/// What a cell of a valued-cells line gives: its depth, and the number of
/// its sub-cells at `depth`; a cell deeper than `depth` is refused.
pub open spec fn cell_sub_cells_spec(uniq: u64, depth: u8) -> Result<(u8, u64), LineError> {
    let cd = uniq_depth(uniq as nat);
    if cd > depth {
        Err(LineError::CellTooDeep { cell_depth: cd as u8, depth })
    } else {
        Ok((cd as u8, sub_cells_spec(cd as u8, depth) as u64))
    }
}

/// The depth of the cell `uniq` and its number of sub-cells at `depth`,
/// or `CellTooDeep` where the cell is deeper than `depth`.
pub fn cell_sub_cells(uniq: u64, depth: u8) -> (r: Result<(u8, u64), LineError>)
    requires
        uniq >= 4,
        uniq_depth(uniq as nat) <= depth ==> doubled_u8(depth - uniq_depth(uniq as nat)) < 64,
    ensures
        r == cell_sub_cells_spec(uniq, depth),
        r matches Ok((cd, n)) ==> uniq_at_depth(uniq as nat, cd as nat) && cd <= depth,
{
    let cd = cell_depth(uniq);
    if cd > depth {
        return Err(LineError::CellTooDeep { cell_depth: cd, depth });
    }
    let dd: u8 = depth - cd;
    let sh: u32 = ((dd as u32) * 2) % 256;
    proof {
        lemma_u64_pow2_no_overflow(sh as nat);
        lemma_u64_shl_is_mul(1, sh as u64);
        lemma_pow2_pos(sh as nat);
    }
    let n: u64 = 1u64 << (sh as u64);
    Ok((cd, n))
}

/// The shift between a time index at depth `tdepth` and a time value in
/// microseconds: `61 - tdepth`.
pub fn time_shift(tdepth: u8) -> (r: u32)
    requires
        tdepth <= TIME_DEPTH_MAX,
    ensures
        r == TIME_DEPTH_MAX - tdepth,
{
    time_shift_from_depth_max(tdepth) as u32
}

/// The index of the time cell holding `time_us` at the depth whose shift is
/// `shift`: `time_us >> shift`.
pub fn time_index(time_us: u64, shift: u32) -> (r: u64)
    requires
        shift < 64,
    ensures
        r == time_us as nat / pow2(shift as nat),
{
    proof {
        lemma_u64_shr_is_div(time_us, shift as u64);
    }
    time_us >> (shift as u64)
}

// ---------------------------------------------------------------------------
// Laws
// ---------------------------------------------------------------------------

/// Every number from 4 on is the uniq number of exactly one cell, and the
/// index of that cell is one of the `12 * 4^d` cells of its depth `d`.
pub proof fn law_uniq_names_one_cell(uniq: nat)
    requires
        uniq >= 4,
    ensures
        uniq_at_depth(uniq, uniq_depth(uniq)),
        0 <= uniq_index(uniq) < 12 * pow2(2 * uniq_depth(uniq)),
{
    lemma_uniq_has_depth(uniq);
    let d = uniq_depth(uniq);
    lemma_pow2_adds(2 * d, 2);
    lemma_pow2_adds(2 * d, 4);
    lemma2_to64();
}

proof fn lemma_uniq_has_depth(uniq: nat)
    requires
        uniq >= 4,
    ensures
        exists|d: nat| uniq_at_depth(uniq, d),
    decreases uniq,
{
    lemma2_to64();
    if uniq < 16 {
        assert(uniq_at_depth(uniq, 0));
    } else {
        let q = uniq / 4;
        lemma_uniq_has_depth(q);
        let d = choose|d: nat| uniq_at_depth(q, d);
        lemma_pow2_adds(2 * d + 2, 2);
        lemma_pow2_adds(2 * d + 4, 2);
        assert(uniq_at_depth(uniq, d + 1));
    }
}

/// A cell splits exactly into its sub-cells: for depths up to 31, the
/// sub-cells at `depth` of a cell at `cell_depth`, times the cells at
/// `cell_depth` in a base cell, are the cells at `depth` in a base cell.
pub proof fn law_sub_cells_partition(cell_depth: u8, depth: u8)
    requires
        cell_depth <= depth <= 31,
    ensures
        sub_cells_spec(cell_depth, depth) * cells_per_base_cell_spec(cell_depth)
            == cells_per_base_cell_spec(depth),
{
    assert(doubled_u8(depth - cell_depth) == 2 * (depth - cell_depth));
    assert(doubled_u8(cell_depth as int) == 2 * cell_depth);
    assert(doubled_u8(depth as int) == 2 * depth);
    lemma_pow2_adds((2 * (depth - cell_depth)) as nat, (2 * cell_depth) as nat);
}

/// A time index names the cell that holds the time: the cell of index `i`
/// covers the times from `i * 2^shift` to `(i + 1) * 2^shift` (excluded),
/// and later times never get a smaller index.
pub proof fn law_time_index_cell(t: u64, u: u64, shift: u32)
    requires
        shift < 64,
    ensures
        (t as nat / pow2(shift as nat)) * pow2(shift as nat) <= t,
        t < (t as nat / pow2(shift as nat) + 1) * pow2(shift as nat),
        t <= u ==> t as nat / pow2(shift as nat) <= u as nat / pow2(shift as nat),
{
    let p = pow2(shift as nat) as int;
    lemma_pow2_pos(shift as nat);
    lemma_fundamental_div_mod(t as int, p);
    lemma_mod_pos_bound(t as int, p);
    assert((t as int / p) * p == p * (t as int / p)) by (nonlinear_arith);
    assert((t as int / p + 1) * p == p * (t as int / p) + p) by (nonlinear_arith);
    if t <= u {
        lemma_div_is_ordered(t as int, u as int, p);
    }
}

/// A base cell holds one cell at depth 0 and four times more at each next
/// depth: `4^depth` cells, for depths up to 31.
pub proof fn law_cells_per_base_cell_power_of_four(depth: u8)
    requires
        depth <= 31,
    ensures
        cells_per_base_cell_spec(depth) == pow2((2 * depth) as nat),
        depth == 0 ==> cells_per_base_cell_spec(depth) == 1,
        depth < 31 ==> cells_per_base_cell_spec((depth + 1) as u8) == 4
            * cells_per_base_cell_spec(depth),
{
    lemma2_to64();
    assert(doubled_u8(depth as int) == 2 * depth);
    if depth < 31 {
        assert(doubled_u8((depth + 1) as u8 as int) == 2 * depth + 2);
        lemma_pow2_adds((2 * depth) as nat, 2);
    }
}

/// A cell has one sub-cell at its own depth and four times more at each next
/// depth: `4^(depth - cell_depth)` sub-cells, for depths up to 31.
pub proof fn law_sub_cells_power_of_four(cell_depth: u8, depth: u8)
    requires
        cell_depth <= depth <= 31,
    ensures
        sub_cells_spec(cell_depth, depth) == pow2((2 * (depth - cell_depth)) as nat),
        sub_cells_spec(cell_depth, cell_depth) == 1,
        depth < 31 ==> sub_cells_spec(cell_depth, (depth + 1) as u8) == 4 * sub_cells_spec(
            cell_depth,
            depth,
        ),
{
    lemma2_to64();
    assert(doubled_u8(depth - cell_depth) == 2 * (depth - cell_depth));
    assert(doubled_u8(cell_depth - cell_depth) == 0);
    if depth < 31 {
        assert(doubled_u8((depth + 1) as u8 - cell_depth) == 2 * (depth - cell_depth) + 2);
        lemma_pow2_adds((2 * (depth - cell_depth)) as nat, 2);
    }
}

/// A valued cell read at a MOC depth up to 31 is either refused as deeper
/// than the MOC, or has the depth `d` of its uniq number
/// (`4^(d+1) <= uniq < 4^(d+2)`) and `4^(depth - d)` sub-cells.
pub proof fn law_cell_sub_cells_counts(uniq: u64, depth: u8)
    requires
        uniq >= 4,
        depth <= 31,
    ensures
        cell_sub_cells_spec(uniq, depth) matches Ok((cd, n)) ==> (cd <= depth && pow2(
            (2 * cd + 2) as nat,
        ) <= uniq && uniq < pow2((2 * cd + 4) as nat) && n == pow2((2 * (depth - cd)) as nat)),
        cell_sub_cells_spec(uniq, depth) matches Err(e) ==> (e == (LineError::CellTooDeep {
            cell_depth: uniq_depth(uniq as nat) as u8,
            depth,
        }) && uniq >= pow2((2 * depth + 4) as nat)),
{
    law_uniq_names_one_cell(uniq as nat);
    let d = uniq_depth(uniq as nat);
    if d <= depth {
        law_sub_cells_power_of_four(d as u8, depth);
        lemma_pow2_pos((2 * (depth - d)) as nat);
        lemma_u64_pow2_no_overflow((2 * (depth - d)) as nat);
    } else {
        if 2 * depth + 4 < 2 * d + 2 {
            lemma_pow2_strictly_increases((2 * depth + 4) as nat, (2 * d + 2) as nat);
        }
    }
}

} // verus!
