//! Cell geometry: the x boundaries of a cell's columns and the width they
//! add up to, and the rows of one machine column with the reserved pole rows
//! folded in between groups of machines.
use vstd::prelude::*;

use crate::layout::cell::CellTopology;
use crate::prototype::{Direction, EntityPrototype, Frac};

verus! {

/// Every x boundary of a cell, relative to the cell's own `x = 0`: the
/// left gutter, machine column and right gutter of column A, the spine, the
/// same three for column B, the right edge belts, and the total width.
#[derive(Debug, Clone, Copy, PartialEq, Eq)]
pub struct XLayout {
    pub gutter_a_left: i32,
    pub col_a_x0: i32,
    pub gutter_a_right: i32,
    pub spine_x0: i32,
    pub gutter_b_left: i32,
    pub col_b_x0: i32,
    pub gutter_b_right: i32,
    pub right_edge_x0: i32,
    pub width: i32,
}

/// A cell's width: its own left edge belts when it owns them, a gutter, a
/// machine column, a gutter, the spine, and the mirror image, then the right
/// edge belts.
pub open spec fn spec_cell_width(mw: int, topo: CellTopology, edge_left: bool) -> int {
    (if edge_left { topo.edge_belts as int } else { 0 }) + 2 * mw + topo.spine_belts + topo.edge_belts + 4
}

/// The widths fit in an `i32`.
pub open spec fn x_layout_fits(mw: int, topo: CellTopology) -> bool {
    2 * mw + 2 * topo.edge_belts + topo.spine_belts + 4 <= i32::MAX
}

/// The column boundaries of a cell with machines `mw` tiles wide.
pub fn x_layout(mw: u32, topo: &CellTopology, edge_left: bool) -> (res: XLayout)
    requires
        x_layout_fits(mw as int, *topo),
    ensures
        res.gutter_a_left == (if edge_left { topo.edge_belts as int } else { 0 }),
        res.col_a_x0 == res.gutter_a_left + 1,
        res.gutter_a_right == res.col_a_x0 + mw,
        res.spine_x0 == res.gutter_a_right + 1,
        res.gutter_b_left == res.spine_x0 + topo.spine_belts,
        res.col_b_x0 == res.gutter_b_left + 1,
        res.gutter_b_right == res.col_b_x0 + mw,
        res.right_edge_x0 == res.gutter_b_right + 1,
        res.width == res.right_edge_x0 + topo.edge_belts,
        res.width == spec_cell_width(mw as int, *topo, edge_left),
{
    let e = topo.edge_belts as i32;
    let s = topo.spine_belts as i32;
    let gutter_a_left = if edge_left { e } else { 0 };
    let col_a_x0 = gutter_a_left + 1;
    let gutter_a_right = col_a_x0 + mw as i32;
    let spine_x0 = gutter_a_right + 1;
    let gutter_b_left = spine_x0 + s;
    let col_b_x0 = gutter_b_left + 1;
    let gutter_b_right = col_b_x0 + mw as i32;
    let right_edge_x0 = gutter_b_right + 1;
    let width = right_edge_x0 + e;
    XLayout {
        gutter_a_left,
        col_a_x0,
        gutter_a_right,
        spine_x0,
        gutter_b_left,
        col_b_x0,
        gutter_b_right,
        right_edge_x0,
        width,
    }
}

/// The width a cell of `machine` occupies, before anything is placed, so a
/// tiler can decide where a band wraps without a trial placement.
pub fn cell_width(machine: &EntityPrototype, topo: &CellTopology, edge_left: bool) -> (res: u32)
    requires
        machine.wf(),
    ensures
        res == spec_cell_width(machine.spec_effective_size(Direction::North).0 as int, *topo, edge_left),
{
    let (mw, _) = machine.effective_size(Direction::North);
    x_layout(mw, topo, edge_left).width as u32
}

/// Machines between two reserved pole rows: a pole reaching `d` tiles each
/// way covers `2 * floor(d)` rows, divided by the machine height, at least 1
/// (and at most `u32::MAX`, beyond which no column is long enough to tell).
pub open spec fn spec_pole_period(d: Frac, mh: int) -> int {
    let f = if d.spec_floor() < 0 { 0 } else { d.spec_floor() };
    let p = (2 * f) / mh;
    if p < 1 {
        1
    } else if p > u32::MAX {
        u32::MAX as int
    } else {
        p
    }
}

/// Machines between two consecutive reserved pole rows, from the pole's
/// supply half-width `supply_area_distance` and the machine height `mh`.
pub fn pole_period(supply_area_distance: Frac, mh: u32) -> (res: u32)
    requires
        supply_area_distance.wf(),
        mh >= 1,
    ensures
        res == spec_pole_period(supply_area_distance, mh as int),
        res >= 1,
{
    let f = supply_area_distance.floor();
    let whole: i128 = if f < 0 { 0 } else { f as i128 };
    let p: i128 = (2 * whole) / (mh as i128);
    if p < 1 {
        1
    } else if p > u32::MAX as i128 {
        u32::MAX
    } else {
        p as u32
    }
}

/// The row, from a column's own `y = 0`, where machine `i` starts: `mh`
/// rows per machine plus one reserved row before every group of `period`
/// machines, the first group included.
pub open spec fn spec_row_offset(i: int, mh: int, period: int) -> int {
    i * mh + 1 + i / period
}

/// Where machine `i` of a column starts.
pub fn machine_row_offset(i: u32, mh: u32, period: u32) -> (res: u64)
    requires
        period >= 1,
    ensures
        res == spec_row_offset(i as int, mh as int, period as int),
{
    proof {
        assert(0 <= i * mh <= 0xffff_ffff * 0xffff_ffff) by (nonlinear_arith)
            requires
                0 <= i <= 0xffff_ffff,
                0 <= mh <= 0xffff_ffff,
        ;
        assert(0 <= i / period <= i) by (nonlinear_arith)
            requires
                period >= 1,
                i >= 0,
        ;
    }
    (i as u64) * (mh as u64) + 1 + (i / period) as u64
}

/// The height of a column of `machines` machines laid out by
/// `machine_row_offset`: the last machine's offset plus its height; zero
/// machines need zero rows.
pub open spec fn spec_column_height(machines: int, mh: int, period: int) -> int {
    if machines <= 0 {
        0
    } else {
        spec_row_offset(machines - 1, mh, period) + mh
    }
}

pub fn column_height(machines: u32, mh: u32, period: u32) -> (res: u64)
    requires
        period >= 1,
    ensures
        res == spec_column_height(machines as int, mh as int, period as int),
{
    if machines == 0 {
        0
    } else {
        let last = machine_row_offset(machines - 1, mh, period);
        proof {
            assert(last + mh <= 0xffff_fffe * 0xffff_ffff + 1 + 0xffff_fffe + 0xffff_ffff) by (nonlinear_arith)
                requires
                    last == (machines - 1) * mh + 1 + (machines as int - 1) / (period as int),
                    0 <= machines - 1 <= 0xffff_fffe,
                    0 <= mh <= 0xffff_ffff,
                    period >= 1,
            ;
        }
        last + mh as u64
    }
}

/// A longer column is never shorter.
pub proof fn lemma_column_height_grows(a: int, b: int, mh: int, period: int)
    requires
        0 <= a <= b,
        mh >= 0,
        period >= 1,
    ensures
        spec_column_height(a, mh, period) <= spec_column_height(b, mh, period),
{
    if a > 0 {
        assert((a - 1) * mh <= (b - 1) * mh) by (nonlinear_arith)
            requires
                0 <= a - 1 <= b - 1,
                mh >= 0,
        ;
        assert((a - 1) / period <= (b - 1) / period) by (nonlinear_arith)
            requires
                0 <= a - 1 <= b - 1,
                period >= 1,
        ;
    } else {
        assert(0 <= (b - 1) / period || b <= 0) by (nonlinear_arith)
            requires
                period >= 1,
        ;
        if b > 0 {
            assert(0 <= (b - 1) * mh) by (nonlinear_arith)
                requires
                    b >= 1,
                    mh >= 0,
            ;
        }
    }
}

/// Every machine of a column ends within the column's height.
pub proof fn lemma_machine_within_column(i: int, mh: int, period: int, machines: int)
    requires
        mh >= 0,
        period >= 1,
        0 <= i < machines,
    ensures
        0 <= spec_row_offset(i, mh, period),
        spec_row_offset(i, mh, period) + mh <= spec_column_height(machines, mh, period),
{
    assert(0 <= i * mh) by (nonlinear_arith)
        requires
            i >= 0,
            mh >= 0,
    ;
    assert(0 <= i / period) by (nonlinear_arith)
        requires
            i >= 0,
            period >= 1,
    ;
    if i + 1 < machines {
        lemma_rows_stack(i, mh, period, machines);
    }
}

/// Machines of one column never overlap, and all of them fit in the column
/// height: each starts at least `mh` rows after the one before, and the last
/// ends exactly at the column height.
pub proof fn lemma_rows_stack(i: int, mh: int, period: int, machines: int)
    requires
        mh >= 0,
        period >= 1,
        0 <= i,
        i + 1 < machines,
    ensures
        spec_row_offset(i + 1, mh, period) >= spec_row_offset(i, mh, period) + mh,
        spec_row_offset(i, mh, period) + mh <= spec_column_height(machines, mh, period),
    decreases machines - i,
{
    assert((i + 1) / period >= i / period) by (nonlinear_arith)
        requires
            period >= 1,
            i >= 0,
    ;
    assert((i + 1) * mh == i * mh + mh) by (nonlinear_arith);
    if i + 2 < machines {
        lemma_rows_stack(i + 1, mh, period, machines);
    }
}

} // verus!
