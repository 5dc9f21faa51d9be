//! Deduction passes over a puzzle, repeated until none applies.

use super::board::{
    all_positions, all_values, cell_of, empty_positions, grid_at, lemma_empty_positions,
    lemma_empty_positions_distinct, lemma_subgrid_cells_distinct, lemma_subgrid_covers,
    lemma_subgrid_member_coords, possible, subgrid_cells, CellIndex, CellValue, Index, Puzzle,
    SubgridIndex,
};
use vstd::prelude::*;

verus! {

/// One deduced write: a digit for one cell.
#[derive(Copy, Clone, Debug)]
pub struct Assignment {
    /// The cell to fill.
    pub idx: CellIndex,
    /// The digit deduced for it.
    pub value: CellValue,
}

/// Whether `x` occurs in `v`.
fn has_value(v: &Vec<CellValue>, x: CellValue) -> (r: bool)
    ensures
        r == v@.contains(x),
{
    let n = v.len();
    let mut i: usize = 0;
    while i < n
        invariant
            i <= n == v@.len(),
            forall|j: int| 0 <= j < i ==> v@[j] != x,
        decreases n - i,
    {
        if v[i] == x {
            return true;
        }
        i = i + 1;
    }
    false
}

/// An assignment names a cell that was empty and a digit for it.
pub open spec fn assignment_target(grid: Seq<CellValue>, a: Assignment) -> bool {
    a.idx.wf() && cell_of(grid, a.idx) == CellValue::EMPTY && a.value != CellValue::EMPTY
}

/// The assignment writes the only value the cell's peers leave open.
pub open spec fn sole_possible(grid: Seq<CellValue>, a: Assignment) -> bool {
    &&& assignment_target(grid, a)
    &&& possible(grid, a.idx.x as int, a.idx.y as int, a.value)
    &&& forall|v: CellValue|
        #[trigger] possible(grid, a.idx.x as int, a.idx.y as int, v) ==> v == a.value
}

/// Whether exactly one value is still possible at (`x`, `y`).
pub open spec fn unique_possible(grid: Seq<CellValue>, x: int, y: int) -> bool {
    exists|v: CellValue|
        #[trigger] possible(grid, x, y, v) && (forall|w: CellValue|
            #[trigger] possible(grid, x, y, w) ==> w == v)
}

/// The assignment's cell is the only home left for its value inside
/// the cell's subgrid.
pub open spec fn sole_cell_in_subgrid(grid: Seq<CellValue>, a: Assignment) -> bool {
    &&& assignment_target(grid, a)
    &&& possible(grid, a.idx.x as int, a.idx.y as int, a.value)
    &&& forall|bx: int, by: int|
        0 <= bx < 9 && 0 <= by < 9 && bx / 3 == a.idx.x as int / 3 && by / 3 == a.idx.y as int / 3
            && grid_at(grid, bx, by) == CellValue::EMPTY && #[trigger] possible(
            grid,
            bx,
            by,
            a.value,
        ) ==> bx == a.idx.x && by == a.idx.y
}

/// Finds every empty cell whose peers leave exactly one value open, in
/// row-major order.
pub fn last_possible(puzzle: &Puzzle) -> (r: Vec<Assignment>)
    requires
        puzzle.wf(),
    ensures
        forall|k: int| 0 <= k < r@.len() ==> sole_possible(puzzle.grid@, #[trigger] r@[k]),
        forall|x: int, y: int|
            0 <= x < 9 && 0 <= y < 9 && grid_at(puzzle.grid@, x, y) == CellValue::EMPTY
                && #[trigger] unique_possible(puzzle.grid@, x, y) ==> exists|k: int|
                0 <= k < r@.len() && (#[trigger] r@[k]).idx.x == x && r@[k].idx.y == y,
{
    let ghost grid = puzzle.grid@;
    let empty = puzzle.get_empty_cells();
    let ghost ps = empty_positions(grid, all_positions());
    proof {
        lemma_empty_positions(grid, all_positions());
        assert(empty@.len() == ps.len());
        assert(forall|j: int| 0 <= j < empty@.len() ==> (#[trigger] empty@[j]).idx == ps[j]);
        assert forall|k: int| 0 <= k < empty@.len() implies (#[trigger] empty@[k]).idx.wf()
            && cell_of(grid, empty@[k].idx) == CellValue::EMPTY by {
            assert(ps[k] == empty@[k].idx);
            assert(all_positions().contains(ps[k]));
            let m = choose|m: int| 0 <= m < all_positions().len() && all_positions()[m] == ps[k];
            assert(all_positions()[m].wf());
        }
    }
    let mut r: Vec<Assignment> = Vec::new();
    let mut k: usize = 0;
    while k < empty.len()
        invariant
            k <= empty@.len(),
            puzzle.wf(),
            grid == puzzle.grid@,
            forall|j: int|
                0 <= j < empty@.len() ==> (#[trigger] empty@[j]).puzzle == puzzle
                    && empty@[j].idx.wf() && cell_of(grid, empty@[j].idx) == CellValue::EMPTY,
            forall|j: int| 0 <= j < r@.len() ==> sole_possible(grid, #[trigger] r@[j]),
            forall|j: int|
                0 <= j < k && #[trigger] unique_possible(
                    grid,
                    empty@[j].idx.x as int,
                    empty@[j].idx.y as int,
                ) ==> exists|m: int| 0 <= m < r@.len() && (#[trigger] r@[m]).idx == empty@[j].idx,
        decreases empty@.len() - k,
    {
        let ghost r0 = r@;
        let c = &empty[k];
        let ghost cx = c.idx.x as int;
        let ghost cy = c.idx.y as int;
        let values = c.get_possible_values();
        if values.len() == 1 {
            let a = Assignment { idx: c.idx, value: values[0] };
            proof {
                assert(values@.contains(values@[0]));
                assert forall|v: CellValue|
                    #[trigger] possible(grid, a.idx.x as int, a.idx.y as int, v) implies v
                    == a.value by {
                    assert(values@.contains(v));
                }
            }
            r.push(a);
        }
        proof {
            if values@.len() != 1 && unique_possible(grid, cx, cy) {
                let v = choose|v: CellValue|
                    #[trigger] possible(grid, cx, cy, v) && (forall|w: CellValue|
                        #[trigger] possible(grid, cx, cy, w) ==> w == v);
                assert(values@.contains(v));
                assert(values@.len() >= 1);
                assert(values@.len() >= 2);
                assert(values@.contains(values@[0]));
                assert(values@.contains(values@[1]));
                assert(values@[0] == v && values@[1] == v);
                assert(false);
            }
            assert forall|j: int|
                0 <= j < k + 1 && #[trigger] unique_possible(
                    grid,
                    empty@[j].idx.x as int,
                    empty@[j].idx.y as int,
                ) implies exists|m: int|
                0 <= m < r@.len() && (#[trigger] r@[m]).idx == empty@[j].idx by {
                if j < k {
                    let m = choose|m: int|
                        0 <= m < r0.len() && (#[trigger] r0[m]).idx == empty@[j].idx;
                    assert(r@[m].idx == empty@[j].idx);
                } else {
                    assert(r@[r@.len() - 1].idx == empty@[j].idx);
                }
            }
        }
        k = k + 1;
    }
    proof {
        assert forall|x: int, y: int|
            0 <= x < 9 && 0 <= y < 9 && grid_at(grid, x, y) == CellValue::EMPTY
                && #[trigger] unique_possible(grid, x, y) implies exists|m: int|
            0 <= m < r@.len() && (#[trigger] r@[m]).idx.x == x && r@[m].idx.y == y by {
            let p = CellIndex { x: x as usize, y: y as usize };
            let f = y * 9 + x;
            assert(all_positions()[f] == p);
            assert(cell_of(grid, p) == CellValue::EMPTY);
            assert(ps.contains(p));
            let j = choose|j: int| 0 <= j < ps.len() && ps[j] == p;
            assert(empty@[j].idx == p);
            assert(unique_possible(grid, empty@[j].idx.x as int, empty@[j].idx.y as int));
            let m = choose|m: int| 0 <= m < r@.len() && (#[trigger] r@[m]).idx == empty@[j].idx;
            assert(r@[m].idx.x == x && r@[m].idx.y == y);
        }
    }
    r
}

/// Whether position `p` can still take `v`: its cell is empty and no
/// peer rules `v` out.
pub open spec fn can_take(grid: Seq<CellValue>, p: CellIndex, v: CellValue) -> bool {
    possible(grid, p.x as int, p.y as int, v)
}

/// Whether (`x`, `y`) is an empty cell of subgrid `sg` that can still
/// take `v`.
pub open spec fn open_home(grid: Seq<CellValue>, sg: int, x: int, y: int, v: CellValue) -> bool {
    0 <= x < 9 && 0 <= y < 9 && x / 3 == sg % 3 && y / 3 == sg / 3 && grid_at(grid, x, y)
        == CellValue::EMPTY && possible(grid, x, y, v)
}

/// Whether subgrid `sg` has exactly one empty cell left that can take `v`.
pub open spec fn lone_home(grid: Seq<CellValue>, sg: int, v: CellValue) -> bool {
    exists|x: int, y: int|
        #[trigger] open_home(grid, sg, x, y, v) && (forall|x2: int, y2: int|
            #[trigger] open_home(grid, sg, x2, y2, v) ==> x2 == x && y2 == y)
}

/// Whether some assignment of `r` writes `v` inside subgrid `sg`.
pub open spec fn names_home(r: Seq<Assignment>, sg: int, v: CellValue) -> bool {
    exists|k: int|
        0 <= k < r.len() && (#[trigger] r[k]).value == v && r[k].idx.x as int / 3 == sg % 3
            && r[k].idx.y as int / 3 == sg / 3
}

/// What a longer assignment list names, it still names.
proof fn lemma_names_home_push(r: Seq<Assignment>, a: Assignment)
    ensures
        forall|sg: int, v: CellValue| #[trigger] names_home(r, sg, v) ==> names_home(r.push(a), sg, v),
{
    assert forall|sg: int, v: CellValue| #[trigger] names_home(r, sg, v) implies names_home(
        r.push(a),
        sg,
        v,
    ) by {
        let k = choose|k: int|
            0 <= k < r.len() && (#[trigger] r[k]).value == v && r[k].idx.x as int / 3 == sg % 3
                && r[k].idx.y as int / 3 == sg / 3;
        assert(r.push(a)[k] == r[k]);
    }
}

/// Finds, subgrid by subgrid and value by value, every value with only
/// one empty cell left that can take it.
pub fn last_remaining(puzzle: &Puzzle) -> (r: Vec<Assignment>)
    requires
        puzzle.wf(),
    ensures
        forall|k: int| 0 <= k < r@.len() ==> sole_cell_in_subgrid(puzzle.grid@, #[trigger] r@[k]),
        forall|sg: int, v: CellValue|
            0 <= sg < 9 && #[trigger] lone_home(puzzle.grid@, sg, v) ==> names_home(r@, sg, v),
{
    let ghost grid = puzzle.grid@;
    let mut r: Vec<Assignment> = Vec::new();
    let mut sgi: usize = 0;
    while sgi < 9
        invariant
            sgi <= 9,
            puzzle.wf(),
            grid == puzzle.grid@,
            forall|j: int| 0 <= j < r@.len() ==> sole_cell_in_subgrid(grid, #[trigger] r@[j]),
            forall|sg: int, v: CellValue|
                0 <= sg < sgi && #[trigger] lone_home(grid, sg, v) ==> names_home(r@, sg, v),
        decreases 9 - sgi,
    {
        let sec = puzzle.get_subgrid(SubgridIndex::new(sgi));
        let empty = sec.empty_cells();
        let ghost ps = empty_positions(grid, subgrid_cells(sgi as int));
        proof {
            assert(sec.idx.cells_spec() =~= subgrid_cells(sgi as int));
            lemma_empty_positions(grid, subgrid_cells(sgi as int));
            lemma_subgrid_cells_distinct(sgi as int);
            lemma_empty_positions_distinct(grid, subgrid_cells(sgi as int));
            assert(empty@.len() == ps.len());
            assert(forall|j: int| 0 <= j < empty@.len() ==> (#[trigger] empty@[j]).idx == ps[j]);
            assert forall|k: int| 0 <= k < empty@.len() implies (#[trigger] empty@[k]).idx.wf()
                && cell_of(grid, empty@[k].idx) == CellValue::EMPTY && subgrid_cells(
                sgi as int,
            ).contains(empty@[k].idx) by {
                assert(ps[k] == empty@[k].idx);
                assert(subgrid_cells(sgi as int).contains(ps[k]));
                lemma_subgrid_member_coords(sgi as int, ps[k]);
            }
            assert forall|a: int, b: int| 0 <= a < b < empty@.len() implies (
            #[trigger] empty@[a]).idx != (#[trigger] empty@[b]).idx by {
                assert(ps[a] != ps[b]);
            }
        }
        let digits = all_values();
        let mut d: usize = 0;
        while d < digits.len()
            invariant
                d <= digits@.len() == 9,
                sgi < 9,
                puzzle.wf(),
                grid == puzzle.grid@,
                digits@ =~= seq![
                    CellValue::ONE,
                    CellValue::TWO,
                    CellValue::THREE,
                    CellValue::FOUR,
                    CellValue::FIVE,
                    CellValue::SIX,
                    CellValue::SEVEN,
                    CellValue::EIGHT,
                    CellValue::NINE,
                ],
                forall|j: int|
                    0 <= j < empty@.len() ==> (#[trigger] empty@[j]).puzzle == puzzle
                        && empty@[j].idx.wf() && cell_of(grid, empty@[j].idx) == CellValue::EMPTY
                        && subgrid_cells(sgi as int).contains(empty@[j].idx),
                ps == empty_positions(grid, subgrid_cells(sgi as int)),
                empty@.len() == ps.len(),
                forall|j: int| 0 <= j < empty@.len() ==> (#[trigger] empty@[j]).idx == ps[j],
                forall|a: int, b: int|
                    0 <= a < b < empty@.len() ==> (#[trigger] empty@[a]).idx != (
                #[trigger] empty@[b]).idx,
                forall|j: int| 0 <= j < r@.len() ==> sole_cell_in_subgrid(grid, #[trigger] r@[j]),
                forall|sg: int, v2: CellValue|
                    0 <= sg < sgi && #[trigger] lone_home(grid, sg, v2) ==> names_home(r@, sg, v2),
                forall|j: int|
                    0 <= j < d && #[trigger] lone_home(grid, sgi as int, digits@[j])
                        ==> names_home(r@, sgi as int, digits@[j]),
            decreases digits@.len() - d,
        {
            let v = digits[d];
            let mut found: usize = 0;
            let mut found_idx = CellIndex::new(0, 0);
            let mut t: usize = 0;
            while t < empty.len()
                invariant
                    t <= empty@.len(),
                    puzzle.wf(),
                    grid == puzzle.grid@,
                    forall|j: int|
                        0 <= j < empty@.len() ==> (#[trigger] empty@[j]).puzzle == puzzle
                            && empty@[j].idx.wf() && cell_of(grid, empty@[j].idx)
                            == CellValue::EMPTY && subgrid_cells(sgi as int).contains(
                            empty@[j].idx,
                        ),
                    ps == empty_positions(grid, subgrid_cells(sgi as int)),
                    empty@.len() == ps.len(),
                    forall|j: int| 0 <= j < empty@.len() ==> (#[trigger] empty@[j]).idx == ps[j],
                    found <= t,
                    found == 0 ==> forall|j: int|
                        0 <= j < t ==> !can_take(grid, (#[trigger] empty@[j]).idx, v),
                    found == 1 ==> found_idx.wf() && cell_of(grid, found_idx)
                        == CellValue::EMPTY && subgrid_cells(sgi as int).contains(found_idx)
                        && can_take(grid, found_idx, v),
                    found == 1 ==> forall|j: int|
                        0 <= j < t && can_take(grid, (#[trigger] empty@[j]).idx, v)
                            ==> empty@[j].idx == found_idx,
                    found == 1 ==> exists|j0: int|
                        0 <= j0 < t && (#[trigger] empty@[j0]).idx == found_idx,
                    found >= 2 ==> exists|j1: int, j2: int|
                        #![trigger empty@[j1], empty@[j2]]
                        0 <= j1 < j2 < t && can_take(grid, empty@[j1].idx, v) && can_take(
                            grid,
                            empty@[j2].idx,
                            v,
                        ),
                decreases empty@.len() - t,
            {
                let ghost found0 = found;
                let ghost found_idx0 = found_idx;
                let c = &empty[t];
                let values = c.get_possible_values();
                if has_value(&values, v) {
                    found = found + 1;
                    found_idx = c.idx;
                    proof {
                        assert(can_take(grid, empty@[t as int].idx, v));
                        if found0 == 1 {
                            let j0 = choose|j0: int|
                                0 <= j0 < t && (#[trigger] empty@[j0]).idx == found_idx0;
                            assert(can_take(grid, empty@[j0 as int].idx, v));
                            assert(0 <= j0 < t + 1 && can_take(grid, empty@[j0].idx, v)
                                && can_take(grid, empty@[t as int].idx, v));
                        } else if found0 >= 2 {
                            let (j1, j2) = choose|j1: int, j2: int|
                                #![trigger empty@[j1], empty@[j2]]
                                0 <= j1 < j2 < t && can_take(grid, empty@[j1].idx, v) && can_take(
                                    grid,
                                    empty@[j2].idx,
                                    v,
                                );
                            assert(0 <= j1 < j2 < t + 1 && can_take(grid, empty@[j1].idx, v)
                                && can_take(grid, empty@[j2].idx, v));
                        }
                    }
                } else {
                    proof {
                        assert(!can_take(grid, empty@[t as int].idx, v));
                        if found0 == 1 {
                            let j0 = choose|j0: int|
                                0 <= j0 < t && (#[trigger] empty@[j0]).idx == found_idx0;
                            assert(0 <= j0 < t + 1 && empty@[j0].idx == found_idx);
                        } else if found0 >= 2 {
                            let (j1, j2) = choose|j1: int, j2: int|
                                #![trigger empty@[j1], empty@[j2]]
                                0 <= j1 < j2 < t && can_take(grid, empty@[j1].idx, v) && can_take(
                                    grid,
                                    empty@[j2].idx,
                                    v,
                                );
                            assert(0 <= j1 < j2 < t + 1 && can_take(grid, empty@[j1].idx, v)
                                && can_take(grid, empty@[j2].idx, v));
                        }
                    }
                }
                t = t + 1;
            }
            let ghost r0 = r@;
            if found == 1 {
                let a = Assignment { idx: found_idx, value: v };
                proof {
                    lemma_empty_positions(grid, subgrid_cells(sgi as int));
                    let ax = a.idx.x as int;
                    let ay = a.idx.y as int;
                    lemma_subgrid_member_coords(sgi as int, a.idx);
                    assert forall|bx: int, by: int|
                        0 <= bx < 9 && 0 <= by < 9 && bx / 3 == ax / 3 && by / 3 == ay / 3
                            && grid_at(grid, bx, by) == CellValue::EMPTY && #[trigger] possible(
                            grid,
                            bx,
                            by,
                            a.value,
                        ) implies bx == ax && by == ay by {
                        lemma_subgrid_covers(sgi as int, bx, by);
                        let p = CellIndex { x: bx as usize, y: by as usize };
                        assert(cell_of(grid, p) == CellValue::EMPTY);
                        assert(ps.contains(p));
                        let j = choose|j: int| 0 <= j < ps.len() && ps[j] == p;
                        assert(empty@[j].idx == p);
                        assert(can_take(grid, empty@[j].idx, v));
                        assert(p == found_idx);
                    }
                }
                r.push(a);
            }
            proof {
                lemma_empty_positions(grid, subgrid_cells(sgi as int));
                if found == 1 {
                    lemma_names_home_push(r0, Assignment { idx: found_idx, value: v });
                }
                assert forall|j: int|
                    0 <= j < d + 1 && #[trigger] lone_home(grid, sgi as int, digits@[j]) implies names_home(
                    r@,
                    sgi as int,
                    digits@[j],
                ) by {
                    if j < d {
                        assert(names_home(r0, sgi as int, digits@[j]));
                    } else {
                        let (hx, hy) = choose|hx: int, hy: int|
                            #[trigger] open_home(grid, sgi as int, hx, hy, v) && (forall|
                                x2: int,
                                y2: int,
                            |
                                #[trigger] open_home(grid, sgi as int, x2, y2, v) ==> x2 == hx && y2
                                    == hy);
                        lemma_subgrid_covers(sgi as int, hx, hy);
                        let hp = CellIndex { x: hx as usize, y: hy as usize };
                        assert(cell_of(grid, hp) == CellValue::EMPTY);
                        assert(ps.contains(hp));
                        let jh = choose|jh: int| 0 <= jh < ps.len() && ps[jh] == hp;
                        assert(empty@[jh].idx == hp);
                        assert(can_take(grid, empty@[jh].idx, v));
                        if found == 0 {
                            assert(false);
                        }
                        if found >= 2 {
                            let (j1, j2) = choose|j1: int, j2: int|
                                #![trigger empty@[j1], empty@[j2]]
                                0 <= j1 < j2 < empty@.len() && can_take(grid, empty@[j1].idx, v)
                                    && can_take(grid, empty@[j2].idx, v);
                            let p1 = empty@[j1].idx;
                            let p2 = empty@[j2].idx;
                            assert(p1 != p2);
                            lemma_subgrid_member_coords(sgi as int, p1);
                            lemma_subgrid_member_coords(sgi as int, p2);
                            assert(open_home(grid, sgi as int, p1.x as int, p1.y as int, v));
                            assert(open_home(grid, sgi as int, p2.x as int, p2.y as int, v));
                            assert(p1.x as int == hx && p1.y as int == hy);
                            assert(p2.x as int == hx && p2.y as int == hy);
                            assert(false);
                        }
                        assert(found == 1);
                        lemma_subgrid_member_coords(sgi as int, found_idx);
                        assert(r@[r@.len() - 1].value == v);
                        assert(r@[r@.len() - 1].idx == found_idx);
                        assert(names_home(r@, sgi as int, v));
                    }
                }
                assert forall|sg: int, v2: CellValue|
                    0 <= sg < sgi && #[trigger] lone_home(grid, sg, v2) implies names_home(
                    r@,
                    sg,
                    v2,
                ) by {
                    assert(names_home(r0, sg, v2));
                }
            }
            d = d + 1;
        }
        proof {
            assert forall|sg: int, v2: CellValue|
                0 <= sg < sgi + 1 && #[trigger] lone_home(grid, sg, v2) implies names_home(
                r@,
                sg,
                v2,
            ) by {
                if sg == sgi {
                    let (hx, hy) = choose|hx: int, hy: int|
                        #[trigger] open_home(grid, sg, hx, hy, v2) && (forall|x2: int, y2: int|
                            #[trigger] open_home(grid, sg, x2, y2, v2) ==> x2 == hx && y2 == hy);
                    assert(possible(grid, hx, hy, v2));
                    assert(v2 != CellValue::EMPTY);
                    assert(v2 == CellValue::ONE || v2 == CellValue::TWO || v2 == CellValue::THREE
                        || v2 == CellValue::FOUR || v2 == CellValue::FIVE || v2 == CellValue::SIX
                        || v2 == CellValue::SEVEN || v2 == CellValue::EIGHT || v2
                        == CellValue::NINE);
                    assert(digits@.contains(v2)) by {
                        if v2 == CellValue::ONE {
                            assert(digits@[0] == v2);
                        } else if v2 == CellValue::TWO {
                            assert(digits@[1] == v2);
                        } else if v2 == CellValue::THREE {
                            assert(digits@[2] == v2);
                        } else if v2 == CellValue::FOUR {
                            assert(digits@[3] == v2);
                        } else if v2 == CellValue::FIVE {
                            assert(digits@[4] == v2);
                        } else if v2 == CellValue::SIX {
                            assert(digits@[5] == v2);
                        } else if v2 == CellValue::SEVEN {
                            assert(digits@[6] == v2);
                        } else if v2 == CellValue::EIGHT {
                            assert(digits@[7] == v2);
                        } else {
                            assert(digits@[8] == v2);
                        }
                    }
                    let j = choose|j: int| 0 <= j < digits@.len() && digits@[j] == v2;
                    assert(lone_home(grid, sgi as int, digits@[j]));
                }
            }
        }
        sgi = sgi + 1;
    }
    r
}

/// How many of the first `k` cells are empty.
pub open spec fn count_empty(grid: Seq<CellValue>, k: int) -> nat
    decreases k,
{
    if k <= 0 {
        0
    } else {
        count_empty(grid, k - 1) + (if grid[k - 1] == CellValue::EMPTY {
            1nat
        } else {
            0nat
        })
    }
}

/// Writing a digit lowers the count of empty cells by one when the
/// written cell was empty, and leaves it unchanged otherwise.
proof fn lemma_count_empty_update(grid: Seq<CellValue>, f: int, v: CellValue, k: int)
    requires
        0 <= f < grid.len(),
        v != CellValue::EMPTY,
        k <= grid.len(),
    ensures
        count_empty(grid.update(f, v), k) + (if f < k && grid[f] == CellValue::EMPTY {
            1nat
        } else {
            0nat
        }) == count_empty(grid, k),
    decreases k,
{
    if k > 0 {
        lemma_count_empty_update(grid, f, v, k - 1);
    }
}

/// Whether `g2` keeps every value `g1` already held.
pub open spec fn grid_extends(g2: Seq<CellValue>, g1: Seq<CellValue>) -> bool {
    g2.len() == g1.len() && forall|i: int|
        0 <= i < g1.len() && g1[i] != CellValue::EMPTY ==> #[trigger] g2[i] == g1[i]
}

/// Fills a puzzle by repeating the two deductions until neither finds
/// an assignment.
pub struct Solver {
    /// The grid under deduction.
    pub puzzle: Puzzle,
}

impl Solver {
    /// A solver over an entirely empty grid.
    pub fn new() -> (r: Self)
        ensures
            r.puzzle.wf(),
            forall|i: int| 0 <= i < 81 ==> r.puzzle.grid@[i] == CellValue::EMPTY,
    {
        let mut grid: Vec<CellValue> = Vec::new();
        let mut i: usize = 0;
        while i < 81
            invariant
                i <= 81,
                grid@.len() == i,
                forall|j: int| 0 <= j < i ==> grid@[j] == CellValue::EMPTY,
            decreases 81 - i,
        {
            grid.push(CellValue::EMPTY);
            i = i + 1;
        }
        Solver { puzzle: Puzzle { grid } }
    }

    /// A solver over `puzzle`.
    pub fn from(puzzle: Puzzle) -> (r: Self)
        ensures
            r.puzzle.grid@ == puzzle.grid@,
    {
        Solver { puzzle }
    }

    /// Repeats the two deductions until neither finds an assignment.
    ///
    /// Every value the grid already held is kept; only empty cells are
    /// filled, each with a value its peers left possible when it was
    /// written.
    pub fn solve(&mut self)
        requires
            old(self).puzzle.wf(),
        ensures
            final(self).puzzle.wf(),
            grid_extends(final(self).puzzle.grid@, old(self).puzzle.grid@),
            forall|x: int, y: int|
                0 <= x < 9 && 0 <= y < 9 && grid_at(final(self).puzzle.grid@, x, y)
                    == CellValue::EMPTY ==> !unique_possible(final(self).puzzle.grid@, x, y),
            forall|sg: int, v: CellValue|
                0 <= sg < 9 ==> !lone_home(final(self).puzzle.grid@, sg, v),
    {
        let mut change = true;
        while change
            invariant
                self.puzzle.wf(),
                grid_extends(self.puzzle.grid@, old(self).puzzle.grid@),
                !change ==> forall|x: int, y: int|
                    0 <= x < 9 && 0 <= y < 9 && grid_at(self.puzzle.grid@, x, y)
                        == CellValue::EMPTY ==> !unique_possible(self.puzzle.grid@, x, y),
                !change ==> forall|sg: int, v: CellValue|
                    0 <= sg < 9 ==> !lone_home(self.puzzle.grid@, sg, v),
            decreases count_empty(self.puzzle.grid@, 81) + (if change {
                1int
            } else {
                0int
            }),
        {
            change = false;
            let ghost start = self.puzzle.grid@;
            let mut assignments = last_possible(&self.puzzle);
            let mut more = last_remaining(&self.puzzle);
            let ghost lp = assignments@;
            let ghost lr = more@;
            proof {
                assert(forall|k: int|
                    0 <= k < assignments@.len() ==> assignment_target(
                        start,
                        #[trigger] assignments@[k],
                    ));
                assert(forall|k: int|
                    0 <= k < more@.len() ==> assignment_target(start, #[trigger] more@[k]));
            }
            assignments.append(&mut more);
            if assignments.len() > 0 {
                change = true;
            } else {
                proof {
                    assert(lp.len() == 0 && lr.len() == 0);
                    assert forall|x: int, y: int|
                        0 <= x < 9 && 0 <= y < 9 && grid_at(start, x, y)
                            == CellValue::EMPTY implies !unique_possible(start, x, y) by {
                        if unique_possible(start, x, y) {
                            let k = choose|k: int|
                                0 <= k < lp.len() && (#[trigger] lp[k]).idx.x == x && lp[k].idx.y
                                    == y;
                            assert(false);
                        }
                    }
                    assert forall|sg: int, v: CellValue| 0 <= sg < 9 implies !lone_home(
                        start,
                        sg,
                        v,
                    ) by {
                        if lone_home(start, sg, v) {
                            assert(names_home(lr, sg, v));
                            let k = choose|k: int|
                                0 <= k < lr.len() && (#[trigger] lr[k]).value == v
                                    && lr[k].idx.x as int / 3 == sg % 3 && lr[k].idx.y as int / 3
                                    == sg / 3;
                            assert(false);
                        }
                    }
                }
            }
            let n = assignments.len();
            let mut t: usize = 0;
            while t < n
                invariant
                    t <= n == assignments@.len(),
                    self.puzzle.wf(),
                    forall|k: int|
                        0 <= k < n ==> assignment_target(start, #[trigger] assignments@[k]),
                    grid_extends(self.puzzle.grid@, start),
                    t == 0 ==> self.puzzle.grid@ == start,
                    count_empty(self.puzzle.grid@, 81) <= count_empty(start, 81),
                    t > 0 ==> count_empty(self.puzzle.grid@, 81) < count_empty(start, 81),
                decreases n - t,
            {
                let a = assignments[t];
                let ghost before = self.puzzle.grid@;
                self.puzzle.set_cell(a.idx, a.value);
                proof {
                    let f = a.idx.x as int + a.idx.y as int * 9;
                    lemma_count_empty_update(before, f, a.value, 81);
                    assert(cell_of(start, a.idx) == CellValue::EMPTY);
                    assert(start[f] == CellValue::EMPTY);
                    assert forall|i: int|
                        0 <= i < start.len() && start[i] != CellValue::EMPTY implies #[trigger] self.puzzle.grid@[i]
                        == start[i] by {
                        assert(i != f);
                        assert(self.puzzle.grid@[i] == before[i]);
                    }
                    if t == 0 {
                        assert(before[f] == CellValue::EMPTY);
                    }
                }
                t = t + 1;
            }
            proof {
                assert(grid_extends(self.puzzle.grid@, old(self).puzzle.grid@));
            }
        }
    }
}

} // verus!
