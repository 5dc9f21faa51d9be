//! The 9-by-9 sudoku grid: cells, sections, validity and completeness.

use vstd::prelude::*;

verus! {

/// A cell's content: empty, or one of the nine digits.
#[allow(non_camel_case_types)]
#[derive(Debug, Copy, Clone, PartialEq, Eq, Hash, Structural)]
pub enum CellValue {
    EMPTY,
    ONE,
    TWO,
    THREE,
    FOUR,
    FIVE,
    SIX,
    SEVEN,
    EIGHT,
    NINE,
}

impl CellValue {
    /// The character this value prints as: its digit, or `-` when empty.
    pub fn symbol(&self) -> (r: u8)
        ensures
            r == self.symbol_spec(),
    {
        match self {
            CellValue::EMPTY => 45,
            CellValue::ONE => 49,
            CellValue::TWO => 50,
            CellValue::THREE => 51,
            CellValue::FOUR => 52,
            CellValue::FIVE => 53,
            CellValue::SIX => 54,
            CellValue::SEVEN => 55,
            CellValue::EIGHT => 56,
            CellValue::NINE => 57,
        }
    }

    /// The character this value prints as.
    pub open spec fn symbol_spec(&self) -> u8 {
        match self {
            CellValue::EMPTY => 45,
            CellValue::ONE => 49,
            CellValue::TWO => 50,
            CellValue::THREE => 51,
            CellValue::FOUR => 52,
            CellValue::FIVE => 53,
            CellValue::SIX => 54,
            CellValue::SEVEN => 55,
            CellValue::EIGHT => 56,
            CellValue::NINE => 57,
        }
    }
}

/// The value a puzzle character stands for: a digit maps to itself,
/// anything else to an empty cell.
pub open spec fn digit_value(b: u8) -> CellValue {
    if b == 49 {
        CellValue::ONE
    } else if b == 50 {
        CellValue::TWO
    } else if b == 51 {
        CellValue::THREE
    } else if b == 52 {
        CellValue::FOUR
    } else if b == 53 {
        CellValue::FIVE
    } else if b == 54 {
        CellValue::SIX
    } else if b == 55 {
        CellValue::SEVEN
    } else if b == 56 {
        CellValue::EIGHT
    } else if b == 57 {
        CellValue::NINE
    } else {
        CellValue::EMPTY
    }
}

/// The nine digits, in order.
pub fn all_values() -> (r: Vec<CellValue>)
    ensures
        r@ =~= seq![
            CellValue::ONE,
            CellValue::TWO,
            CellValue::THREE,
            CellValue::FOUR,
            CellValue::FIVE,
            CellValue::SIX,
            CellValue::SEVEN,
            CellValue::EIGHT,
            CellValue::NINE,
        ],
{
    let mut r: Vec<CellValue> = Vec::new();
    r.push(CellValue::ONE);
    r.push(CellValue::TWO);
    r.push(CellValue::THREE);
    r.push(CellValue::FOUR);
    r.push(CellValue::FIVE);
    r.push(CellValue::SIX);
    r.push(CellValue::SEVEN);
    r.push(CellValue::EIGHT);
    r.push(CellValue::NINE);
    r
}

/// A cell position: column `x`, row `y`, both under nine.
#[derive(Copy, Clone, Debug, PartialEq, Eq, Structural)]
pub struct CellIndex {
    pub x: usize,
    pub y: usize,
}

impl CellIndex {
    /// Both coordinates lie on the grid.
    pub open spec fn wf(&self) -> bool {
        self.x < 9 && self.y < 9
    }

    /// The cell at column `x` of row `y`.
    pub fn new(x: usize, y: usize) -> (r: Self)
        requires
            x < 9,
            y < 9,
        ensures
            r.x == x,
            r.y == y,
    {
        CellIndex { x, y }
    }

    /// This position as an offset into the row-major grid.
    pub fn to_flat(&self) -> (r: CellFlatIndex)
        requires
            self.wf(),
        ensures
            r.idx == self.x + self.y * 9,
    {
        CellFlatIndex { idx: self.x + self.y * 9 }
    }

    /// The row this position lies in.
    pub fn to_row(&self) -> (r: RowIndex)
        requires
            self.wf(),
        ensures
            r.idx == self.y,
    {
        RowIndex { idx: self.y }
    }

    /// The column this position lies in.
    pub fn to_col(&self) -> (r: ColumnIndex)
        requires
            self.wf(),
        ensures
            r.idx == self.x,
    {
        ColumnIndex { idx: self.x }
    }

    /// The 3-by-3 subgrid this position lies in.
    pub fn to_subgrid(&self) -> (r: SubgridIndex)
        requires
            self.wf(),
        ensures
            r.idx == (self.y / 3) * 3 + self.x / 3,
    {
        SubgridIndex { idx: (self.y / 3) * 3 + self.x / 3 }
    }
}

/// A position as one offset into the row-major grid.
#[derive(Copy, Clone, Debug)]
pub struct CellFlatIndex {
    pub idx: usize,
}

impl CellFlatIndex {
    /// The cell at offset `idx` of the row-major grid.
    pub fn new(idx: usize) -> (r: Self)
        requires
            idx < 81,
        ensures
            r.idx == idx,
    {
        CellFlatIndex { idx }
    }
}

/// One of the nine rows.
#[derive(Copy, Clone, Debug)]
pub struct RowIndex {
    pub idx: usize,
}

impl RowIndex {
    /// Row `idx`, counted from the top.
    pub fn new(idx: usize) -> (r: Self)
        requires
            idx < 9,
        ensures
            r.idx == idx,
    {
        RowIndex { idx }
    }
}

/// One of the nine columns.
#[derive(Copy, Clone, Debug)]
pub struct ColumnIndex {
    pub idx: usize,
}

impl ColumnIndex {
    /// Column `idx`, counted from the left.
    pub fn new(idx: usize) -> (r: Self)
        requires
            idx < 9,
        ensures
            r.idx == idx,
    {
        ColumnIndex { idx }
    }
}

/// One of the nine 3-by-3 subgrids, in row-major order.
#[derive(Copy, Clone, Debug)]
pub struct SubgridIndex {
    pub idx: usize,
}

impl SubgridIndex {
    /// Subgrid `idx`, in row-major order of subgrids.
    pub fn new(idx: usize) -> (r: Self)
        requires
            idx < 9,
        ensures
            r.idx == idx,
    {
        SubgridIndex { idx }
    }
}

/// A section of the grid: nine cell positions forming a row, a column
/// or a subgrid.
pub trait Index {
    /// The section lies on the grid.
    spec fn wf(&self) -> bool;

    /// The section's nine cell positions, in section order.
    spec fn cells_spec(&self) -> Seq<CellIndex>;

    /// A well-formed section has nine well-formed positions.
    proof fn cells_spec_wf(&self)
        requires
            self.wf(),
        ensures
            self.cells_spec().len() == 9,
            forall|k: int| 0 <= k < 9 ==> (#[trigger] self.cells_spec()[k]).wf(),
    ;

    /// The section's nine cell positions, in section order.
    fn cells(&self) -> (r: Vec<CellIndex>)
        requires
            self.wf(),
        ensures
            r@ == self.cells_spec(),
    ;
}

impl Index for RowIndex {
    open spec fn wf(&self) -> bool {
        self.idx < 9
    }

    open spec fn cells_spec(&self) -> Seq<CellIndex> {
        Seq::new(9, |k: int| CellIndex { x: k as usize, y: self.idx })
    }

    proof fn cells_spec_wf(&self) {
    }

    fn cells(&self) -> (r: Vec<CellIndex>) {
        let mut r: Vec<CellIndex> = Vec::new();
        let mut k: usize = 0;
        while k < 9
            invariant
                k <= 9,
                self.idx < 9,
                r@.len() == k,
                forall|j: int| 0 <= j < k ==> r@[j] == self.cells_spec()[j],
            decreases 9 - k,
        {
            r.push(CellIndex { x: k, y: self.idx });
            k = k + 1;
        }
        proof {
            assert(r@ =~= self.cells_spec());
        }
        r
    }
}

impl Index for ColumnIndex {
    open spec fn wf(&self) -> bool {
        self.idx < 9
    }

    open spec fn cells_spec(&self) -> Seq<CellIndex> {
        Seq::new(9, |k: int| CellIndex { x: self.idx, y: k as usize })
    }

    proof fn cells_spec_wf(&self) {
    }

    fn cells(&self) -> (r: Vec<CellIndex>) {
        let mut r: Vec<CellIndex> = Vec::new();
        let mut k: usize = 0;
        while k < 9
            invariant
                k <= 9,
                self.idx < 9,
                r@.len() == k,
                forall|j: int| 0 <= j < k ==> r@[j] == self.cells_spec()[j],
            decreases 9 - k,
        {
            r.push(CellIndex { x: self.idx, y: k });
            k = k + 1;
        }
        proof {
            assert(r@ =~= self.cells_spec());
        }
        r
    }
}

impl Index for SubgridIndex {
    open spec fn wf(&self) -> bool {
        self.idx < 9
    }

    open spec fn cells_spec(&self) -> Seq<CellIndex> {
        Seq::new(
            9,
            |k: int|
                CellIndex {
                    x: ((self.idx % 3) * 3 + (k as usize) % 3) as usize,
                    y: ((self.idx / 3) * 3 + (k as usize) / 3) as usize,
                },
        )
    }

    proof fn cells_spec_wf(&self) {
    }

    fn cells(&self) -> (r: Vec<CellIndex>) {
        let root_x = (self.idx % 3) * 3;
        let root_y = (self.idx / 3) * 3;
        let mut r: Vec<CellIndex> = Vec::new();
        let mut k: usize = 0;
        while k < 9
            invariant
                k <= 9,
                self.idx < 9,
                root_x == (self.idx % 3) * 3,
                root_y == (self.idx / 3) * 3,
                r@.len() == k,
                forall|j: int| 0 <= j < k ==> r@[j] == self.cells_spec()[j],
            decreases 9 - k,
        {
            r.push(CellIndex { x: root_x + k % 3, y: root_y + k / 3 });
            k = k + 1;
        }
        proof {
            assert(r@ =~= self.cells_spec());
        }
        r
    }
}

/// The value of the cell at column `x`, row `y` of a row-major grid.
pub open spec fn grid_at(grid: Seq<CellValue>, x: int, y: int) -> CellValue {
    grid[y * 9 + x]
}

/// The full 9-by-9 grid, row-major.
#[derive(Debug)]
pub struct Puzzle {
    pub grid: Vec<CellValue>,
}

/// A single cell of one puzzle.
pub struct Cell<'a> {
    pub puzzle: &'a Puzzle,
    pub idx: CellIndex,
}

/// Nine cells of one puzzle forming a row, a column or a subgrid.
#[derive(Debug)]
pub struct Section<'a, T> where T: Index {
    pub puzzle: &'a Puzzle,
    pub idx: T,
}

impl Puzzle {
    /// The grid holds exactly eighty-one cells.
    pub open spec fn wf(&self) -> bool {
        self.grid@.len() == 81
    }

    /// The cell of this puzzle at position `idx`.
    pub fn get_cell(&self, idx: CellIndex) -> (r: Cell<'_>)
        ensures
            r.idx == idx,
            r.puzzle == self,
    {
        Cell { puzzle: self, idx }
    }

    /// The value at position `idx`.
    pub fn value_at(&self, idx: &CellIndex) -> (r: CellValue)
        requires
            self.wf(),
            idx.wf(),
        ensures
            r == grid_at(self.grid@, idx.x as int, idx.y as int),
    {
        self.grid[idx.x + idx.y * 9]
    }

    /// Writes `value` at position `idx`.
    pub fn set_cell(&mut self, idx: CellIndex, value: CellValue)
        requires
            old(self).wf(),
            idx.wf(),
        ensures
            final(self).wf(),
            final(self).grid@ == old(self).grid@.update(idx.x + idx.y * 9, value),
    {
        self.grid.set(idx.x + idx.y * 9, value);
    }

    /// The row numbered `idx`.
    pub fn get_row(&self, idx: RowIndex) -> (r: Section<'_, RowIndex>)
        ensures
            r.puzzle == self,
            r.idx == idx,
    {
        Section { puzzle: self, idx }
    }

    /// The column numbered `idx`.
    pub fn get_col(&self, idx: ColumnIndex) -> (r: Section<'_, ColumnIndex>)
        ensures
            r.puzzle == self,
            r.idx == idx,
    {
        Section { puzzle: self, idx }
    }

    /// The subgrid numbered `idx`.
    pub fn get_subgrid(&self, idx: SubgridIndex) -> (r: Section<'_, SubgridIndex>)
        ensures
            r.puzzle == self,
            r.idx == idx,
    {
        Section { puzzle: self, idx }
    }

    /// The nine rows, top to bottom.
    pub fn get_rows(&self) -> (r: Vec<Section<'_, RowIndex>>)
        ensures
            r@.len() == 9,
            forall|k: int| 0 <= k < 9 ==> (#[trigger] r@[k]).puzzle == self && r@[k].idx.idx == k,
    {
        let mut r: Vec<Section<'_, RowIndex>> = Vec::new();
        let mut k: usize = 0;
        while k < 9
            invariant
                k <= 9,
                r@.len() == k,
                forall|j: int| 0 <= j < k ==> (#[trigger] r@[j]).puzzle == self && r@[j].idx.idx
                    == j,
            decreases 9 - k,
        {
            r.push(Section { puzzle: self, idx: RowIndex { idx: k } });
            k = k + 1;
        }
        r
    }

    /// The nine columns, left to right.
    pub fn get_cols(&self) -> (r: Vec<Section<'_, ColumnIndex>>)
        ensures
            r@.len() == 9,
            forall|k: int| 0 <= k < 9 ==> (#[trigger] r@[k]).puzzle == self && r@[k].idx.idx == k,
    {
        let mut r: Vec<Section<'_, ColumnIndex>> = Vec::new();
        let mut k: usize = 0;
        while k < 9
            invariant
                k <= 9,
                r@.len() == k,
                forall|j: int| 0 <= j < k ==> (#[trigger] r@[j]).puzzle == self && r@[j].idx.idx
                    == j,
            decreases 9 - k,
        {
            r.push(Section { puzzle: self, idx: ColumnIndex { idx: k } });
            k = k + 1;
        }
        r
    }

    /// The nine subgrids, in row-major order.
    pub fn get_subgrids(&self) -> (r: Vec<Section<'_, SubgridIndex>>)
        ensures
            r@.len() == 9,
            forall|k: int| 0 <= k < 9 ==> (#[trigger] r@[k]).puzzle == self && r@[k].idx.idx == k,
    {
        let mut r: Vec<Section<'_, SubgridIndex>> = Vec::new();
        let mut k: usize = 0;
        while k < 9
            invariant
                k <= 9,
                r@.len() == k,
                forall|j: int| 0 <= j < k ==> (#[trigger] r@[j]).puzzle == self && r@[j].idx.idx
                    == j,
            decreases 9 - k,
        {
            r.push(Section { puzzle: self, idx: SubgridIndex { idx: k } });
            k = k + 1;
        }
        r
    }
}

impl<'a> Cell<'a> {
    /// The cell of `puzzle` at position `idx`.
    pub fn new(puzzle: &'a Puzzle, idx: CellIndex) -> (r: Self)
        ensures
            r.puzzle == puzzle,
            r.idx == idx,
    {
        Cell { puzzle, idx }
    }

    /// This cell's value.
    pub fn value(&self) -> (r: CellValue)
        requires
            self.puzzle.wf(),
            self.idx.wf(),
        ensures
            r == grid_at(self.puzzle.grid@, self.idx.x as int, self.idx.y as int),
    {
        self.puzzle.value_at(&self.idx)
    }

    /// The row this cell lies in.
    pub fn row(&self) -> (r: Section<'a, RowIndex>)
        requires
            self.idx.wf(),
        ensures
            r.puzzle == self.puzzle,
            r.idx.idx == self.idx.y,
    {
        Section { puzzle: self.puzzle, idx: RowIndex { idx: self.idx.y } }
    }

    /// The column this cell lies in.
    pub fn col(&self) -> (r: Section<'a, ColumnIndex>)
        requires
            self.idx.wf(),
        ensures
            r.puzzle == self.puzzle,
            r.idx.idx == self.idx.x,
    {
        Section { puzzle: self.puzzle, idx: ColumnIndex { idx: self.idx.x } }
    }

    /// The subgrid this cell lies in.
    pub fn subgrid(&self) -> (r: Section<'a, SubgridIndex>)
        requires
            self.idx.wf(),
        ensures
            r.puzzle == self.puzzle,
            r.idx.idx == (self.idx.y / 3) * 3 + self.idx.x / 3,
    {
        Section { puzzle: self.puzzle, idx: SubgridIndex { idx: (self.idx.y / 3) * 3 + self.idx.x / 3 } }
    }
}


/// The value of the cell at position `idx`.
pub open spec fn cell_of(grid: Seq<CellValue>, idx: CellIndex) -> CellValue {
    grid_at(grid, idx.x as int, idx.y as int)
}

/// The positions among `idxs` whose cell is not empty, in order.
pub open spec fn nonempty_positions(grid: Seq<CellValue>, idxs: Seq<CellIndex>) -> Seq<CellIndex>
    decreases idxs.len(),
{
    if idxs.len() == 0 {
        Seq::empty()
    } else {
        let rest = nonempty_positions(grid, idxs.drop_last());
        if cell_of(grid, idxs.last()) != CellValue::EMPTY {
            rest.push(idxs.last())
        } else {
            rest
        }
    }
}

/// The positions among `idxs` whose cell is empty, in order.
pub open spec fn empty_positions(grid: Seq<CellValue>, idxs: Seq<CellIndex>) -> Seq<CellIndex>
    decreases idxs.len(),
{
    if idxs.len() == 0 {
        Seq::empty()
    } else {
        let rest = empty_positions(grid, idxs.drop_last());
        if cell_of(grid, idxs.last()) == CellValue::EMPTY {
            rest.push(idxs.last())
        } else {
            rest
        }
    }
}

/// Every position of `idxs` whose cell is not empty appears among the
/// nonempty positions, and only such positions appear.
pub proof fn lemma_nonempty_positions(grid: Seq<CellValue>, idxs: Seq<CellIndex>)
    ensures
        forall|j: int|
            0 <= j < idxs.len() && cell_of(grid, #[trigger] idxs[j]) != CellValue::EMPTY
                ==> nonempty_positions(grid, idxs).contains(idxs[j]),
        forall|k: int|
            0 <= k < nonempty_positions(grid, idxs).len() ==> idxs.contains(
                #[trigger] nonempty_positions(grid, idxs)[k],
            ) && cell_of(grid, nonempty_positions(grid, idxs)[k]) != CellValue::EMPTY,
    decreases idxs.len(),
{
    if idxs.len() > 0 {
        lemma_nonempty_positions(grid, idxs.drop_last());
        let rest = nonempty_positions(grid, idxs.drop_last());
        let whole = nonempty_positions(grid, idxs);
        assert forall|j: int|
            0 <= j < idxs.len() && cell_of(grid, #[trigger] idxs[j]) != CellValue::EMPTY implies whole.contains(
            idxs[j],
        ) by {
            if j < idxs.len() - 1 {
                assert(idxs.drop_last()[j] == idxs[j]);
                assert(rest.contains(idxs[j]));
                let k = choose|k: int| 0 <= k < rest.len() && rest[k] == idxs[j];
                assert(whole[k] == idxs[j]);
            } else {
                assert(idxs.last() == idxs[j]);
                assert(whole[whole.len() - 1] == idxs[j]);
            }
        }
        assert forall|k: int| 0 <= k < whole.len() implies idxs.contains(#[trigger] whole[k])
            && cell_of(grid, whole[k]) != CellValue::EMPTY by {
            if k < rest.len() {
                assert(rest[k] == whole[k]);
                let m = choose|m: int| 0 <= m < idxs.drop_last().len() && idxs.drop_last()[m] == rest[k];
                assert(idxs[m] == whole[k]);
            } else {
                assert(whole[k] == idxs.last());
                assert(idxs[idxs.len() - 1] == idxs.last());
            }
        }
    }
}

/// Every position of `idxs` whose cell is empty appears among the empty
/// positions, and only such positions appear.
pub proof fn lemma_empty_positions(grid: Seq<CellValue>, idxs: Seq<CellIndex>)
    ensures
        forall|j: int|
            0 <= j < idxs.len() && cell_of(grid, #[trigger] idxs[j]) == CellValue::EMPTY
                ==> empty_positions(grid, idxs).contains(idxs[j]),
        forall|k: int|
            0 <= k < empty_positions(grid, idxs).len() ==> idxs.contains(
                #[trigger] empty_positions(grid, idxs)[k],
            ) && cell_of(grid, empty_positions(grid, idxs)[k]) == CellValue::EMPTY,
    decreases idxs.len(),
{
    if idxs.len() > 0 {
        lemma_empty_positions(grid, idxs.drop_last());
        let rest = empty_positions(grid, idxs.drop_last());
        let whole = empty_positions(grid, idxs);
        assert forall|j: int|
            0 <= j < idxs.len() && cell_of(grid, #[trigger] idxs[j]) == CellValue::EMPTY implies whole.contains(
            idxs[j],
        ) by {
            if j < idxs.len() - 1 {
                assert(idxs.drop_last()[j] == idxs[j]);
                assert(rest.contains(idxs[j]));
                let k = choose|k: int| 0 <= k < rest.len() && rest[k] == idxs[j];
                assert(whole[k] == idxs[j]);
            } else {
                assert(idxs.last() == idxs[j]);
                assert(whole[whole.len() - 1] == idxs[j]);
            }
        }
        assert forall|k: int| 0 <= k < whole.len() implies idxs.contains(#[trigger] whole[k])
            && cell_of(grid, whole[k]) == CellValue::EMPTY by {
            if k < rest.len() {
                assert(rest[k] == whole[k]);
                let m = choose|m: int| 0 <= m < idxs.drop_last().len() && idxs.drop_last()[m] == rest[k];
                assert(idxs[m] == whole[k]);
            } else {
                assert(whole[k] == idxs.last());
                assert(idxs[idxs.len() - 1] == idxs.last());
            }
        }
    }
}

/// Distinct positions stay distinct after keeping only the empty ones.
pub proof fn lemma_empty_positions_distinct(grid: Seq<CellValue>, idxs: Seq<CellIndex>)
    requires
        forall|a: int, b: int| 0 <= a < b < idxs.len() ==> idxs[a] != idxs[b],
    ensures
        forall|a: int, b: int|
            0 <= a < b < empty_positions(grid, idxs).len() ==> empty_positions(grid, idxs)[a]
                != empty_positions(grid, idxs)[b],
    decreases idxs.len(),
{
    if idxs.len() > 0 {
        lemma_empty_positions_distinct(grid, idxs.drop_last());
        lemma_empty_positions(grid, idxs.drop_last());
        let rest = empty_positions(grid, idxs.drop_last());
        let whole = empty_positions(grid, idxs);
        if cell_of(grid, idxs.last()) == CellValue::EMPTY {
            assert forall|a: int, b: int| 0 <= a < b < whole.len() implies whole[a]
                != whole[b] by {
                if b == whole.len() - 1 {
                    assert(whole[b] == idxs.last());
                    assert(whole[a] == rest[a]);
                    assert(idxs.drop_last().contains(rest[a]));
                    let m = choose|m: int|
                        0 <= m < idxs.drop_last().len() && idxs.drop_last()[m] == rest[a];
                    assert(idxs[m] == rest[a]);
                    assert(idxs[m] != idxs[idxs.len() - 1]);
                } else {
                    assert(whole[a] == rest[a] && whole[b] == rest[b]);
                }
            }
        }
    }
}

/// No two nonempty cells of the section share a value.
pub open spec fn section_valid(grid: Seq<CellValue>, idxs: Seq<CellIndex>) -> bool {
    forall|a: int, b: int| #![auto]
        0 <= a < b < idxs.len() ==> cell_of(grid, idxs[a]) == CellValue::EMPTY || cell_of(
            grid,
            idxs[b],
        ) == CellValue::EMPTY || cell_of(grid, idxs[a]) != cell_of(grid, idxs[b])
}

/// Every cell of the section is filled and no two share a value.
pub open spec fn section_complete(grid: Seq<CellValue>, idxs: Seq<CellIndex>) -> bool {
    (forall|k: int| 0 <= k < idxs.len() ==> cell_of(grid, #[trigger] idxs[k]) != CellValue::EMPTY)
        && (forall|a: int, b: int| #![auto]
        0 <= a < b < idxs.len() ==> cell_of(grid, idxs[a]) != cell_of(grid, idxs[b]))
}

impl<'a, T> Section<'a, T> where T: Index {
    /// The section of `puzzle` named by `idx`.
    pub fn new(puzzle: &'a Puzzle, idx: T) -> (r: Self)
        ensures
            r.puzzle == puzzle,
            r.idx == idx,
    {
        Section { puzzle, idx }
    }

    /// The section's nine cells, in section order.
    pub fn cells(&self) -> (r: Vec<Cell<'a>>)
        requires
            self.idx.wf(),
        ensures
            r@.len() == 9,
            forall|k: int|
                0 <= k < 9 ==> (#[trigger] r@[k]).puzzle == self.puzzle && r@[k].idx
                    == self.idx.cells_spec()[k],
    {
        proof {
            self.idx.cells_spec_wf();
        }
        let idxs = self.idx.cells();
        let mut r: Vec<Cell<'a>> = Vec::new();
        let mut k: usize = 0;
        while k < idxs.len()
            invariant
                k <= idxs@.len() == 9,
                idxs@ == self.idx.cells_spec(),
                r@.len() == k,
                forall|j: int|
                    0 <= j < k ==> (#[trigger] r@[j]).puzzle == self.puzzle && r@[j].idx
                        == self.idx.cells_spec()[j],
            decreases idxs@.len() - k,
        {
            r.push(Cell { puzzle: self.puzzle, idx: idxs[k].clone() });
            proof {
                assert(idxs@[k as int].x == r@[k as int].idx.x && idxs@[k as int].y == r@[
                    k as int].idx.y);
            }
            k = k + 1;
        }
        r
    }

    /// The section's cells that hold a value, in section order.
    pub fn nonempty_cells(&self) -> (r: Vec<Cell<'a>>)
        requires
            self.idx.wf(),
            self.puzzle.wf(),
        ensures
            r@.map_values(|c: Cell<'a>| c.idx) == nonempty_positions(
                self.puzzle.grid@,
                self.idx.cells_spec(),
            ),
            forall|k: int| 0 <= k < r@.len() ==> (#[trigger] r@[k]).puzzle == self.puzzle,
    {
        proof {
            self.idx.cells_spec_wf();
        }
        let ghost idxs = self.idx.cells_spec();
        let cells = self.cells();
        let mut r: Vec<Cell<'a>> = Vec::new();
        let mut k: usize = 0;
        while k < cells.len()
            invariant
                k <= cells@.len() == 9,
                idxs == self.idx.cells_spec(),
                idxs.len() == 9,
                forall|j: int| 0 <= j < 9 ==> (#[trigger] idxs[j]).wf(),
                self.puzzle.wf(),
                forall|j: int|
                    0 <= j < 9 ==> (#[trigger] cells@[j]).puzzle == self.puzzle && cells@[j].idx
                        == idxs[j],
                r@.map_values(|c: Cell<'a>| c.idx) == nonempty_positions(
                    self.puzzle.grid@,
                    idxs.take(k as int),
                ),
                forall|j: int| 0 <= j < r@.len() ==> (#[trigger] r@[j]).puzzle == self.puzzle,
            decreases cells@.len() - k,
        {
            let ghost r0 = r@;
            let c = &cells[k];
            if !matches!(c.value(), CellValue::EMPTY) {
                r.push(Cell { puzzle: c.puzzle, idx: c.idx.clone() });
                proof {
                    assert(r@[r@.len() - 1].idx == idxs[k as int]);
                    assert(r@.map_values(|x: Cell<'a>| x.idx) =~= r0.map_values(
                        |x: Cell<'a>| x.idx,
                    ).push(idxs[k as int]));
                }
            }
            proof {
                assert(idxs.take(k + 1).drop_last() =~= idxs.take(k as int));
                assert(idxs.take(k + 1).last() == idxs[k as int]);
            }
            k = k + 1;
        }
        proof {
            assert(idxs.take(9) =~= idxs);
        }
        r
    }

    /// The section's cells that are still empty, in section order.
    pub fn empty_cells(&self) -> (r: Vec<Cell<'a>>)
        requires
            self.idx.wf(),
            self.puzzle.wf(),
        ensures
            r@.map_values(|c: Cell<'a>| c.idx) == empty_positions(
                self.puzzle.grid@,
                self.idx.cells_spec(),
            ),
            forall|k: int| 0 <= k < r@.len() ==> (#[trigger] r@[k]).puzzle == self.puzzle,
    {
        proof {
            self.idx.cells_spec_wf();
        }
        let ghost idxs = self.idx.cells_spec();
        let cells = self.cells();
        let mut r: Vec<Cell<'a>> = Vec::new();
        let mut k: usize = 0;
        while k < cells.len()
            invariant
                k <= cells@.len() == 9,
                idxs == self.idx.cells_spec(),
                idxs.len() == 9,
                forall|j: int| 0 <= j < 9 ==> (#[trigger] idxs[j]).wf(),
                self.puzzle.wf(),
                forall|j: int|
                    0 <= j < 9 ==> (#[trigger] cells@[j]).puzzle == self.puzzle && cells@[j].idx
                        == idxs[j],
                r@.map_values(|c: Cell<'a>| c.idx) == empty_positions(
                    self.puzzle.grid@,
                    idxs.take(k as int),
                ),
                forall|j: int| 0 <= j < r@.len() ==> (#[trigger] r@[j]).puzzle == self.puzzle,
            decreases cells@.len() - k,
        {
            let ghost r0 = r@;
            let c = &cells[k];
            if matches!(c.value(), CellValue::EMPTY) {
                r.push(Cell { puzzle: c.puzzle, idx: c.idx.clone() });
                proof {
                    assert(r@[r@.len() - 1].idx == idxs[k as int]);
                    assert(r@.map_values(|x: Cell<'a>| x.idx) =~= r0.map_values(
                        |x: Cell<'a>| x.idx,
                    ).push(idxs[k as int]));
                }
            }
            proof {
                assert(idxs.take(k + 1).drop_last() =~= idxs.take(k as int));
                assert(idxs.take(k + 1).last() == idxs[k as int]);
            }
            k = k + 1;
        }
        proof {
            assert(idxs.take(9) =~= idxs);
        }
        r
    }

    /// Whether no two filled cells of the section share a value.
    pub fn is_valid(&self) -> (r: bool)
        requires
            self.idx.wf(),
            self.puzzle.wf(),
        ensures
            r == section_valid(self.puzzle.grid@, self.idx.cells_spec()),
    {
        proof {
            self.idx.cells_spec_wf();
        }
        let ghost idxs = self.idx.cells_spec();
        let cells = self.cells();
        let mut a: usize = 0;
        while a < cells.len()
            invariant
                a <= cells@.len() == 9,
                idxs == self.idx.cells_spec(),
                idxs.len() == 9,
                forall|j: int| 0 <= j < 9 ==> (#[trigger] idxs[j]).wf(),
                self.puzzle.wf(),
                forall|j: int|
                    0 <= j < 9 ==> (#[trigger] cells@[j]).puzzle == self.puzzle && cells@[j].idx
                        == idxs[j],
                forall|i: int, j: int| #![auto]
                    0 <= i < j < 9 && i < a ==> cell_of(self.puzzle.grid@, idxs[i])
                        == CellValue::EMPTY || cell_of(self.puzzle.grid@, idxs[j])
                        == CellValue::EMPTY || cell_of(self.puzzle.grid@, idxs[i]) != cell_of(
                        self.puzzle.grid@,
                        idxs[j],
                    ),
            decreases cells@.len() - a,
        {
            let va = cells[a].value();
            if !matches!(va, CellValue::EMPTY) {
                let mut b: usize = a + 1;
                while b < cells.len()
                    invariant
                        a < b <= cells@.len() == 9,
                        idxs == self.idx.cells_spec(),
                        idxs.len() == 9,
                        forall|j: int| 0 <= j < 9 ==> (#[trigger] idxs[j]).wf(),
                        self.puzzle.wf(),
                        forall|j: int|
                            0 <= j < 9 ==> (#[trigger] cells@[j]).puzzle == self.puzzle
                                && cells@[j].idx == idxs[j],
                        va == cell_of(self.puzzle.grid@, idxs[a as int]),
                        va != CellValue::EMPTY,
                        forall|j: int| #![auto]
                            a < j < b ==> cell_of(self.puzzle.grid@, idxs[j]) == CellValue::EMPTY
                                || cell_of(self.puzzle.grid@, idxs[a as int]) != cell_of(
                                self.puzzle.grid@,
                                idxs[j],
                            ),
                    decreases cells@.len() - b,
                {
                    let vb = cells[b].value();
                    if !matches!(vb, CellValue::EMPTY) && va == vb {
                        return false;
                    }
                    b = b + 1;
                }
            }
            a = a + 1;
        }
        true
    }

    /// Whether the section holds all nine digits, one per cell.
    pub fn is_complete(&self) -> (r: bool)
        requires
            self.idx.wf(),
            self.puzzle.wf(),
        ensures
            r == section_complete(self.puzzle.grid@, self.idx.cells_spec()),
    {
        proof {
            self.idx.cells_spec_wf();
        }
        let ghost idxs = self.idx.cells_spec();
        let cells = self.cells();
        let mut k: usize = 0;
        while k < cells.len()
            invariant
                k <= cells@.len() == 9,
                idxs == self.idx.cells_spec(),
                idxs.len() == 9,
                forall|j: int| 0 <= j < 9 ==> (#[trigger] idxs[j]).wf(),
                self.puzzle.wf(),
                forall|j: int|
                    0 <= j < 9 ==> (#[trigger] cells@[j]).puzzle == self.puzzle && cells@[j].idx
                        == idxs[j],
                forall|j: int|
                    0 <= j < k ==> cell_of(self.puzzle.grid@, #[trigger] idxs[j])
                        != CellValue::EMPTY,
            decreases cells@.len() - k,
        {
            if matches!(cells[k].value(), CellValue::EMPTY) {
                return false;
            }
            k = k + 1;
        }
        let mut a: usize = 0;
        while a < cells.len()
            invariant
                a <= cells@.len() == 9,
                idxs == self.idx.cells_spec(),
                idxs.len() == 9,
                forall|j: int| 0 <= j < 9 ==> (#[trigger] idxs[j]).wf(),
                self.puzzle.wf(),
                forall|j: int|
                    0 <= j < 9 ==> (#[trigger] cells@[j]).puzzle == self.puzzle && cells@[j].idx
                        == idxs[j],
                forall|j: int|
                    0 <= j < 9 ==> cell_of(self.puzzle.grid@, #[trigger] idxs[j])
                        != CellValue::EMPTY,
                forall|i: int, j: int| #![auto]
                    0 <= i < j < 9 && i < a ==> cell_of(self.puzzle.grid@, idxs[i]) != cell_of(
                        self.puzzle.grid@,
                        idxs[j],
                    ),
            decreases cells@.len() - a,
        {
            let va = cells[a].value();
            let mut b: usize = a + 1;
            while b < cells.len()
                invariant
                    a < b <= cells@.len() == 9,
                    idxs == self.idx.cells_spec(),
                    idxs.len() == 9,
                    forall|j: int| 0 <= j < 9 ==> (#[trigger] idxs[j]).wf(),
                    self.puzzle.wf(),
                    forall|j: int|
                        0 <= j < 9 ==> (#[trigger] cells@[j]).puzzle == self.puzzle
                            && cells@[j].idx == idxs[j],
                    va == cell_of(self.puzzle.grid@, idxs[a as int]),
                    forall|j: int| #![auto]
                        a < j < b ==> cell_of(self.puzzle.grid@, idxs[a as int]) != cell_of(
                            self.puzzle.grid@,
                            idxs[j],
                        ),
                decreases cells@.len() - b,
            {
                if va == cells[b].value() {
                    return false;
                }
                b = b + 1;
            }
            a = a + 1;
        }
        true
    }
}


/// All eighty-one positions, row-major.
pub open spec fn all_positions() -> Seq<CellIndex> {
    Seq::new(81, |k: int| CellIndex { x: (k % 9) as usize, y: (k / 9) as usize })
}

/// The cell positions of row `i`.
pub open spec fn row_cells(i: int) -> Seq<CellIndex> {
    (RowIndex { idx: i as usize }).cells_spec()
}

/// The cell positions of column `i`.
pub open spec fn col_cells(i: int) -> Seq<CellIndex> {
    (ColumnIndex { idx: i as usize }).cells_spec()
}

/// The cell positions of subgrid `i`.
pub open spec fn subgrid_cells(i: int) -> Seq<CellIndex> {
    (SubgridIndex { idx: i as usize }).cells_spec()
}

/// A member of a subgrid's cell list lies on the grid, in that subgrid.
pub proof fn lemma_subgrid_member_coords(sg: int, p: CellIndex)
    requires
        0 <= sg < 9,
        subgrid_cells(sg).contains(p),
    ensures
        p.x < 9,
        p.y < 9,
        p.x as int / 3 == sg % 3,
        p.y as int / 3 == sg / 3,
{
    let m = choose|m: int| 0 <= m < subgrid_cells(sg).len() && subgrid_cells(sg)[m] == p;
    assert(p.x as int == (sg % 3) * 3 + m % 3 && p.y as int == (sg / 3) * 3 + m / 3);
    assert(p.x as int / 3 == sg % 3 && p.y as int / 3 == sg / 3) by (nonlinear_arith)
        requires
            0 <= m < 9,
            0 <= sg < 9,
            p.x as int == (sg % 3) * 3 + m % 3,
            p.y as int == (sg / 3) * 3 + m / 3,
    ;
}

/// Every position inside a subgrid stands in that subgrid's cell list.
pub proof fn lemma_subgrid_covers(sg: int, bx: int, by: int)
    requires
        0 <= sg < 9,
        0 <= bx < 9,
        0 <= by < 9,
        bx / 3 == sg % 3,
        by / 3 == sg / 3,
    ensures
        subgrid_cells(sg).contains(CellIndex { x: bx as usize, y: by as usize }),
{
    let m = (by % 3) * 3 + bx % 3;
    assert((sg % 3) * 3 + m % 3 == bx && (sg / 3) * 3 + m / 3 == by) by (nonlinear_arith)
        requires
            0 <= bx < 9,
            0 <= by < 9,
            m == (by % 3) * 3 + bx % 3,
            sg % 3 == bx / 3,
            sg / 3 == by / 3,
    ;
    assert(subgrid_cells(sg)[m] == (CellIndex { x: bx as usize, y: by as usize }));
}

/// No two entries of a subgrid's cell list name the same position.
pub proof fn lemma_subgrid_cells_distinct(sg: int)
    requires
        0 <= sg < 9,
    ensures
        forall|a: int, b: int|
            0 <= a < b < subgrid_cells(sg).len() ==> subgrid_cells(sg)[a] != subgrid_cells(sg)[b],
{
    assert forall|a: int, b: int|
        0 <= a < b < subgrid_cells(sg).len() implies subgrid_cells(sg)[a] != subgrid_cells(
        sg,
    )[b] by {
        assert(a % 3 != b % 3 || a / 3 != b / 3) by (nonlinear_arith)
            requires
                0 <= a < b < 9,
        ;
    }
}

/// No row, column or subgrid repeats a value.
pub open spec fn puzzle_valid(grid: Seq<CellValue>) -> bool {
    &&& forall|i: int| 0 <= i < 9 ==> #[trigger] section_valid(grid, row_cells(i))
    &&& forall|i: int| 0 <= i < 9 ==> #[trigger] section_valid(grid, col_cells(i))
    &&& forall|i: int| 0 <= i < 9 ==> #[trigger] section_valid(grid, subgrid_cells(i))
}

/// Every row, column and subgrid holds all nine digits.
pub open spec fn puzzle_complete(grid: Seq<CellValue>) -> bool {
    &&& forall|i: int| 0 <= i < 9 ==> #[trigger] section_complete(grid, row_cells(i))
    &&& forall|i: int| 0 <= i < 9 ==> #[trigger] section_complete(grid, col_cells(i))
    &&& forall|i: int| 0 <= i < 9 ==> #[trigger] section_complete(grid, subgrid_cells(i))
}

impl Puzzle {
    /// All eighty-one cells, row-major.
    pub fn get_cells(&self) -> (r: Vec<Cell<'_>>)
        ensures
            r@.len() == 81,
            forall|k: int|
                0 <= k < 81 ==> (#[trigger] r@[k]).puzzle == self && r@[k].idx
                    == all_positions()[k],
    {
        let mut r: Vec<Cell<'_>> = Vec::new();
        let mut k: usize = 0;
        while k < 81
            invariant
                k <= 81,
                r@.len() == k,
                forall|j: int|
                    0 <= j < k ==> (#[trigger] r@[j]).puzzle == self && r@[j].idx
                        == all_positions()[j],
            decreases 81 - k,
        {
            r.push(Cell { puzzle: self, idx: CellIndex { x: k % 9, y: k / 9 } });
            k = k + 1;
        }
        r
    }

    /// The cells that hold a value, row-major.
    pub fn get_nonempty_cells(&self) -> (r: Vec<Cell<'_>>)
        requires
            self.wf(),
        ensures
            r@.map_values(|c: Cell<'_>| c.idx) == nonempty_positions(self.grid@, all_positions()),
            forall|k: int| 0 <= k < r@.len() ==> (#[trigger] r@[k]).puzzle == self,
    {
        let cells = self.get_cells();
        let mut r: Vec<Cell<'_>> = Vec::new();
        let mut k: usize = 0;
        while k < cells.len()
            invariant
                k <= cells@.len() == 81,
                self.wf(),
                forall|j: int|
                    0 <= j < 81 ==> (#[trigger] cells@[j]).puzzle == self && cells@[j].idx
                        == all_positions()[j],
                r@.map_values(|c: Cell<'_>| c.idx) == nonempty_positions(
                    self.grid@,
                    all_positions().take(k as int),
                ),
                forall|j: int| 0 <= j < r@.len() ==> (#[trigger] r@[j]).puzzle == self,
            decreases cells@.len() - k,
        {
            let ghost r0 = r@;
            let c = &cells[k];
            proof {
                assert(all_positions()[k as int].wf());
            }
            if !matches!(c.value(), CellValue::EMPTY) {
                r.push(Cell { puzzle: c.puzzle, idx: c.idx });
                proof {
                    assert(r@[r@.len() - 1].idx == all_positions()[k as int]);
                    assert(r@.map_values(|x: Cell<'_>| x.idx) =~= r0.map_values(
                        |x: Cell<'_>| x.idx,
                    ).push(all_positions()[k as int]));
                }
            }
            proof {
                assert(all_positions().take(k + 1).drop_last() =~= all_positions().take(k as int));
                assert(all_positions().take(k + 1).last() == all_positions()[k as int]);
            }
            k = k + 1;
        }
        proof {
            assert(all_positions().take(81) =~= all_positions());
        }
        r
    }

    /// The cells still empty, row-major.
    pub fn get_empty_cells(&self) -> (r: Vec<Cell<'_>>)
        requires
            self.wf(),
        ensures
            r@.map_values(|c: Cell<'_>| c.idx) == empty_positions(self.grid@, all_positions()),
            forall|k: int| 0 <= k < r@.len() ==> (#[trigger] r@[k]).puzzle == self,
    {
        let cells = self.get_cells();
        let mut r: Vec<Cell<'_>> = Vec::new();
        let mut k: usize = 0;
        while k < cells.len()
            invariant
                k <= cells@.len() == 81,
                self.wf(),
                forall|j: int|
                    0 <= j < 81 ==> (#[trigger] cells@[j]).puzzle == self && cells@[j].idx
                        == all_positions()[j],
                r@.map_values(|c: Cell<'_>| c.idx) == empty_positions(
                    self.grid@,
                    all_positions().take(k as int),
                ),
                forall|j: int| 0 <= j < r@.len() ==> (#[trigger] r@[j]).puzzle == self,
            decreases cells@.len() - k,
        {
            let ghost r0 = r@;
            let c = &cells[k];
            proof {
                assert(all_positions()[k as int].wf());
            }
            if matches!(c.value(), CellValue::EMPTY) {
                r.push(Cell { puzzle: c.puzzle, idx: c.idx });
                proof {
                    assert(r@[r@.len() - 1].idx == all_positions()[k as int]);
                    assert(r@.map_values(|x: Cell<'_>| x.idx) =~= r0.map_values(
                        |x: Cell<'_>| x.idx,
                    ).push(all_positions()[k as int]));
                }
            }
            proof {
                assert(all_positions().take(k + 1).drop_last() =~= all_positions().take(k as int));
                assert(all_positions().take(k + 1).last() == all_positions()[k as int]);
            }
            k = k + 1;
        }
        proof {
            assert(all_positions().take(81) =~= all_positions());
        }
        r
    }

    /// Whether no row, column or subgrid repeats a value.
    pub fn is_valid(&self) -> (r: bool)
        requires
            self.wf(),
        ensures
            r == puzzle_valid(self.grid@),
    {
        let mut i: usize = 0;
        while i < 9
            invariant
                i <= 9,
                self.wf(),
                forall|j: int| 0 <= j < i ==> #[trigger] section_valid(self.grid@, row_cells(j)),
            decreases 9 - i,
        {
            let sec = self.get_row(RowIndex::new(i));
            if !sec.is_valid() {
                proof {
                    assert(sec.idx == (RowIndex { idx: i }));
                    assert(!section_valid(self.grid@, row_cells(i as int)));
                }
                return false;
            }
            i = i + 1;
        }
        let mut i: usize = 0;
        while i < 9
            invariant
                i <= 9,
                self.wf(),
                forall|j: int| 0 <= j < 9 ==> #[trigger] section_valid(self.grid@, row_cells(j)),
                forall|j: int| 0 <= j < i ==> #[trigger] section_valid(self.grid@, col_cells(j)),
            decreases 9 - i,
        {
            let sec = self.get_col(ColumnIndex::new(i));
            if !sec.is_valid() {
                proof {
                    assert(sec.idx == (ColumnIndex { idx: i }));
                    assert(!section_valid(self.grid@, col_cells(i as int)));
                }
                return false;
            }
            i = i + 1;
        }
        let mut i: usize = 0;
        while i < 9
            invariant
                i <= 9,
                self.wf(),
                forall|j: int| 0 <= j < 9 ==> #[trigger] section_valid(self.grid@, row_cells(j)),
                forall|j: int| 0 <= j < 9 ==> #[trigger] section_valid(self.grid@, col_cells(j)),
                forall|j: int| 0 <= j < i ==> #[trigger] section_valid(self.grid@, subgrid_cells(j)),
            decreases 9 - i,
        {
            let sec = self.get_subgrid(SubgridIndex::new(i));
            if !sec.is_valid() {
                proof {
                    assert(sec.idx == (SubgridIndex { idx: i }));
                    assert(!section_valid(self.grid@, subgrid_cells(i as int)));
                }
                return false;
            }
            i = i + 1;
        }
        true
    }

    /// Whether every row, column and subgrid holds all nine digits.
    pub fn is_complete(&self) -> (r: bool)
        requires
            self.wf(),
        ensures
            r == puzzle_complete(self.grid@),
    {
        let mut i: usize = 0;
        while i < 9
            invariant
                i <= 9,
                self.wf(),
                forall|j: int| 0 <= j < i ==> #[trigger] section_complete(self.grid@, row_cells(j)),
            decreases 9 - i,
        {
            let sec = self.get_row(RowIndex::new(i));
            if !sec.is_complete() {
                proof {
                    assert(sec.idx == (RowIndex { idx: i }));
                    assert(!section_complete(self.grid@, row_cells(i as int)));
                }
                return false;
            }
            i = i + 1;
        }
        let mut i: usize = 0;
        while i < 9
            invariant
                i <= 9,
                self.wf(),
                forall|j: int| 0 <= j < 9 ==> #[trigger] section_complete(self.grid@, row_cells(j)),
                forall|j: int| 0 <= j < i ==> #[trigger] section_complete(self.grid@, col_cells(j)),
            decreases 9 - i,
        {
            let sec = self.get_col(ColumnIndex::new(i));
            if !sec.is_complete() {
                proof {
                    assert(sec.idx == (ColumnIndex { idx: i }));
                    assert(!section_complete(self.grid@, col_cells(i as int)));
                }
                return false;
            }
            i = i + 1;
        }
        let mut i: usize = 0;
        while i < 9
            invariant
                i <= 9,
                self.wf(),
                forall|j: int| 0 <= j < 9 ==> #[trigger] section_complete(self.grid@, row_cells(j)),
                forall|j: int| 0 <= j < 9 ==> #[trigger] section_complete(self.grid@, col_cells(j)),
                forall|j: int| 0 <= j < i ==> #[trigger] section_complete(self.grid@, subgrid_cells(j)),
            decreases 9 - i,
        {
            let sec = self.get_subgrid(SubgridIndex::new(i));
            if !sec.is_complete() {
                proof {
                    assert(sec.idx == (SubgridIndex { idx: i }));
                    assert(!section_complete(self.grid@, subgrid_cells(i as int)));
                }
                return false;
            }
            i = i + 1;
        }
        true
    }
}


/// Why a puzzle string was rejected.
#[derive(Copy, Clone, PartialEq, Eq, Debug, Structural)]
pub enum ParseError {
    /// Fewer than nine rows of at least nine characters.
    WrongNumberOfRows,
}

/// Where the line starting at `i` ends: the position of the next
/// newline, or the end of the text.
pub open spec fn line_end(s: Seq<u8>, i: int) -> int
    decreases s.len() - i,
{
    if i < 0 || i >= s.len() {
        s.len() as int
    } else if s[i] == 10 {
        i
    } else {
        line_end(s, i + 1)
    }
}

/// The end of a line lies between its start and the end of the text,
/// no newline stands before it, and a newline stands at it unless the
/// text ends there.
pub proof fn lemma_line_end(s: Seq<u8>, i: int)
    requires
        0 <= i <= s.len(),
    ensures
        i <= line_end(s, i) <= s.len(),
        forall|j: int| i <= j < line_end(s, i) ==> s[j] != 10,
        line_end(s, i) < s.len() ==> s[line_end(s, i)] == 10,
    decreases s.len() - i,
{
    if i < s.len() && s[i] != 10 {
        lemma_line_end(s, i + 1);
    }
}

/// A stretch with no newline before position `e` ends at `e`, where the
/// text has a newline or ends.
pub proof fn lemma_line_end_at(s: Seq<u8>, i: int, e: int)
    requires
        0 <= i <= e <= s.len(),
        forall|j: int| i <= j < e ==> s[j] != 10,
        e < s.len() ==> s[e] == 10,
    ensures
        line_end(s, i) == e,
    decreases e - i,
{
    if i < e {
        lemma_line_end_at(s, i + 1, e);
    }
}

/// The rows of `s` from position `i`: the newline-separated stretches,
/// without a trailing empty row when the text ends in a newline.
pub open spec fn rows_from(s: Seq<u8>, i: int) -> Seq<Seq<u8>>
    decreases s.len() - i + 1,
    when 0 <= i
    via rows_from_decreases
{
    if i >= s.len() {
        Seq::empty()
    } else {
        seq![s.subrange(i, line_end(s, i))] + rows_from(s, line_end(s, i) + 1)
    }
}

#[via_fn]
proof fn rows_from_decreases(s: Seq<u8>, i: int) {
    if 0 <= i < s.len() {
        lemma_line_end(s, i);
    }
}

/// The rows of at least nine characters, in order.
pub open spec fn wide_rows(rows: Seq<Seq<u8>>) -> Seq<Seq<u8>>
    decreases rows.len(),
{
    if rows.len() == 0 {
        Seq::empty()
    } else {
        let rest = wide_rows(rows.drop_last());
        if rows.last().len() >= 9 {
            rest.push(rows.last())
        } else {
            rest
        }
    }
}

/// What parsing a puzzle text yields: the first nine characters of each
/// of the first nine rows wide enough to hold a full row, each digit as
/// itself and every other character as an empty cell; nothing, when
/// fewer than nine such rows exist.
pub open spec fn parse_spec(s: Seq<u8>) -> Option<Seq<CellValue>> {
    let rows = wide_rows(rows_from(s, 0));
    if rows.len() < 9 {
        Option::None
    } else {
        Option::Some(Seq::new(81, |k: int| digit_value(rows[k / 9][k % 9])))
    }
}

/// The cell value a puzzle character stands for.
fn digit_cell(b: u8) -> (r: CellValue)
    ensures
        r == digit_value(b),
{
    if b == 49 {
        CellValue::ONE
    } else if b == 50 {
        CellValue::TWO
    } else if b == 51 {
        CellValue::THREE
    } else if b == 52 {
        CellValue::FOUR
    } else if b == 53 {
        CellValue::FIVE
    } else if b == 54 {
        CellValue::SIX
    } else if b == 55 {
        CellValue::SEVEN
    } else if b == 56 {
        CellValue::EIGHT
    } else if b == 57 {
        CellValue::NINE
    } else {
        CellValue::EMPTY
    }
}

impl Puzzle {
    /// Parses a puzzle from its textual rows.
    ///
    /// Rows are split on newlines; rows of fewer than nine characters
    /// are skipped, the first nine characters of each of the first nine
    /// remaining rows fill the grid, and fewer than nine such rows is a
    /// hard input error.
    pub fn from_str(s: &[u8]) -> (r: Result<Puzzle, ParseError>)
        ensures
            match r {
                Ok(p) => parse_spec(s@) == Option::Some(p.grid@) && p.wf(),
                Err(e) => parse_spec(s@) is None && e == ParseError::WrongNumberOfRows,
            },
    {
        let n = s.len();
        let mut rows: Vec<Vec<u8>> = Vec::new();
        let mut cur: Vec<u8> = Vec::new();
        let ghost mut line_start: int = 0;
        let mut i: usize = 0;
        while i < n
            invariant
                0 <= line_start <= i <= n == s@.len(),
                cur@ == s@.subrange(line_start, i as int),
                forall|j: int| line_start <= j < i ==> s@[j] != 10,
                rows_from(s@, 0) == rows@.map_values(|v: Vec<u8>| v@) + rows_from(s@, line_start),
            decreases n - i,
        {
            let ghost rows0 = rows@.map_values(|v: Vec<u8>| v@);
            if s[i] == 10 {
                proof {
                    lemma_line_end_at(s@, line_start, i as int);
                    assert(rows_from(s@, line_start) == seq![s@.subrange(line_start, i as int)]
                        + rows_from(s@, i + 1));
                }
                rows.push(cur);
                cur = Vec::new();
                proof {
                    assert(rows@.map_values(|v: Vec<u8>| v@) =~= rows0.push(
                        s@.subrange(line_start, i as int),
                    ));
                    assert(rows0.push(s@.subrange(line_start, i as int)) + rows_from(s@, i + 1)
                        =~= rows0 + (seq![s@.subrange(line_start, i as int)] + rows_from(
                        s@,
                        i + 1,
                    )));
                    assert(cur@ =~= s@.subrange(i + 1, i + 1));
                }
                proof {
                    line_start = i + 1;
                }
            } else {
                cur.push(s[i]);
                proof {
                    assert(cur@ =~= s@.subrange(line_start, i + 1));
                }
            }
            i = i + 1;
        }
        if cur.len() > 0 {
            let ghost rows0 = rows@.map_values(|v: Vec<u8>| v@);
            proof {
                lemma_line_end_at(s@, line_start, n as int);
                assert(rows_from(s@, line_start) == seq![s@.subrange(line_start, n as int)]
                    + rows_from(s@, n as int + 1));
                assert(rows_from(s@, n as int + 1) =~= Seq::<Seq<u8>>::empty());
            }
            rows.push(cur);
            proof {
                assert(rows@.map_values(|v: Vec<u8>| v@) =~= rows0.push(
                    s@.subrange(line_start, n as int),
                ));
                assert(rows_from(s@, 0) =~= rows@.map_values(|v: Vec<u8>| v@));
            }
        } else {
            proof {
                assert(line_start == i);
                assert(rows_from(s@, line_start) =~= Seq::<Seq<u8>>::empty());
                assert(rows_from(s@, 0) =~= rows@.map_values(|v: Vec<u8>| v@));
            }
        }
        let ghost all_rows = rows@.map_values(|v: Vec<u8>| v@);
        let mut wide: Vec<Vec<u8>> = Vec::new();
        let mut k: usize = 0;
        while k < rows.len()
            invariant
                k <= rows@.len(),
                all_rows == rows@.map_values(|v: Vec<u8>| v@),
                wide@.map_values(|v: Vec<u8>| v@) == wide_rows(all_rows.take(k as int)),
                forall|j: int| 0 <= j < wide@.len() ==> (#[trigger] wide@[j])@.len() >= 9,
            decreases rows@.len() - k,
        {
            let ghost w0 = wide@.map_values(|v: Vec<u8>| v@);
            if rows[k].len() >= 9 {
                wide.push(vstd::slice::slice_to_vec(rows[k].as_slice()));
                proof {
                    assert(wide@.map_values(|v: Vec<u8>| v@) =~= w0.push(all_rows[k as int]));
                }
            }
            proof {
                assert(all_rows.take(k + 1).drop_last() =~= all_rows.take(k as int));
                assert(all_rows.take(k + 1).last() == all_rows[k as int]);
            }
            k = k + 1;
        }
        proof {
            assert(all_rows.take(rows@.len() as int) =~= all_rows);
        }
        let ghost wrows = wide_rows(rows_from(s@, 0));
        if wide.len() < 9 {
            return Err(ParseError::WrongNumberOfRows);
        }
        let mut grid: Vec<CellValue> = Vec::new();
        let mut rr: usize = 0;
        while rr < 9
            invariant
                rr <= 9,
                wide@.len() >= 9,
                wrows == wide@.map_values(|v: Vec<u8>| v@),
                forall|j: int| 0 <= j < wide@.len() ==> (#[trigger] wide@[j])@.len() >= 9,
                grid@.len() == rr * 9,
                forall|m: int|
                    0 <= m < rr * 9 ==> #[trigger] grid@[m] == digit_value(wrows[m / 9][m % 9]),
            decreases 9 - rr,
        {
            let mut cc: usize = 0;
            while cc < 9
                invariant
                    rr < 9,
                    cc <= 9,
                    wide@.len() >= 9,
                    wrows == wide@.map_values(|v: Vec<u8>| v@),
                    forall|j: int| 0 <= j < wide@.len() ==> (#[trigger] wide@[j])@.len() >= 9,
                    grid@.len() == rr * 9 + cc,
                    forall|m: int|
                        0 <= m < rr * 9 + cc ==> #[trigger] grid@[m] == digit_value(
                            wrows[m / 9][m % 9],
                        ),
                decreases 9 - cc,
            {
                let b = wide[rr][cc];
                grid.push(digit_cell(b));
                proof {
                    let m = rr * 9 + cc;
                    assert(m / 9 == rr && m % 9 == cc) by (nonlinear_arith)
                        requires
                            0 <= rr < 9,
                            0 <= cc < 9,
                            m == rr * 9 + cc,
                    ;
                    assert(grid@[m as int] == digit_value(wrows[m as int / 9][m as int % 9]));
                }
                cc = cc + 1;
            }
            rr = rr + 1;
        }
        let p = Puzzle { grid };
        proof {
            assert(p.grid@ =~= Seq::new(81, |k: int| digit_value(wrows[k / 9][k % 9])));
        }
        Ok(p)
    }
}


/// Whether positions (`x`, `y`) and (`bx`, `by`) share a row, a column
/// or a subgrid.
pub open spec fn sees(x: int, y: int, bx: int, by: int) -> bool {
    by == y || bx == x || (bx / 3 == x / 3 && by / 3 == y / 3)
}

/// Whether value `v` is ruled out at (`x`, `y`): some cell sharing its
/// row, column or subgrid holds `v`.
pub open spec fn eliminated(grid: Seq<CellValue>, x: int, y: int, v: CellValue) -> bool {
    v != CellValue::EMPTY && exists|bx: int, by: int|
        0 <= bx < 9 && 0 <= by < 9 && sees(x, y, bx, by) && #[trigger] grid_at(grid, bx, by) == v
}

/// Whether value `v` may still be written at (`x`, `y`).
pub open spec fn possible(grid: Seq<CellValue>, x: int, y: int, v: CellValue) -> bool {
    v != CellValue::EMPTY && !eliminated(grid, x, y, v)
}

/// Whether `x` occurs in `v`.
fn contains_value(v: &Vec<CellValue>, x: CellValue) -> (r: bool)
    ensures
        r == v@.contains(x),
{
    let n = v.len();
    let mut i: usize = 0;
    while i < n
        invariant
            i <= n == v@.len(),
            forall|j: int| 0 <= j < i ==> v@[j] != x,
        decreases n - i,
    {
        if v[i] == x {
            return true;
        }
        i = i + 1;
    }
    false
}

/// Appends the values of `cells` to `r`, skipping values already there.
fn collect_values(r: &mut Vec<CellValue>, cells: &Vec<Cell<'_>>, puzzle: &Puzzle)
    requires
        puzzle.wf(),
        forall|k: int|
            0 <= k < cells@.len() ==> (#[trigger] cells@[k]).puzzle == puzzle
                && cells@[k].idx.wf(),
        forall|a: int, b: int| 0 <= a < b < old(r)@.len() ==> old(r)@[a] != old(r)@[b],
    ensures
        forall|a: int, b: int| 0 <= a < b < final(r)@.len() ==> final(r)@[a] != final(r)@[b],
        forall|v: CellValue|
            final(r)@.contains(v) <==> (old(r)@.contains(v) || exists|k: int|
                0 <= k < cells@.len() && v == cell_of(puzzle.grid@, (#[trigger] cells@[k]).idx)),
{
    let n = cells.len();
    let mut i: usize = 0;
    while i < n
        invariant
            i <= n == cells@.len(),
            puzzle.wf(),
            forall|k: int|
                0 <= k < cells@.len() ==> (#[trigger] cells@[k]).puzzle == puzzle
                    && cells@[k].idx.wf(),
            forall|a: int, b: int| 0 <= a < b < r@.len() ==> r@[a] != r@[b],
            forall|v: CellValue|
                r@.contains(v) <==> (old(r)@.contains(v) || exists|k: int|
                    0 <= k < i && v == cell_of(puzzle.grid@, (#[trigger] cells@[k]).idx)),
        decreases n - i,
    {
        let ghost r0 = r@;
        let c = &cells[i];
        let v = c.value();
        if !contains_value(r, v) {
            r.push(v);
            proof {
                assert(r@[r@.len() - 1] == v);
                assert forall|w: CellValue| #[trigger] r@.contains(w) implies (r0.contains(w) || w
                    == v) by {
                    let m = choose|m: int| 0 <= m < r@.len() && r@[m] == w;
                    if m < r@.len() - 1 {
                        assert(r0[m] == w);
                    }
                }
                assert forall|w: CellValue| r0.contains(w) implies r@.contains(w) by {
                    let m = choose|m: int| 0 <= m < r0.len() && r0[m] == w;
                    assert(r@[m] == w);
                }
            }
        }
        proof {
            assert(cell_of(puzzle.grid@, cells@[i as int].idx) == v);
            assert forall|w: CellValue| #[trigger] r@.contains(w) implies (old(r)@.contains(w)
                || exists|k: int|
                0 <= k < i + 1 && w == cell_of(puzzle.grid@, (#[trigger] cells@[k]).idx)) by {
                if !r0.contains(w) {
                    assert(w == v);
                    assert(w == cell_of(puzzle.grid@, cells@[i as int].idx));
                }
            }
            assert forall|w: CellValue|
                (old(r)@.contains(w) || exists|k: int|
                    0 <= k < i + 1 && w == cell_of(
                        puzzle.grid@,
                        (#[trigger] cells@[k]).idx,
                    )) implies r@.contains(w) by {
                if old(r)@.contains(w) {
                    assert(r0.contains(w));
                } else {
                    let k = choose|k: int|
                        0 <= k < i + 1 && w == cell_of(puzzle.grid@, (#[trigger] cells@[k]).idx);
                    if k < i {
                        assert(r0.contains(w));
                    } else {
                        assert(w == v);
                        assert(r@.contains(v));
                    }
                }
            }
        }
        i = i + 1;
    }
}

impl<'a> Cell<'a> {
    /// The values this cell's row, column and subgrid already hold,
    /// each once, in first-seen order.
    pub fn get_eliminated_values(&self) -> (r: Vec<CellValue>)
        requires
            self.puzzle.wf(),
            self.idx.wf(),
        ensures
            forall|a: int, b: int| 0 <= a < b < r@.len() ==> r@[a] != r@[b],
            forall|v: CellValue|
                r@.contains(v) <==> eliminated(
                    self.puzzle.grid@,
                    self.idx.x as int,
                    self.idx.y as int,
                    v,
                ),
    {
        let ghost grid = self.puzzle.grid@;
        let ghost x = self.idx.x as int;
        let ghost y = self.idx.y as int;
        let sec_row = self.row();
        let sec_col = self.col();
        let sec_sub = self.subgrid();
        let row_cells_v = sec_row.nonempty_cells();
        let col_cells_v = sec_col.nonempty_cells();
        let sub_cells_v = sec_sub.nonempty_cells();
        let ghost g = (self.idx.y / 3) * 3 + self.idx.x / 3;
        proof {
            assert(sec_row.idx.cells_spec() =~= row_cells(y));
            assert(sec_col.idx.cells_spec() =~= col_cells(x));
            assert(sec_sub.idx.cells_spec() =~= subgrid_cells(g as int));
            lemma_nonempty_positions(grid, row_cells(y));
            lemma_nonempty_positions(grid, col_cells(x));
            lemma_nonempty_positions(grid, subgrid_cells(g as int));
            assert forall|k: int| 0 <= k < row_cells_v@.len() implies (
            #[trigger] row_cells_v@[k]).idx.wf() by {
                let ps = nonempty_positions(grid, row_cells(y));
                assert(ps[k] == row_cells_v@[k].idx);
                assert(row_cells(y).contains(ps[k]));
                let m = choose|m: int| 0 <= m < row_cells(y).len() && row_cells(y)[m] == ps[k];
                assert(row_cells(y)[m].wf());
            }
            assert forall|k: int| 0 <= k < col_cells_v@.len() implies (
            #[trigger] col_cells_v@[k]).idx.wf() by {
                let ps = nonempty_positions(grid, col_cells(x));
                assert(ps[k] == col_cells_v@[k].idx);
                assert(col_cells(x).contains(ps[k]));
                let m = choose|m: int| 0 <= m < col_cells(x).len() && col_cells(x)[m] == ps[k];
                assert(col_cells(x)[m].wf());
            }
            assert forall|k: int| 0 <= k < sub_cells_v@.len() implies (
            #[trigger] sub_cells_v@[k]).idx.wf() by {
                let ps = nonempty_positions(grid, subgrid_cells(g as int));
                assert(ps[k] == sub_cells_v@[k].idx);
                assert(subgrid_cells(g as int).contains(ps[k]));
                let m = choose|m: int|
                    0 <= m < subgrid_cells(g as int).len() && subgrid_cells(g as int)[m] == ps[k];
                assert(subgrid_cells(g as int)[m].wf());
            }
        }
        let mut r: Vec<CellValue> = Vec::new();
        collect_values(&mut r, &row_cells_v, self.puzzle);
        let ghost r1 = r@;
        collect_values(&mut r, &col_cells_v, self.puzzle);
        let ghost r2 = r@;
        collect_values(&mut r, &sub_cells_v, self.puzzle);
        proof {
            lemma_nonempty_positions(grid, row_cells(y));
            lemma_nonempty_positions(grid, col_cells(x));
            lemma_nonempty_positions(grid, subgrid_cells(g as int));
            assert(g as int == (y / 3) * 3 + x / 3);
            assert((g as int) % 3 == x / 3 && (g as int) / 3 == y / 3) by (nonlinear_arith)
                requires
                    0 <= x < 9,
                    0 <= y < 9,
                    g as int == (y / 3) * 3 + x / 3,
            ;
            let rowps = nonempty_positions(grid, row_cells(y));
            let colps = nonempty_positions(grid, col_cells(x));
            let subps = nonempty_positions(grid, subgrid_cells(g as int));
            assert forall|v: CellValue| #[trigger] r@.contains(v) implies eliminated(
                grid,
                x,
                y,
                v,
            ) by {
                if r1.contains(v) {
                    let k = choose|k: int|
                        0 <= k < row_cells_v@.len() && v == cell_of(
                            grid,
                            (#[trigger] row_cells_v@[k]).idx,
                        );
                    let p = row_cells_v@[k].idx;
                    assert(rowps[k] == p);
                    assert(row_cells(y).contains(p));
                    assert(sees(x, y, p.x as int, p.y as int));
                    assert(grid_at(grid, p.x as int, p.y as int) == v);
                } else if r2.contains(v) {
                    let k = choose|k: int|
                        0 <= k < col_cells_v@.len() && v == cell_of(
                            grid,
                            (#[trigger] col_cells_v@[k]).idx,
                        );
                    let p = col_cells_v@[k].idx;
                    assert(colps[k] == p);
                    assert(col_cells(x).contains(p));
                    assert(sees(x, y, p.x as int, p.y as int));
                    assert(grid_at(grid, p.x as int, p.y as int) == v);
                } else {
                    let k = choose|k: int|
                        0 <= k < sub_cells_v@.len() && v == cell_of(
                            grid,
                            (#[trigger] sub_cells_v@[k]).idx,
                        );
                    let p = sub_cells_v@[k].idx;
                    assert(subps[k] == p);
                    assert(subgrid_cells(g as int).contains(p));
                    let m = choose|m: int|
                        0 <= m < subgrid_cells(g as int).len() && subgrid_cells(g as int)[m] == p;
                    assert(p.x as int == (x / 3) * 3 + m % 3 && p.y as int == (y / 3) * 3 + m
                        / 3);
                    assert(p.x as int / 3 == x / 3 && p.y as int / 3 == y / 3)
                        by (nonlinear_arith)
                        requires
                            0 <= m < 9,
                            0 <= x < 9,
                            0 <= y < 9,
                            p.x as int == (x / 3) * 3 + m % 3,
                            p.y as int == (y / 3) * 3 + m / 3,
                    ;
                    assert(sees(x, y, p.x as int, p.y as int));
                    assert(grid_at(grid, p.x as int, p.y as int) == v);
                }
            }
            assert forall|v: CellValue| eliminated(grid, x, y, v) implies #[trigger] r@.contains(
                v,
            ) by {
                let (bx, by) = choose|bx: int, by: int|
                    0 <= bx < 9 && 0 <= by < 9 && sees(x, y, bx, by) && #[trigger] grid_at(
                        grid,
                        bx,
                        by,
                    ) == v;
                let p = CellIndex { x: bx as usize, y: by as usize };
                assert(cell_of(grid, p) == v && v != CellValue::EMPTY);
                if by == y {
                    assert(row_cells(y)[bx] == p);
                    assert(rowps.contains(p));
                    let k = choose|k: int| 0 <= k < rowps.len() && rowps[k] == p;
                    assert(row_cells_v@[k].idx == p);
                    assert(r1.contains(v));
                    assert(r2.contains(v));
                } else if bx == x {
                    assert(col_cells(x)[by] == p);
                    assert(colps.contains(p));
                    let k = choose|k: int| 0 <= k < colps.len() && colps[k] == p;
                    assert(col_cells_v@[k].idx == p);
                    assert(r2.contains(v));
                } else {
                    let m = (by % 3) * 3 + bx % 3;
                    assert((g as int) % 3 == bx / 3 && (g as int) / 3 == by / 3);
                    assert(((g as int) % 3) * 3 + m % 3 == bx && ((g as int) / 3) * 3 + m / 3
                        == by) by (nonlinear_arith)
                        requires
                            0 <= bx < 9,
                            0 <= by < 9,
                            m == (by % 3) * 3 + bx % 3,
                            (g as int) % 3 == bx / 3,
                            (g as int) / 3 == by / 3,
                    ;
                    assert(subgrid_cells(g as int)[m] == p);
                    assert(subps.contains(p));
                    let k = choose|k: int| 0 <= k < subps.len() && subps[k] == p;
                    assert(sub_cells_v@[k].idx == p);
                }
            }
        }
        r
    }

    /// The values this cell may still take: the digits its row, column
    /// and subgrid do not yet hold, in ascending order.
    pub fn get_possible_values(&self) -> (r: Vec<CellValue>)
        requires
            self.puzzle.wf(),
            self.idx.wf(),
        ensures
            forall|a: int, b: int| 0 <= a < b < r@.len() ==> r@[a] != r@[b],
            forall|v: CellValue|
                r@.contains(v) <==> possible(
                    self.puzzle.grid@,
                    self.idx.x as int,
                    self.idx.y as int,
                    v,
                ),
    {
        let ghost grid = self.puzzle.grid@;
        let ghost x = self.idx.x as int;
        let ghost y = self.idx.y as int;
        let elim = self.get_eliminated_values();
        let digits = all_values();
        let mut r: Vec<CellValue> = Vec::new();
        let mut i: usize = 0;
        while i < digits.len()
            invariant
                i <= digits@.len() == 9,
                digits@ == seq![
                    CellValue::ONE,
                    CellValue::TWO,
                    CellValue::THREE,
                    CellValue::FOUR,
                    CellValue::FIVE,
                    CellValue::SIX,
                    CellValue::SEVEN,
                    CellValue::EIGHT,
                    CellValue::NINE,
                ],
                forall|v: CellValue| elim@.contains(v) <==> eliminated(grid, x, y, v),
                forall|a: int, b: int| 0 <= a < b < r@.len() ==> r@[a] != r@[b],
                forall|v: CellValue|
                    r@.contains(v) <==> (exists|j: int|
                        0 <= j < i && v == digits@[j] && !eliminated(grid, x, y, v)),
            decreases digits@.len() - i,
        {
            let ghost r0 = r@;
            let v = digits[i];
            if !contains_value(&elim, v) {
                r.push(v);
                proof {
                    assert(r@[r@.len() - 1] == v);
                    assert forall|a: int, b: int| 0 <= a < b < r@.len() implies r@[a] != r@[b] by {
                        if b < r@.len() - 1 {
                            assert(r0[a] == r@[a] && r0[b] == r@[b]);
                        } else {
                            assert(r0.contains(r0[a]));
                        }
                    }
                }
            }
            proof {
                assert forall|w: CellValue| #[trigger] r@.contains(w) implies (exists|j: int|
                    0 <= j < i + 1 && w == digits@[j] && !eliminated(grid, x, y, w)) by {
                    if r0.contains(w) {
                    } else {
                        let m = choose|m: int| 0 <= m < r@.len() && r@[m] == w;
                        assert(w == digits@[i as int]);
                    }
                }
                assert forall|w: CellValue|
                    (exists|j: int|
                        0 <= j < i + 1 && w == digits@[j] && !eliminated(
                            grid,
                            x,
                            y,
                            w,
                        )) implies #[trigger] r@.contains(w) by {
                    let j = choose|j: int|
                        0 <= j < i + 1 && w == digits@[j] && !eliminated(grid, x, y, w);
                    if j < i {
                        assert(r0.contains(w));
                        let m = choose|m: int| 0 <= m < r0.len() && r0[m] == w;
                        assert(r@[m] == w);
                    } else {
                        assert(r@[r@.len() - 1] == w);
                    }
                }
            }
            i = i + 1;
        }
        proof {
            assert forall|v: CellValue| #[trigger] r@.contains(v) implies possible(
                grid,
                x,
                y,
                v,
            ) by {}
            assert forall|v: CellValue| possible(grid, x, y, v) implies #[trigger] r@.contains(
                v,
            ) by {
                assert(v == CellValue::ONE || v == CellValue::TWO || v == CellValue::THREE || v
                    == CellValue::FOUR || v == CellValue::FIVE || v == CellValue::SIX || v
                    == CellValue::SEVEN || v == CellValue::EIGHT || v == CellValue::NINE);
                if v == CellValue::ONE {
                    assert(digits_has(v, 0));
                } else if v == CellValue::TWO {
                    assert(digits_has(v, 1));
                } else if v == CellValue::THREE {
                    assert(digits_has(v, 2));
                } else if v == CellValue::FOUR {
                    assert(digits_has(v, 3));
                } else if v == CellValue::FIVE {
                    assert(digits_has(v, 4));
                } else if v == CellValue::SIX {
                    assert(digits_has(v, 5));
                } else if v == CellValue::SEVEN {
                    assert(digits_has(v, 6));
                } else if v == CellValue::EIGHT {
                    assert(digits_has(v, 7));
                } else {
                    assert(digits_has(v, 8));
                }
            }
        }
        r
    }
}

/// Whether `v` is the digit at position `j` of the digit list.
pub open spec fn digits_has(v: CellValue, j: int) -> bool {
    seq![
        CellValue::ONE,
        CellValue::TWO,
        CellValue::THREE,
        CellValue::FOUR,
        CellValue::FIVE,
        CellValue::SIX,
        CellValue::SEVEN,
        CellValue::EIGHT,
        CellValue::NINE,
    ][j] == v
}

} // verus!
