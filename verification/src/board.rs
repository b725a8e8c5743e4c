//! The board engine: a square grid of cells, each a mine or a number cell,
//! each unrevealed, flagged or revealed. Operations: random generation,
//! flag toggling, reveal with flood fill, and the external (client-safe)
//! view projection.

use std::collections::VecDeque;
use vstd::prelude::*;

verus! {

/// Whether a cell hides a mine. Fixed once the board is generated.
#[derive(Clone, Copy, PartialEq, Eq, Structural, Debug)]
pub enum CellType {
    Mine,
    Number,
}

/// The mutable face of a cell. `Revealed` is terminal; `Unrevealed` and
/// `Flagged` toggle into each other.
#[derive(Clone, Copy, PartialEq, Eq, Structural, Debug)]
pub enum CellState {
    Unrevealed,
    Flagged,
    Revealed,
}

/// One cell of the grid, carrying its own row-major position.
#[derive(Clone, Copy, PartialEq, Eq, Structural, Debug)]
pub struct Cell {
    pub index: usize,
    pub cell_type: CellType,
    pub state: CellState,
}

/// A square board of `size * size` cells in row-major order.
#[derive(Debug)]
pub struct Board {
    size: usize,
    data: Vec<Cell>,
}

/// Why a board operation was refused.
#[derive(Clone, Copy, PartialEq, Eq, Structural, Debug)]
pub enum Error {
    CoordinatesOutOfBound,
    InvalidMove,
}

/// The client-safe face of one cell: unrevealed and flagged cells look the
/// same whatever they hide; a revealed cell shows a mine or its
/// surrounding-mine count.
#[derive(Clone, Copy, PartialEq, Eq, Structural, Debug)]
pub enum ExternalCell {
    Number { value: u8 },
    Mine,
    Flagged,
    Unrevealed,
}

impl Clone for Board {
    fn clone(&self) -> (res: Board)
        ensures
            res@ == self@,
            res.spec_size() == self.spec_size(),
    {
        let data = self.data.clone();
        proof {
            assert(data@ =~= self.data@);
        }
        Board { size: self.size, data }
    }
}

impl View for Board {
    type V = Seq<Cell>;

    closed spec fn view(&self) -> Seq<Cell> {
        self.data@
    }
}

/// Position `i` lies on a board of side `size`.
pub open spec fn in_grid(size: int, i: int) -> bool {
    0 <= i < size * size
}

/// Row of position `i` in row-major order.
pub open spec fn row_of(size: int, i: int) -> int {
    i / size
}

/// Column of position `i` in row-major order.
pub open spec fn col_of(size: int, i: int) -> int {
    i % size
}

/// Positions `i` and `j` are distinct neighbours (8-neighbourhood, clipped
/// at the edges, no wraparound).
pub open spec fn adjacent(size: int, i: int, j: int) -> bool {
    &&& in_grid(size, i)
    &&& in_grid(size, j)
    &&& i != j
    &&& -1 <= row_of(size, i) - row_of(size, j) <= 1
    &&& -1 <= col_of(size, i) - col_of(size, j) <= 1
}

impl Board {
    /// Side length of the board.
    pub closed spec fn spec_size(&self) -> usize {
        self.size
    }

    /// A board is well formed when it holds exactly `size * size` cells and
    /// each cell records its own position.
    pub open spec fn wf(&self) -> bool {
        &&& self@.len() == (self.spec_size() as int) * (self.spec_size() as int)
        &&& forall|i: int| 0 <= i < self@.len() ==> (#[trigger] self@[i]).index == i
    }

    #[verifier::when_used_as_spec(spec_size)]
    pub fn size(&self) -> (s: usize)
        ensures
            s == self.spec_size(),
    {
        self.size
    }

    /// The cell at `index`, or `None` outside the board.
    pub fn get(&self, index: usize) -> (r: Option<&Cell>)
        ensures
            match r {
                Some(c) => index < self@.len() && *c == self@[index as int],
                None => index >= self@.len(),
            },
    {
        if index < self.data.len() {
            Some(&self.data[index])
        } else {
            None
        }
    }

    /// All cells in row-major order.
    pub fn iter_cells(&self) -> (r: &Vec<Cell>)
        ensures
            r@ == self@,
    {
        &self.data
    }

    /// Row-major index of `(row, column)`, or `None` outside the board.
    pub fn to_index(size: usize, row: usize, column: usize) -> (r: Option<usize>)
        requires
            (size as int) * (size as int) <= usize::MAX,
        ensures
            r == if row < size && column < size {
                Some((size * row + column) as usize)
            } else {
                None::<usize>
            },
    {
        if row >= size || column >= size {
            return None;
        }
        proof {
            lemma_row_major_bounds(size as int, row as int, column as int);
        }
        Some(size * row + column)
    }

    /// Coordinates of row-major `index`, or `None` outside the board.
    pub fn to_coords(size: usize, index: usize) -> (r: Option<(usize, usize)>)
        ensures
            r == if in_grid(size as int, index as int) {
                Some(((index / size) as usize, (index % size) as usize))
            } else {
                None::<(usize, usize)>
            },
    {
        proof {
            if size > 0 {
                lemma_div_vs_square(size as int, index as int);
            }
        }
        if size == 0 || index / size >= size {
            None
        } else {
            Some((index / size, index % size))
        }
    }
}

/// For a positive side, `index` lies on the board exactly when its row
/// `index / size` does.
proof fn lemma_div_vs_square(size: int, index: int)
    requires
        size >= 1,
        index >= 0,
    ensures
        index / size >= size <==> index >= size * size,
        index < size * size ==> 0 <= index / size < size && 0 <= index % size < size,
{
    assert((index / size >= size <==> index >= size * size) && (index < size * size ==> 0 <= index
        / size < size && 0 <= index % size < size)) by (nonlinear_arith)
        requires
            size >= 1,
            index >= 0,
    ;
}

/// 1 when `(r, c)` lies on the board and hides a mine, 0 otherwise.
/// Out-of-board coordinates (including negative ones) count 0, which is
/// what clipping the neighbourhood at the edges means.
pub open spec fn mine_at(cells: Seq<Cell>, size: int, r: int, c: int) -> int {
    if 0 <= r && r < size && 0 <= c && c < size && cells[size * r + c].cell_type
        == CellType::Mine {
        1
    } else {
        0
    }
}

/// How many of the up-to-8 neighbours of position `i` hide a mine.
pub open spec fn spec_mine_count(cells: Seq<Cell>, size: int, i: int) -> int {
    let r = row_of(size, i);
    let c = col_of(size, i);
    mine_at(cells, size, r - 1, c - 1) + mine_at(cells, size, r - 1, c) + mine_at(
        cells,
        size,
        r - 1,
        c + 1,
    ) + mine_at(cells, size, r, c - 1) + mine_at(cells, size, r, c + 1) + mine_at(
        cells,
        size,
        r + 1,
        c - 1,
    ) + mine_at(cells, size, r + 1, c) + mine_at(cells, size, r + 1, c + 1)
}

impl Board {
    /// 1 when the cell at the given coordinates (when both are present and
    /// on the board) hides a mine, 0 otherwise.
    fn mine_indicator(&self, row: Option<usize>, col: Option<usize>) -> (r: u8)
        requires
            self.wf(),
        ensures
            r as int == match (row, col) {
                (Some(rr), Some(cc)) => mine_at(self@, self.spec_size() as int, rr as int, cc as int),
                _ => 0,
            },
            0 <= r <= 1,
    {
        let size = self.size;
        let n = self.data.len(); // witnesses that the cell count fits usize
        if let (Some(rr), Some(cc)) = (row, col) {
            if rr < size && cc < size {
                proof {
                    lemma_row_major_bounds(size as int, rr as int, cc as int);
                }
                if self.data[size * rr + cc].cell_type == CellType::Mine {
                    return 1;
                }
            }
        }
        0
    }

    /// Count the mines among the up-to-8 neighbours of `index`, clipped at
    /// the board edges. Computed on demand, never cached.
    pub fn get_surrounding_mines_count(&self, index: usize) -> (count: u8)
        requires
            self.wf(),
            in_grid(self.spec_size() as int, index as int),
        ensures
            count as int == spec_mine_count(self@, self.spec_size() as int, index as int),
            count <= 8,
    {
        let size = self.size;
        proof {
            lemma_div_vs_square(size as int, index as int);
        }
        let row = index / size;
        let col = index % size;
        let mut count: u8 = 0;
        count += self.mine_indicator(row.checked_sub(1), col.checked_sub(1));
        count += self.mine_indicator(row.checked_sub(1), Some(col));
        count += self.mine_indicator(row.checked_sub(1), Some(col + 1));
        count += self.mine_indicator(Some(row), col.checked_sub(1));
        count += self.mine_indicator(Some(row), Some(col + 1));
        count += self.mine_indicator(Some(row + 1), col.checked_sub(1));
        count += self.mine_indicator(Some(row + 1), Some(col));
        count += self.mine_indicator(Some(row + 1), Some(col + 1));
        count
    }
}

/// The row-major position of `(r, c)` as a one-element sequence when the
/// coordinates lie on the board, empty otherwise (the edge clipping).
pub open spec fn clipped_position(size: int, r: int, c: int) -> Seq<usize> {
    if 0 <= r < size && 0 <= c < size {
        seq![(size * r + c) as usize]
    } else {
        Seq::empty()
    }
}

/// The neighbour positions of `i`, in emission order: the row above, the
/// same row, then the row below, each left to right, clipped at the
/// edges. Each neighbour appears exactly once.
pub open spec fn surrounding_positions(size: int, i: int) -> Seq<usize> {
    let r = row_of(size, i);
    let c = col_of(size, i);
    clipped_position(size, r - 1, c - 1) + clipped_position(size, r - 1, c) + clipped_position(
        size,
        r - 1,
        c + 1,
    ) + clipped_position(size, r, c - 1) + clipped_position(size, r, c + 1) + clipped_position(
        size,
        r + 1,
        c - 1,
    ) + clipped_position(size, r + 1, c) + clipped_position(size, r + 1, c + 1)
}

/// The emitted neighbour list repeats no position and has at most 8
/// entries.
#[verifier::rlimit(100)]
pub proof fn lemma_surrounding_positions_distinct(size: int, i: int)
    requires
        in_grid(size, i),
        size * size <= usize::MAX,
    ensures
        surrounding_positions(size, i).no_duplicates(),
        surrounding_positions(size, i).len() <= 8,
{
    let r = row_of(size, i);
    let c = col_of(size, i);
    if size >= 1 {
        lemma_div_vs_square(size, i);
        if r >= 1 {
            if c >= 1 {
                lemma_row_major_bounds(size, r - 1, c - 1);
            }
            lemma_row_major_bounds(size, r - 1, c);
            if c + 1 < size {
                lemma_row_major_bounds(size, r - 1, c + 1);
            }
        }
        if c >= 1 {
            lemma_row_major_bounds(size, r, c - 1);
        }
        if c + 1 < size {
            lemma_row_major_bounds(size, r, c + 1);
        }
        if r + 1 < size {
            if c >= 1 {
                lemma_row_major_bounds(size, r + 1, c - 1);
            }
            lemma_row_major_bounds(size, r + 1, c);
            if c + 1 < size {
                lemma_row_major_bounds(size, r + 1, c + 1);
            }
        }
    }
    let sp = surrounding_positions(size, i);
    assert forall|k1: int, k2: int|
        0 <= k1 < sp.len() && 0 <= k2 < sp.len() && k1 != k2 implies sp[k1] != sp[k2] by {}
}

/// Append the row-major index of `(row, col)` when both coordinates are
/// present and on the board; otherwise leave the vector alone.
fn push_surrounding(v: &mut Vec<usize>, size: usize, row: Option<usize>, col: Option<usize>)
    requires
        (size as int) * (size as int) <= usize::MAX,
    ensures
        final(v)@ == match (row, col) {
            (Some(rr), Some(cc)) => if rr < size && cc < size {
                old(v)@.push((size * rr + cc) as usize)
            } else {
                old(v)@
            },
            _ => old(v)@,
        },
{
    if let (Some(rr), Some(cc)) = (row, col) {
        if rr < size && cc < size {
            proof {
                lemma_row_major_bounds(size as int, rr as int, cc as int);
            }
            v.push(size * rr + cc);
        }
    }
}

impl Board {
    /// The row-major indices of the up-to-8 neighbours of `index`, clipped
    /// at the board edges: exactly the positions adjacent to `index`.
    #[verifier::rlimit(100)]
    pub fn iter_surrounding_positions(&self, index: usize) -> (result: Vec<usize>)
        requires
            self.wf(),
            in_grid(self.spec_size() as int, index as int),
        ensures
            result@ == surrounding_positions(self.spec_size() as int, index as int),
            result@.no_duplicates(),
            result@.len() <= 8,
            forall|k: int|
                0 <= k < result@.len() ==> adjacent(
                    self.spec_size() as int,
                    index as int,
                    #[trigger] result@[k] as int,
                ),
            forall|j: int|
                adjacent(self.spec_size() as int, index as int, j) ==> result@.contains(
                    j as usize,
                ),
    {
        let size = self.size;
        let n = self.data.len(); // witnesses that the cell count fits usize
        proof {
            if size == 0 {
                assert(false);
            }
            lemma_div_vs_square(size as int, index as int);
        }
        let row = index / size;
        let col = index % size;
        let ghost sz = self.spec_size() as int;
        let ghost i0 = index as int;
        let ghost r0 = row as int;
        let ghost c0 = col as int;
        proof {
            assert(i0 == sz * r0 + c0) by (nonlinear_arith)
                requires
                    sz >= 1,
                    i0 >= 0,
                    r0 == i0 / sz,
                    c0 == i0 % sz,
            ;
            if r0 >= 1 {
                if c0 >= 1 {
                    lemma_row_major_bounds(sz, r0 - 1, c0 - 1);
                }
                lemma_row_major_bounds(sz, r0 - 1, c0);
                if c0 + 1 < sz {
                    lemma_row_major_bounds(sz, r0 - 1, c0 + 1);
                }
            }
            if c0 >= 1 {
                lemma_row_major_bounds(sz, r0, c0 - 1);
            }
            if c0 + 1 < sz {
                lemma_row_major_bounds(sz, r0, c0 + 1);
            }
            if r0 + 1 < sz {
                if c0 >= 1 {
                    lemma_row_major_bounds(sz, r0 + 1, c0 - 1);
                }
                lemma_row_major_bounds(sz, r0 + 1, c0);
                if c0 + 1 < sz {
                    lemma_row_major_bounds(sz, r0 + 1, c0 + 1);
                }
            }
        }
        let ghost s1 = clipped_position(sz, r0 - 1, c0 - 1);
        let ghost s2 = clipped_position(sz, r0 - 1, c0);
        let ghost s3 = clipped_position(sz, r0 - 1, c0 + 1);
        let ghost s4 = clipped_position(sz, r0, c0 - 1);
        let ghost s5 = clipped_position(sz, r0, c0 + 1);
        let ghost s6 = clipped_position(sz, r0 + 1, c0 - 1);
        let ghost s7 = clipped_position(sz, r0 + 1, c0);
        let ghost s8 = clipped_position(sz, r0 + 1, c0 + 1);
        let mut result: Vec<usize> = Vec::new();
        push_surrounding(&mut result, size, row.checked_sub(1), col.checked_sub(1));
        proof {
            assert(all_adjacent(result@, sz, i0));
            assert(result@ =~= s1);
        }
        push_surrounding(&mut result, size, row.checked_sub(1), Some(col));
        proof {
            assert(all_adjacent(result@, sz, i0));
            assert(result@ =~= s1 + s2);
        }
        push_surrounding(&mut result, size, row.checked_sub(1), Some(col + 1));
        proof {
            assert(all_adjacent(result@, sz, i0));
            assert(result@ =~= s1 + s2 + s3);
        }
        push_surrounding(&mut result, size, Some(row), col.checked_sub(1));
        proof {
            assert(all_adjacent(result@, sz, i0));
            assert(result@ =~= s1 + s2 + s3 + s4);
        }
        push_surrounding(&mut result, size, Some(row), Some(col + 1));
        proof {
            assert(all_adjacent(result@, sz, i0));
            assert(result@ =~= s1 + s2 + s3 + s4 + s5);
        }
        push_surrounding(&mut result, size, Some(row + 1), col.checked_sub(1));
        proof {
            assert(all_adjacent(result@, sz, i0));
            assert(result@ =~= s1 + s2 + s3 + s4 + s5 + s6);
        }
        push_surrounding(&mut result, size, Some(row + 1), Some(col));
        proof {
            assert(all_adjacent(result@, sz, i0));
            assert(result@ =~= s1 + s2 + s3 + s4 + s5 + s6 + s7);
        }
        push_surrounding(&mut result, size, Some(row + 1), Some(col + 1));
        proof {
            broadcast use vstd::seq_lib::lemma_seq_contains_after_push;

            assert(all_adjacent(result@, sz, i0));
            assert(result@ =~= s1 + s2 + s3 + s4 + s5 + s6 + s7 + s8);
            assert(result@ =~= surrounding_positions(sz, i0));
            lemma_surrounding_positions_distinct(sz, i0);
            assert(r0 >= 1 && c0 >= 1 ==> result@.contains((sz * (r0 - 1) + (c0 - 1)) as usize));
            assert(r0 >= 1 ==> result@.contains((sz * (r0 - 1) + c0) as usize));
            assert(r0 >= 1 && c0 + 1 < sz ==> result@.contains((sz * (r0 - 1) + (c0 + 1)) as usize));
            assert(c0 >= 1 ==> result@.contains((sz * r0 + (c0 - 1)) as usize));
            assert(c0 + 1 < sz ==> result@.contains((sz * r0 + (c0 + 1)) as usize));
            assert(r0 + 1 < sz && c0 >= 1 ==> result@.contains((sz * (r0 + 1) + (c0 - 1)) as usize));
            assert(r0 + 1 < sz ==> result@.contains((sz * (r0 + 1) + c0) as usize));
            assert(r0 + 1 < sz && c0 + 1 < sz ==> result@.contains(
                (sz * (r0 + 1) + (c0 + 1)) as usize,
            ));
            assert forall|j: int| adjacent(sz, i0, j) implies result@.contains(j as usize) by {
                let rj = row_of(sz, j);
                let cj = col_of(sz, j);
                assert(j == sz * rj + cj && 0 <= rj < sz && 0 <= cj < sz) by (nonlinear_arith)
                    requires
                        sz >= 1,
                        0 <= j < sz * sz,
                        rj == j / sz,
                        cj == j % sz,
                ;
                assert(sz * (r0 - 1) == sz * r0 - sz && sz * (r0 + 1) == sz * r0 + sz && (rj == r0
                    - 1 ==> sz * rj == sz * r0 - sz) && (rj == r0 ==> sz * rj == sz * r0) && (rj
                    == r0 + 1 ==> sz * rj == sz * r0 + sz)) by (nonlinear_arith);
            }
        }
        result
    }
}

/// Every element of `s` is a neighbour of position `i0`.
pub open spec fn all_adjacent(s: Seq<usize>, sz: int, i0: int) -> bool {
    forall|k: int| 0 <= k < s.len() ==> adjacent(sz, i0, #[trigger] s[k] as int)
}

/// For in-range coordinates the row-major index stays under `size * size`.
proof fn lemma_row_major_bounds(size: int, row: int, column: int)
    requires
        0 <= row < size,
        0 <= column < size,
    ensures
        0 <= size * row + column < size * size,
        row_of(size, size * row + column) == row,
        col_of(size, size * row + column) == column,
{
    assert(0 <= size * row + column < size * size) by (nonlinear_arith)
        requires
            0 <= row < size,
            0 <= column < size,
    ;
    assert((size * row + column) / size == row && (size * row + column) % size == column)
        by (nonlinear_arith)
        requires
            0 <= row < size,
            0 <= column < size,
    ;
}

/// The cell after a flag toggle: unrevealed becomes flagged, flagged
/// becomes unrevealed. (Only meaningful for non-revealed cells; a revealed
/// cell is never toggled.)
pub open spec fn toggled(c: Cell) -> Cell {
    Cell {
        state: if c.state == CellState::Unrevealed {
            CellState::Flagged
        } else {
            CellState::Unrevealed
        },
        ..c
    }
}

/// The client-safe view of the cell at position `i`.
pub open spec fn external_of(cells: Seq<Cell>, size: int, i: int) -> ExternalCell {
    match cells[i].state {
        CellState::Unrevealed => ExternalCell::Unrevealed,
        CellState::Flagged => ExternalCell::Flagged,
        CellState::Revealed => match cells[i].cell_type {
            CellType::Mine => ExternalCell::Mine,
            CellType::Number => ExternalCell::Number {
                value: spec_mine_count(cells, size, i) as u8,
            },
        },
    }
}

/// The external view of a cell that is not revealed depends on its state
/// alone: two boards whose cell at `i` agrees in (non-revealed) state show
/// the same view there, whatever mines either board hides anywhere.
pub proof fn lemma_external_view_no_leak(cells1: Seq<Cell>, cells2: Seq<Cell>, size: int, i: int)
    requires
        0 <= i < cells1.len(),
        0 <= i < cells2.len(),
        cells1[i].state == cells2[i].state,
        cells1[i].state != CellState::Revealed,
    ensures
        external_of(cells1, size, i) == external_of(cells2, size, i),
{
}

/// Toggling a flag twice returns any non-revealed cell to its original
/// state: on the whole board, two toggles at the same position are a no-op.
pub proof fn lemma_toggle_flag_involution(cells: Seq<Cell>, i: int)
    requires
        0 <= i < cells.len(),
        cells[i].state != CellState::Revealed,
    ensures
        cells.update(i, toggled(cells[i])).update(
            i,
            toggled(cells.update(i, toggled(cells[i]))[i]),
        ) == cells,
{
    let once = cells.update(i, toggled(cells[i]));
    let twice = once.update(i, toggled(once[i]));
    assert(twice =~= cells);
}

impl Board {
    /// Flip the flag on a non-revealed cell: unrevealed cells become
    /// flagged and flagged cells unrevealed. Refused outside the board and
    /// on revealed cells, in which case nothing changes.
    pub fn toggle_flag(&mut self, index: usize) -> (r: Result<(), Error>)
        requires
            old(self).wf(),
        ensures
            final(self).wf(),
            final(self).spec_size() == old(self).spec_size(),
            match r {
                Ok(()) => {
                    &&& index < old(self)@.len()
                    &&& old(self)@[index as int].state != CellState::Revealed
                    &&& final(self)@ == old(self)@.update(
                        index as int,
                        toggled(old(self)@[index as int]),
                    )
                },
                Err(e) => {
                    &&& final(self)@ == old(self)@
                    &&& (e == Error::CoordinatesOutOfBound <==> index >= old(self)@.len())
                    &&& (e == Error::InvalidMove <==> index < old(self)@.len() && old(
                        self,
                    )@[index as int].state == CellState::Revealed)
                },
            },
    {
        if index >= self.data.len() {
            return Err(Error::CoordinatesOutOfBound);
        }
        let c = self.data[index];
        match c.state {
            CellState::Unrevealed => {
                self.data.set(index, Cell { state: CellState::Flagged, ..c });
            },
            CellState::Flagged => {
                self.data.set(index, Cell { state: CellState::Unrevealed, ..c });
            },
            CellState::Revealed => {
                return Err(Error::InvalidMove);
            },
        }
        Ok(())
    }

    /// The state of the whole board as fit for the client side: one
    /// external view per cell, in row-major order. Never leaks the type of
    /// a cell that is not revealed.
    pub fn get_external_state(&self) -> (r: Vec<ExternalCell>)
        requires
            self.wf(),
        ensures
            r@.len() == self@.len(),
            forall|i: int|
                0 <= i < self@.len() ==> r@[i] == external_of(
                    self@,
                    self.spec_size() as int,
                    i,
                ),
    {
        let mut out: Vec<ExternalCell> = Vec::new();
        let n = self.data.len();
        let mut idx: usize = 0;
        while idx < n
            invariant
                self.wf(),
                n == self@.len(),
                idx <= n,
                out@.len() == idx,
                forall|i: int|
                    0 <= i < idx as int ==> out@[i] == external_of(
                        self@,
                        self.spec_size() as int,
                        i,
                    ),
            decreases n - idx,
        {
            let c = self.data[idx];
            let view = match c.state {
                CellState::Unrevealed => ExternalCell::Unrevealed,
                CellState::Flagged => ExternalCell::Flagged,
                CellState::Revealed => match c.cell_type {
                    CellType::Mine => ExternalCell::Mine,
                    CellType::Number => ExternalCell::Number {
                        value: self.get_surrounding_mines_count(idx),
                    },
                },
            };
            out.push(view);
            idx += 1;
        }
        out
    }

    /// The up-to-8 neighbouring cells of `index`, clipped at the edges:
    /// the cells at `iter_surrounding_positions(index)`, in that order.
    pub fn iter_surroundings(&self, index: usize) -> (result: Vec<Cell>)
        requires
            self.wf(),
            in_grid(self.spec_size() as int, index as int),
        ensures
            result@.len() == surrounding_positions(
                self.spec_size() as int,
                index as int,
            ).len(),
            forall|k: int|
                0 <= k < result@.len() ==> #[trigger] result@[k] == self@[surrounding_positions(
                    self.spec_size() as int,
                    index as int,
                )[k] as int],
            forall|k: int|
                0 <= k < result@.len() ==> adjacent(
                    self.spec_size() as int,
                    index as int,
                    (#[trigger] result@[k]).index as int,
                ) && result@[k] == self@[result@[k].index as int],
            forall|j: int|
                adjacent(self.spec_size() as int, index as int, j) ==> exists|k: int|
                    0 <= k < result@.len() && (#[trigger] result@[k]).index == j,
    {
        let positions = self.iter_surrounding_positions(index);
        let mut out: Vec<Cell> = Vec::new();
        let mut k: usize = 0;
        while k < positions.len()
            invariant
                self.wf(),
                k <= positions@.len(),
                out@.len() == k,
                forall|m: int|
                    0 <= m < positions@.len() ==> adjacent(
                        self.spec_size() as int,
                        index as int,
                        #[trigger] positions@[m] as int,
                    ),
                forall|m: int|
                    0 <= m < k as int ==> #[trigger] out@[m] == self@[positions@[m] as int],
            decreases positions@.len() - k,
        {
            let p = positions[k];
            out.push(self.data[p]);
            k += 1;
        }
        proof {
            let sz = self.spec_size() as int;
            let i0 = index as int;
            assert forall|j: int| adjacent(sz, i0, j) implies exists|m: int|
                0 <= m < out@.len() && (#[trigger] out@[m]).index == j by {
                assert(positions@.contains(j as usize));
                let m = choose|m: int| 0 <= m < positions@.len() && positions@[m] == j as usize;
                assert(out@[m] == self@[j]);
                assert(self@[j].index == j);
            }
        }
        out
    }

    /// Assemble a board from explicit cells: `size * size` of them, each
    /// recording its own position. Refused (`None`) on any other input.
    pub fn from_cells(size: usize, cells: Vec<Cell>) -> (r: Option<Board>)
        ensures
            match r {
                Some(b) => {
                    &&& b.wf()
                    &&& b.spec_size() == size
                    &&& b@ == cells@
                },
                None => cells@.len() != (size as int) * (size as int) || exists|i: int|
                    0 <= i < cells@.len() && (#[trigger] cells@[i]).index != i,
            },
    {
        let n = cells.len();
        if size != 0 && (n / size != size || n % size != 0) {
            proof {
                assert(n as int != (size as int) * (size as int)) by (nonlinear_arith)
                    requires
                        size >= 1,
                        n >= 0,
                        n as int / (size as int) != size as int || n as int % (size as int)
                            != 0,
                ;
            }
            return None;
        }
        if size == 0 && n != 0 {
            return None;
        }
        proof {
            if size != 0 {
                assert(n as int == (size as int) * (size as int)) by (nonlinear_arith)
                    requires
                        size >= 1,
                        n >= 0,
                        n as int / (size as int) == size as int,
                        n as int % (size as int) == 0,
                ;
            }
        }
        let mut i: usize = 0;
        while i < n
            invariant
                i <= n,
                n == cells@.len(),
                forall|k: int| 0 <= k < i as int ==> (#[trigger] cells@[k]).index == k,
            decreases n - i,
        {
            if cells[i].index != i {
                return None;
            }
            i += 1;
        }
        Some(Board { size, data: cells })
    }

    /// A fresh board of side `size`, all cells unrevealed, each cell
    /// independently marked a mine with a fixed 15% chance. The same size
    /// may yield different mine totals across calls.
    pub fn generate(size: usize) -> (b: Board)
        requires
            (size as int) * (size as int) <= usize::MAX,
        ensures
            b.wf(),
            b.spec_size() == size,
            forall|i: int| 0 <= i < b@.len() ==> (#[trigger] b@[i]).state == CellState::Unrevealed,
    {
        let n = size * size;
        let mut data: Vec<Cell> = Vec::new();
        let mut index: usize = 0;
        while index < n
            invariant
                index <= n,
                data@.len() == index,
                forall|i: int|
                    0 <= i < index as int ==> (#[trigger] data@[i]).index == i && data@[i].state
                        == CellState::Unrevealed,
            decreases n - index,
        {
            let cell_type = if crate::rng::random_below(100) < 15 {
                CellType::Mine
            } else {
                CellType::Number
            };
            data.push(Cell { index, cell_type, state: CellState::Unrevealed });
            index += 1;
        }
        Board { size, data }
    }
}

/// Two boards share one mine layout: same length, and cell for cell the
/// same type and position. Reveal state is free to differ.
pub open spec fn same_layout(a: Seq<Cell>, b: Seq<Cell>) -> bool {
    &&& a.len() == b.len()
    &&& forall|i: int|
        0 <= i < a.len() ==> (#[trigger] a[i]).cell_type == b[i].cell_type && a[i].index
            == b[i].index
}

/// The cell with its state forced to revealed, everything else kept.
pub open spec fn with_revealed(c: Cell) -> Cell {
    Cell { state: CellState::Revealed, ..c }
}

/// A number cell with no mine among its neighbours: revealing it expands
/// the reveal to its whole neighbourhood.
pub open spec fn expandable(cells: Seq<Cell>, size: int, i: int) -> bool {
    cells[i].cell_type == CellType::Number && spec_mine_count(cells, size, i) == 0
}

/// `p` is a flood path from `t` over `cells` (the board as it stands when
/// the reveal begins): it starts at `t`, every step leaves an expandable
/// cell for one of its neighbours, and every position after the start is
/// unrevealed.
pub open spec fn flood_path(cells: Seq<Cell>, size: int, t: int, p: Seq<int>) -> bool {
    &&& p.len() >= 1
    &&& p[0] == t
    &&& forall|k: int|
        0 <= k < p.len() - 1 ==> expandable(cells, size, #[trigger] p[k]) && adjacent(
            size,
            p[k],
            p[k + 1],
        )
    &&& forall|k: int| 1 <= k < p.len() ==> cells[#[trigger] p[k]].state == CellState::Unrevealed
}

/// Position `j` belongs to the flood region of `t`: the target itself,
/// together with the connected zero-adjacency region around it and its
/// one-cell boundary of unrevealed neighbours.
pub open spec fn in_flood(cells: Seq<Cell>, size: int, t: int, j: int) -> bool {
    exists|p: Seq<int>| flood_path(cells, size, t, p) && p.last() == j
}

/// The target always belongs to its own flood region.
pub proof fn lemma_flood_self(cells: Seq<Cell>, size: int, t: int)
    ensures
        in_flood(cells, size, t, t),
{
    let p = seq![t];
    assert(flood_path(cells, size, t, p) && p.last() == t);
}

/// The flood region grows across one expandable step.
pub proof fn lemma_flood_extend(cells: Seq<Cell>, size: int, t: int, x: int, y: int)
    requires
        in_flood(cells, size, t, x),
        expandable(cells, size, x),
        adjacent(size, x, y),
        cells[y].state == CellState::Unrevealed,
    ensures
        in_flood(cells, size, t, y),
{
    let p = choose|p: Seq<int>| flood_path(cells, size, t, p) && p.last() == x;
    let q = p.push(y);
    assert(q.last() == y);
    assert(flood_path(cells, size, t, q));
}

/// A flood region with members beyond the target starts at an expandable
/// target.
pub proof fn lemma_flood_first_step(cells: Seq<Cell>, size: int, t: int, j: int)
    requires
        in_flood(cells, size, t, j),
        j != t,
    ensures
        expandable(cells, size, t),
{
    let p = choose|p: Seq<int>| flood_path(cells, size, t, p) && p.last() == j;
    assert(p.len() >= 2);
    assert(expandable(cells, size, p[0]));
}

/// Flood fill is idempotent: when the target is already revealed and none
/// of its neighbours is left unrevealed (as after a completed reveal of a
/// zero-region), revealing it again changes not a single cell.
pub proof fn lemma_reveal_idempotent(cells: Seq<Cell>, size: int, t: int)
    requires
        0 <= t < cells.len(),
        cells[t].state == CellState::Revealed,
        forall|y: int| #[trigger] adjacent(size, t, y) ==> cells[y].state != CellState::Unrevealed,
    ensures
        forall|j: int|
            0 <= j < cells.len() ==> (if in_flood(cells, size, t, j) {
                with_revealed(cells[j])
            } else {
                cells[j]
            }) == cells[j],
{
    assert forall|j: int| 0 <= j < cells.len() implies (if in_flood(cells, size, t, j) {
        with_revealed(cells[j])
    } else {
        cells[j]
    }) == cells[j] by {
        if in_flood(cells, size, t, j) {
            if j != t {
                let p = choose|p: Seq<int>| flood_path(cells, size, t, p) && p.last() == j;
                assert(p.len() >= 2);
                assert(adjacent(size, p[0], p[1]));
                assert(cells[p[1]].state == CellState::Unrevealed);
            } else {
                assert(with_revealed(cells[t]) == cells[t]);
            }
        }
    }
}

/// Position `x` was reached by the reveal in progress: it is the target,
/// or it went from unrevealed to revealed.
pub open spec fn touched(old_cells: Seq<Cell>, now: Seq<Cell>, t: int, x: int) -> bool {
    x == t || (0 <= x < old_cells.len() && old_cells[x].state == CellState::Unrevealed
        && now[x].state == CellState::Revealed)
}

/// Every neighbour a reached expandable cell owes a reveal to is already
/// revealed or still waits in the queue `q`.
pub open spec fn frontier_covered(
    old_cells: Seq<Cell>,
    now: Seq<Cell>,
    size: int,
    t: int,
    q: Seq<usize>,
) -> bool {
    forall|x: int, y: int|
        touched(old_cells, now, t, x) && expandable(old_cells, size, x) && #[trigger] adjacent(
            size,
            x,
            y,
        ) && old_cells[y].state == CellState::Unrevealed ==> now[y].state == CellState::Revealed
            || q.contains(y as usize)
}

/// Walk a flood path: once the queue has drained and every frontier is
/// covered, the end of the path is revealed.
proof fn lemma_path_revealed(
    old_cells: Seq<Cell>,
    now: Seq<Cell>,
    size: int,
    t: int,
    p: Seq<int>,
)
    requires
        old_cells.len() == now.len(),
        size * size <= old_cells.len(),
        now[t].state == CellState::Revealed,
        frontier_covered(old_cells, now, size, t, Seq::<usize>::empty()),
        flood_path(old_cells, size, t, p),
    ensures
        now[p.last()].state == CellState::Revealed,
    decreases p.len(),
{
    if p.len() == 1 {
        assert(p.last() == t);
    } else {
        let q = p.drop_last();
        assert(flood_path(old_cells, size, t, q)) by {
            assert forall|k: int|
                0 <= k < q.len() - 1 implies expandable(old_cells, size, #[trigger] q[k])
                && adjacent(size, q[k], q[k + 1]) by {
                assert(q[k] == p[k] && q[k + 1] == p[k + 1]);
            }
            assert forall|k: int|
                1 <= k < q.len() implies old_cells[#[trigger] q[k]].state
                == CellState::Unrevealed by {
                assert(q[k] == p[k]);
            }
        }
        lemma_path_revealed(old_cells, now, size, t, q);
        let x = p[p.len() - 2];
        let y = p[p.len() - 1];
        assert(q.last() == x);
        assert(expandable(old_cells, size, x) && adjacent(size, x, y));
        assert(old_cells[y].state == CellState::Unrevealed);
        assert(touched(old_cells, now, t, x)) by {
            if x != t {
                assert(old_cells[x].state == CellState::Unrevealed);
                assert(in_grid(size, x)) by {
                    assert(adjacent(size, x, y));
                }
            }
        }
        assert(!Seq::<usize>::empty().contains(y as usize));
    }
}

/// Once the queue has drained, the whole flood region is revealed.
proof fn lemma_flood_region_revealed(old_cells: Seq<Cell>, now: Seq<Cell>, size: int, t: int)
    requires
        old_cells.len() == now.len(),
        size * size <= old_cells.len(),
        now[t].state == CellState::Revealed,
        frontier_covered(old_cells, now, size, t, Seq::<usize>::empty()),
    ensures
        forall|j: int|
            in_flood(old_cells, size, t, j) ==> now[j].state == CellState::Revealed,
{
    assert forall|j: int| in_flood(old_cells, size, t, j) implies now[j].state
        == CellState::Revealed by {
        let p = choose|p: Seq<int>| flood_path(old_cells, size, t, p) && p.last() == j;
        lemma_path_revealed(old_cells, now, size, t, p);
    }
}

/// How many cells of the board are unrevealed (the measure that shrinks as
/// the flood fill makes progress).
pub open spec fn count_unrevealed(cells: Seq<Cell>) -> nat
    decreases cells.len(),
{
    if cells.len() == 0 {
        0
    } else {
        count_unrevealed(cells.drop_last()) + if cells.last().state == CellState::Unrevealed {
            1nat
        } else {
            0nat
        }
    }
}

/// Revealing an unrevealed cell strictly shrinks the unrevealed count.
proof fn lemma_count_unrevealed_update(cells: Seq<Cell>, i: int, c: Cell)
    requires
        0 <= i < cells.len(),
        cells[i].state == CellState::Unrevealed,
        c.state != CellState::Unrevealed,
    ensures
        count_unrevealed(cells.update(i, c)) < count_unrevealed(cells),
    decreases cells.len(),
{
    let upd = cells.update(i, c);
    if i == cells.len() - 1 {
        assert(upd.drop_last() =~= cells.drop_last());
        assert(upd.last() == c);
    } else {
        assert(upd.drop_last() =~= cells.drop_last().update(i, c));
        assert(upd.last() == cells.last());
        lemma_count_unrevealed_update(cells.drop_last(), i, c);
    }
}

/// Mine counts read only cell types, so they survive any change of state.
proof fn lemma_mine_at_same_types(c1: Seq<Cell>, c2: Seq<Cell>, size: int, r: int, c: int)
    requires
        c1.len() == c2.len(),
        size * size <= c1.len(),
        forall|k: int| 0 <= k < c1.len() ==> (#[trigger] c1[k]).cell_type == c2[k].cell_type,
    ensures
        mine_at(c1, size, r, c) == mine_at(c2, size, r, c),
{
    if 0 <= r && r < size && 0 <= c && c < size {
        lemma_row_major_bounds(size, r, c);
    }
}

/// Two boards with the same types everywhere agree on every mine count.
proof fn lemma_mine_count_same_types(c1: Seq<Cell>, c2: Seq<Cell>, size: int, i: int)
    requires
        c1.len() == c2.len(),
        size * size <= c1.len(),
        forall|k: int| 0 <= k < c1.len() ==> (#[trigger] c1[k]).cell_type == c2[k].cell_type,
    ensures
        spec_mine_count(c1, size, i) == spec_mine_count(c2, size, i),
{
    let r = row_of(size, i);
    let c = col_of(size, i);
    lemma_mine_at_same_types(c1, c2, size, r - 1, c - 1);
    lemma_mine_at_same_types(c1, c2, size, r - 1, c);
    lemma_mine_at_same_types(c1, c2, size, r - 1, c + 1);
    lemma_mine_at_same_types(c1, c2, size, r, c - 1);
    lemma_mine_at_same_types(c1, c2, size, r, c + 1);
    lemma_mine_at_same_types(c1, c2, size, r + 1, c - 1);
    lemma_mine_at_same_types(c1, c2, size, r + 1, c);
    lemma_mine_at_same_types(c1, c2, size, r + 1, c + 1);
}

impl Board {
    /// Push every currently-unrevealed neighbour of `index` onto the back
    /// of the queue.
    fn enqueue_unrevealed_neighbours(&self, queue: &mut VecDeque<usize>, index: usize)
        requires
            self.wf(),
            in_grid(self.spec_size() as int, index as int),
        ensures
            old(queue)@.len() <= final(queue)@.len(),
            forall|k: int|
                0 <= k < old(queue)@.len() ==> #[trigger] final(queue)@[k] == old(queue)@[k],
            forall|k: int|
                old(queue)@.len() <= k < final(queue)@.len() ==> adjacent(
                    self.spec_size() as int,
                    index as int,
                    #[trigger] final(queue)@[k] as int,
                ) && self@[final(queue)@[k] as int].state == CellState::Unrevealed,
            forall|j: int|
                adjacent(self.spec_size() as int, index as int, j) && self@[j].state
                    == CellState::Unrevealed ==> final(queue)@.contains(j as usize),
    {
        broadcast use vstd::seq_lib::lemma_seq_contains_after_push;

        let positions = self.iter_surrounding_positions(index);
        let ghost sz = self.spec_size() as int;
        let ghost i0 = index as int;
        let ghost q0 = queue@;
        let mut k: usize = 0;
        while k < positions.len()
            invariant
                self.wf(),
                sz == self.spec_size() as int,
                i0 == index as int,
                in_grid(sz, i0),
                k <= positions@.len(),
                forall|m: int|
                    0 <= m < positions@.len() ==> adjacent(
                        sz,
                        i0,
                        #[trigger] positions@[m] as int,
                    ),
                forall|j: int|
                    adjacent(sz, i0, j) ==> positions@.contains(j as usize),
                q0.len() <= queue@.len(),
                forall|m: int| 0 <= m < q0.len() ==> #[trigger] queue@[m] == q0[m],
                forall|m: int|
                    q0.len() <= m < queue@.len() ==> adjacent(sz, i0, #[trigger] queue@[m] as int)
                        && self@[queue@[m] as int].state == CellState::Unrevealed,
                forall|m: int|
                    0 <= m < k as int && self@[#[trigger] positions@[m] as int].state
                        == CellState::Unrevealed ==> queue@.contains(positions@[m]),
            decreases positions@.len() - k,
        {
            let p = positions[k];
            proof {
                lemma_flood_in_grid_helper(sz, i0, p as int);
            }
            let ghost qprev = queue@;
            if self.data[p].state == CellState::Unrevealed {
                queue.push_back(p);
            }
            k += 1;
            proof {
                assert forall|m: int|
                    0 <= m < k as int && self@[#[trigger] positions@[m] as int].state
                        == CellState::Unrevealed implies queue@.contains(positions@[m]) by {
                    if m < k as int - 1 {
                        let idx = choose|idx: int|
                            0 <= idx < qprev.len() && qprev[idx] == positions@[m];
                        assert(queue@[idx] == positions@[m]);
                    } else {
                        assert(queue@[qprev.len() as int] == positions@[m]);
                    }
                }
            }
        }
        proof {
            assert forall|j: int|
                adjacent(sz, i0, j) && self@[j].state == CellState::Unrevealed implies
                queue@.contains(j as usize) by {
                assert(positions@.contains(j as usize));
                let m = choose|m: int| 0 <= m < positions@.len() && positions@[m] == j as usize;
                assert(queue@.contains(positions@[m]));
            }
        }
    }
}

/// A neighbour of an on-board position is on the board.
proof fn lemma_flood_in_grid_helper(size: int, i: int, j: int)
    requires
        adjacent(size, i, j),
    ensures
        in_grid(size, j),
{
}

/// Popping the front keeps every other element.
proof fn lemma_contains_after_pop(q0: Seq<usize>, q1: Seq<usize>, y: usize)
    requires
        q0.len() > 0,
        q1 == q0.subrange(1, q0.len() as int),
        q0.contains(y),
    ensures
        y == q0[0] || q1.contains(y),
{
    let idx = choose|idx: int| 0 <= idx < q0.len() && q0[idx] == y;
    if idx > 0 {
        assert(q1[idx - 1] == y);
    }
}

/// Extending a queue at the back keeps every element.
proof fn lemma_contains_after_extend(q0: Seq<usize>, q1: Seq<usize>, y: usize)
    requires
        q0.len() <= q1.len(),
        forall|k: int| 0 <= k < q0.len() ==> #[trigger] q1[k] == q0[k],
        q0.contains(y),
    ensures
        q1.contains(y),
{
    let idx = choose|idx: int| 0 <= idx < q0.len() && q0[idx] == y;
    assert(q1[idx] == y);
}

impl Board {
    /// Reveal the cell at `index` and flood-fill: the revealed set grows by
    /// exactly the flood region of `index` — the target itself, the
    /// connected zero-adjacency region around it when the target is an
    /// expandable number cell, and that region's one-cell boundary. Every
    /// other cell keeps its state; no cell type ever changes. Revealing a
    /// mine is permitted and flips that one cell alone.
    pub fn reveal_cell(&mut self, index: usize) -> (r: Result<(), Error>)
        requires
            old(self).wf(),
        ensures
            final(self).wf(),
            final(self).spec_size() == old(self).spec_size(),
            match r {
                Ok(()) => {
                    &&& index < old(self)@.len()
                    &&& final(self)@.len() == old(self)@.len()
                    &&& in_flood(old(self)@, old(self).spec_size() as int, index as int, index as int)
                    &&& forall|j: int|
                        0 <= j < old(self)@.len() ==> #[trigger] final(self)@[j] == (if in_flood(
                            old(self)@,
                            old(self).spec_size() as int,
                            index as int,
                            j,
                        ) {
                            with_revealed(old(self)@[j])
                        } else {
                            old(self)@[j]
                        })
                },
                Err(e) => {
                    &&& e == Error::CoordinatesOutOfBound
                    &&& index >= old(self)@.len()
                    &&& final(self)@ == old(self)@
                },
            },
    {
        if index >= self.data.len() {
            return Err(Error::CoordinatesOutOfBound);
        }
        let ghost old_cells = self@;
        let ghost sz = self.spec_size() as int;
        let ghost t = index as int;
        let n = self.data.len(); // witnesses that the cell count fits usize
        let c0 = self.data[index];
        self.data.set(index, Cell { state: CellState::Revealed, ..c0 });
        proof {
            lemma_flood_self(old_cells, sz, t);
        }
        let count = self.get_surrounding_mines_count(index);
        proof {
            lemma_mine_count_same_types(self@, old_cells, sz, t);
        }
        if count != 0 || c0.cell_type == CellType::Mine {
            proof {
                assert(!expandable(old_cells, sz, t));
                assert forall|j: int| 0 <= j < old_cells.len() implies #[trigger] self@[j] == (
                if in_flood(old_cells, sz, t, j) {
                    with_revealed(old_cells[j])
                } else {
                    old_cells[j]
                }) by {
                    if j != t && in_flood(old_cells, sz, t, j) {
                        lemma_flood_first_step(old_cells, sz, t, j);
                    }
                }
            }
            return Ok(());
        }
        let mut queue: VecDeque<usize> = VecDeque::new();
        self.enqueue_unrevealed_neighbours(&mut queue, index);
        proof {
            assert(expandable(old_cells, sz, t));
            assert forall|k: int|
                0 <= k < queue@.len() implies in_flood(
                old_cells,
                sz,
                t,
                #[trigger] queue@[k] as int,
            ) && in_grid(sz, queue@[k] as int) && old_cells[queue@[k] as int].state
                == CellState::Unrevealed by {
                let y = queue@[k] as int;
                assert(adjacent(sz, t, y) && self@[y].state == CellState::Unrevealed);
                assert(self@[y] == old_cells[y]);
                lemma_flood_extend(old_cells, sz, t, t, y);
            }
            assert forall|x: int, y: int|
                touched(old_cells, self@, t, x) && expandable(old_cells, sz, x)
                    && #[trigger] adjacent(sz, x, y) && old_cells[y].state
                    == CellState::Unrevealed implies self@[y].state == CellState::Revealed
                || queue@.contains(y as usize) by {
                if x != t {
                    assert(self@[x].state == CellState::Revealed
                        && old_cells[x].state == CellState::Unrevealed);
                    assert(self@[x] == old_cells[x]);
                } else {
                    lemma_flood_in_grid_helper(sz, x, y);
                    if self@[y].state != CellState::Revealed {
                        assert(self@[y] == old_cells[y]);
                        assert(self@[y].state == CellState::Unrevealed);
                    }
                }
            }
        }
        while queue.len() > 0
            invariant
                self.wf(),
                self.spec_size() as int == sz,
                in_grid(sz, t),
                old_cells.len() == sz * sz,
                old_cells.len() <= usize::MAX,
                self@.len() == old_cells.len(),
                expandable(old_cells, sz, t),
                self@[t].state == CellState::Revealed,
                forall|j: int|
                    0 <= j < old_cells.len() ==> #[trigger] self@[j] == old_cells[j] || self@[j]
                        == with_revealed(old_cells[j]),
                forall|j: int|
                    0 <= j < old_cells.len() && #[trigger] self@[j] != old_cells[j] ==> in_flood(
                        old_cells,
                        sz,
                        t,
                        j,
                    ),
                forall|k: int|
                    0 <= k < queue@.len() ==> in_flood(
                        old_cells,
                        sz,
                        t,
                        #[trigger] queue@[k] as int,
                    ) && in_grid(sz, queue@[k] as int) && old_cells[queue@[k] as int].state
                        == CellState::Unrevealed,
                frontier_covered(old_cells, self@, sz, t, queue@),
            decreases count_unrevealed(self@), queue@.len(),
        {
            let ghost q0 = queue@;
            let ghost pre = self@;
            let j = queue.pop_front().unwrap();
            let ghost qafter = queue@;
            let cj = self.data[j];
            if cj.state == CellState::Revealed {
                proof {
                    assert forall|x: int, y: int|
                        touched(old_cells, self@, t, x) && expandable(old_cells, sz, x)
                            && #[trigger] adjacent(sz, x, y) && old_cells[y].state
                            == CellState::Unrevealed implies self@[y].state == CellState::Revealed
                        || queue@.contains(y as usize) by {
                        lemma_flood_in_grid_helper(sz, x, y);
                        if self@[y].state != CellState::Revealed {
                            assert(q0.contains(y as usize));
                            lemma_contains_after_pop(q0, qafter, y as usize);
                            if y as usize == q0[0] {
                                assert(self@[y].state == CellState::Revealed);
                            }
                        }
                    }
                }
                continue;
            }
            proof {
                assert(pre[j as int].state == CellState::Unrevealed);
            }
            self.data.set(j, Cell { state: CellState::Revealed, ..cj });
            proof {
                lemma_count_unrevealed_update(
                    pre,
                    j as int,
                    Cell { state: CellState::Revealed, ..cj },
                );
                assert(self@[j as int] == with_revealed(old_cells[j as int]));
            }
            let cnt = self.get_surrounding_mines_count(j);
            proof {
                lemma_mine_count_same_types(self@, old_cells, sz, j as int);
            }
            if cj.cell_type == CellType::Number && cnt == 0 {
                let ghost qmid = queue@;
                let ghost mid = self@;
                self.enqueue_unrevealed_neighbours(&mut queue, j);
                proof {
                    assert(expandable(old_cells, sz, j as int));
                    assert forall|k: int|
                        0 <= k < queue@.len() implies in_flood(
                        old_cells,
                        sz,
                        t,
                        #[trigger] queue@[k] as int,
                    ) && in_grid(sz, queue@[k] as int) && old_cells[queue@[k] as int].state
                        == CellState::Unrevealed by {
                        if k < qmid.len() {
                            assert(queue@[k] == qmid[k]);
                            assert(qmid[k] == qafter[k]);
                        } else {
                            let y = queue@[k] as int;
                            assert(adjacent(sz, j as int, y) && mid[y].state
                                == CellState::Unrevealed);
                            lemma_flood_in_grid_helper(sz, j as int, y);
                            assert(mid[y] == old_cells[y]);
                            lemma_flood_extend(old_cells, sz, t, j as int, y);
                        }
                    }
                    assert forall|x: int, y: int|
                        touched(old_cells, self@, t, x) && expandable(old_cells, sz, x)
                            && #[trigger] adjacent(sz, x, y) && old_cells[y].state
                            == CellState::Unrevealed implies self@[y].state == CellState::Revealed
                        || queue@.contains(y as usize) by {
                        lemma_flood_in_grid_helper(sz, x, y);
                        if self@[y].state != CellState::Revealed {
                            if x == j as int {
                                assert(mid[y].state != CellState::Revealed);
                                assert(mid[y] == old_cells[y]);
                                assert(queue@.contains(y as usize));
                            } else {
                                assert(touched(old_cells, pre, t, x));
                                assert(pre[y].state != CellState::Revealed);
                                assert(q0.contains(y as usize));
                                lemma_contains_after_pop(q0, qafter, y as usize);
                                if y as usize == q0[0] {
                                    assert(self@[j as int].state == CellState::Revealed);
                                    assert(false);
                                } else {
                                    lemma_contains_after_extend(qafter, queue@, y as usize);
                                }
                            }
                        }
                    }
                }
            } else {
                proof {
                    assert(!expandable(old_cells, sz, j as int));
                    assert forall|x: int, y: int|
                        touched(old_cells, self@, t, x) && expandable(old_cells, sz, x)
                            && #[trigger] adjacent(sz, x, y) && old_cells[y].state
                            == CellState::Unrevealed implies self@[y].state == CellState::Revealed
                        || queue@.contains(y as usize) by {
                        lemma_flood_in_grid_helper(sz, x, y);
                        if self@[y].state != CellState::Revealed {
                            assert(x != j as int);
                            assert(touched(old_cells, pre, t, x));
                            assert(pre[y].state != CellState::Revealed);
                            assert(q0.contains(y as usize));
                            lemma_contains_after_pop(q0, qafter, y as usize);
                            if y as usize == q0[0] {
                                assert(self@[j as int].state == CellState::Revealed);
                                assert(false);
                            }
                        }
                    }
                }
            }
        }
        proof {
            assert(queue@ =~= Seq::<usize>::empty());
            lemma_flood_region_revealed(old_cells, self@, sz, t);
            assert forall|j: int| 0 <= j < old_cells.len() implies #[trigger] self@[j] == (
            if in_flood(old_cells, sz, t, j) {
                with_revealed(old_cells[j])
            } else {
                old_cells[j]
            }) by {
                if in_flood(old_cells, sz, t, j) {
                    assert(self@[j].state == CellState::Revealed);
                }
            }
        }
        Ok(())
    }
}

} // verus!
