//! A square, bounds-checked matrix stored as one flat row-major buffer.

use vstd::prelude::*;

verus! {

/// The address of one cell: `x` counts rows, `y` counts the cells of a row.
#[derive(Debug, Clone, Copy, PartialEq, Eq, Structural)]
pub struct Cell {
    pub x: u32,
    pub y: u32,
}

impl Cell {
    /// Whether the cell lies in a grid of the given edge length.
    pub open spec fn within(self, size: int) -> bool {
        self.x < size && self.y < size
    }

    /// Where the cell stands in the flat buffer of a grid of the given edge
    /// length.
    pub open spec fn flat_index(self, size: int) -> int {
        self.x * size + self.y
    }
}

/// Distinct cells of one grid stand at distinct places of its buffer, and
/// every place is below the buffer's length.
pub proof fn lemma_flat_index(a: Cell, b: Cell, size: int)
    requires
        a.within(size),
        b.within(size),
    ensures
        0 <= a.flat_index(size) < size * size,
        a.flat_index(size) == b.flat_index(size) ==> a == b,
{
    assert(0 <= a.x * size && a.x * size + size <= size * size) by (nonlinear_arith)
        requires
            0 <= a.x < size,
    ;
    if a.flat_index(size) == b.flat_index(size) {
        assert(a.x == b.x) by (nonlinear_arith)
            requires
                a.x * size + a.y == b.x * size + b.y,
                0 <= a.y < size,
                0 <= b.y < size,
        ;
    }
}

/// The number of cells in a grid of the given edge length.
fn square(size: u32) -> (total: u64)
    ensures
        total == size * size,
{
    assert(size * size <= 0xFFFF_FFFF * 0xFFFF_FFFF) by (nonlinear_arith)
        requires
            0 <= size <= 0xFFFF_FFFF,
    ;
    (size as u64) * (size as u64)
}

/// A `size` by `size` matrix of `T`.
#[derive(Debug)]
pub struct Grid<T> {
    size: u32,
    cells: Vec<T>,
}

impl<T> Grid<T> {
    /// The buffer holds exactly `size * size` cells. Every grid that this
    /// module hands out is well formed, and every method keeps it so.
    pub closed spec fn wf(&self) -> bool {
        self.cells.len() == self.size * self.size
    }

    /// The edge length.
    pub closed spec fn spec_size(&self) -> u32 {
        self.size
    }

    /// The cells in row-major order: cell `(x, y)` stands at `x * size + y`.
    pub closed spec fn view(&self) -> Seq<T> {
        self.cells@
    }

    /// The value at a cell.
    pub open spec fn at(&self, cell: Cell) -> T {
        self@[cell.flat_index(self.spec_size() as int)]
    }

    /// A well-formed grid holds `size * size` cells.
    pub proof fn lemma_len(&self)
        requires
            self.wf(),
        ensures
            self@.len() == self.spec_size() * self.spec_size(),
    {
    }
}

impl<T: Copy> Grid<T> {
    /// A grid with every cell set to `fill`.
    pub fn new(size: u32, fill: T) -> (grid: Self)
        ensures
            grid.wf(),
            grid.spec_size() == size,
            grid@.len() == size * size,
            forall|i: int| 0 <= i < grid@.len() ==> grid@[i] == fill,
    {
        let total: u64 = square(size);
        let mut cells: Vec<T> = Vec::new();
        let mut filled: u64 = 0;
        while filled < total
            invariant
                filled <= total,
                cells@.len() == filled,
                forall|i: int| 0 <= i < cells@.len() ==> cells@[i] == fill,
            decreases total - filled,
        {
            cells.push(fill);
            filled = filled + 1;
        }
        Grid { size, cells }
    }

    /// Takes over a buffer of cells in row-major order; `None` unless it holds
    /// exactly `size * size` of them.
    pub fn from_cells(size: u32, cells: Vec<T>) -> (grid: Option<Self>)
        ensures
            grid is Some <==> cells@.len() == size * size,
            grid matches Some(g) ==> g.wf() && g.spec_size() == size && g@ == cells@,
    {
        let total: u64 = square(size);
        if cells.len() as u64 == total {
            Some(Grid { size, cells })
        } else {
            None
        }
    }

    /// The edge length.
    pub fn size(&self) -> (size: u32)
        ensures
            size == self.spec_size(),
    {
        self.size
    }

    /// Reads a cell; `None` when the cell lies outside the grid.
    pub fn get(&self, cell: Cell) -> (value: Option<T>)
        requires
            self.wf(),
        ensures
            value == if cell.within(self.spec_size() as int) {
                Some(self.at(cell))
            } else {
                None
            },
    {
        if cell.x < self.size && cell.y < self.size {
            proof {
                lemma_flat_index(cell, cell, self.size as int);
            }
            let index = (cell.x as usize) * (self.size as usize) + (cell.y as usize);
            Some(self.cells[index])
        } else {
            None
        }
    }

    /// Writes a cell and returns `true`; leaves the grid as it is and returns
    /// `false` when the cell lies outside it.
    pub fn set(&mut self, cell: Cell, value: T) -> (written: bool)
        requires
            old(self).wf(),
        ensures
            final(self).wf(),
            final(self).spec_size() == old(self).spec_size(),
            written == cell.within(old(self).spec_size() as int),
            written ==> final(self)@ == old(self)@.update(
                cell.flat_index(old(self).spec_size() as int),
                value,
            ),
            !written ==> final(self)@ == old(self)@,
    {
        if cell.x < self.size && cell.y < self.size {
            proof {
                lemma_flat_index(cell, cell, self.size as int);
            }
            let index = (cell.x as usize) * (self.size as usize) + (cell.y as usize);
            self.cells.set(index, value);
            true
        } else {
            false
        }
    }

    /// The cells in row-major order.
    pub fn cells(&self) -> (cells: &Vec<T>)
        ensures
            cells@ == self@,
    {
        &self.cells
    }
}

} // verus!
