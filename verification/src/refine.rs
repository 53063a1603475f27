//! The two passes of one refinement level, as lists of grid writes.
//!
//! A level works on chunks of edge length `chunk`, laid edge to edge over the
//! grid. The square pass visits every chunk by its origin, row of chunks by
//! row of chunks; the diamond pass visits the midpoints of the chunks' edges.
//! Each step names the cells it reads, in the order in which they are summed,
//! the cell it writes, and the numerator of the jitter that goes with it.

use crate::grid::Cell;
use crate::hasher::{hash, hash_numerator};
use vstd::prelude::*;

verus! {

/// One step of the square pass, on the chunk whose origin is `top_left`.
///
/// The mean of the four corners, summed in the order `top_left`, `top_right`,
/// `bottom_left`, `bottom_right`, is written to `center`. Then the jitter is
/// added to `top_left`: to the origin, not to the center.
#[derive(Debug, Clone, Copy, PartialEq, Eq)]
pub struct SquareStep {
    pub top_left: Cell,
    pub top_right: Cell,
    pub bottom_left: Cell,
    pub bottom_right: Cell,
    pub center: Cell,
    /// Numerator of the hash of the origin's own coordinates.
    pub jitter: u8,
}

/// One step of the diamond pass.
///
/// The mean of the neighbours that exist, summed in the order `low_x`,
/// `low_y`, `high_x`, `high_y`, is written to `target`, and the jitter is
/// added to it.
#[derive(Debug, Clone, Copy, PartialEq, Eq)]
pub struct DiamondStep {
    pub target: Cell,
    pub low_x: Option<Cell>,
    pub low_y: Option<Cell>,
    pub high_x: Option<Cell>,
    pub high_y: Option<Cell>,
    /// Numerator of the hash of the target's own coordinates.
    pub jitter: u8,
}

/// A chunk size that a pass can run with: even, so that it has a midpoint,
/// and tiling the grid's edge exactly.
pub open spec fn chunk_fits(size: int, chunk: int) -> bool {
    &&& 2 <= chunk <= size - 1
    &&& chunk % 2 == 0
    &&& (size - 1) % chunk == 0
}

/// The cell at `(x, y)`.
pub open spec fn cell_at(x: int, y: int) -> Cell {
    Cell { x: x as u32, y: y as u32 }
}

/// The jitter numerator of the cell at `(x, y)`: the hash of the seed and of
/// the cell's coordinates within the tile.
pub open spec fn jitter_at(seed: i64, x: int, y: int) -> u8 {
    hash_numerator(seed, x as i32, y as i32) as u8
}

/// The square step on the chunk with origin `(x, y)`.
pub open spec fn square_step_at(seed: i64, chunk: int, x: int, y: int) -> SquareStep {
    SquareStep {
        top_left: cell_at(x, y),
        top_right: cell_at(x + chunk, y),
        bottom_left: cell_at(x, y + chunk),
        bottom_right: cell_at(x + chunk, y + chunk),
        center: cell_at(x + chunk / 2, y + chunk / 2),
        jitter: jitter_at(seed, x, y),
    }
}

/// How many chunks lie along one edge of the grid.
pub open spec fn chunks_per_edge(size: int, chunk: int) -> int {
    (size - 1) / chunk
}

/// The steps on the chunks whose origins have `y == row * chunk`, by
/// ascending `x`.
pub open spec fn square_row(seed: i64, size: int, chunk: int, row: int) -> Seq<SquareStep> {
    Seq::new(
        chunks_per_edge(size, chunk) as nat,
        |col: int| square_step_at(seed, chunk, col * chunk, row * chunk),
    )
}

/// The whole square pass: the rows of chunks by ascending `y`.
pub open spec fn square_steps(seed: i64, size: int, chunk: int) -> Seq<SquareStep> {
    Seq::new(
        chunks_per_edge(size, chunk) as nat,
        |row: int| square_row(seed, size, chunk, row),
    ).flatten()
}

impl SquareStep {
    /// Every cell that the step names lies in a grid of the given edge length.
    pub open spec fn within(self, size: int) -> bool {
        &&& self.top_left.within(size)
        &&& self.top_right.within(size)
        &&& self.bottom_left.within(size)
        &&& self.bottom_right.within(size)
        &&& self.center.within(size)
    }
}

/// The chunks along one edge span the edge exactly, and a chunk is two
/// halves.
pub(crate) proof fn lemma_chunks_span(size: int, chunk: int)
    requires
        chunk_fits(size, chunk),
    ensures
        chunks_per_edge(size, chunk) * chunk == size - 1,
        chunks_per_edge(size, chunk) >= 1,
        (chunk / 2) * 2 == chunk,
{
    let q = chunks_per_edge(size, chunk);
    vstd::arithmetic::div_mod::lemma_fundamental_div_mod(size - 1, chunk);
    assert(q * chunk == size - 1) by (nonlinear_arith)
        requires
            size - 1 == chunk * q + 0,
    ;
    assert(q >= 1) by (nonlinear_arith)
        requires
            q * chunk == size - 1,
            2 <= chunk <= size - 1,
    ;
}

/// Facts on the places `index * step` of a walk in equal steps, `count` of
/// which span the whole.
proof fn lemma_stride(step: int, count: int, index: int)
    requires
        step >= 1,
        0 <= index,
    ensures
        0 <= index * step,
        (index + 1) * step == index * step + step,
        index >= 1 ==> index * step >= step,
        index < count ==> index * step + step <= count * step,
        index <= count ==> index * step <= count * step,
{
    assert(0 <= index * step) by (nonlinear_arith)
        requires
            0 <= index,
            0 <= step,
    ;
    assert((index + 1) * step == index * step + step) by (nonlinear_arith);
    if index >= 1 {
        assert(index * step >= step) by (nonlinear_arith)
            requires
                index >= 1,
                step >= 0,
        ;
    }
    if index < count {
        assert(index * step + step <= count * step) by (nonlinear_arith)
            requires
                index + 1 <= count,
                0 <= step,
        ;
    }
    if index <= count {
        assert(index * step <= count * step) by (nonlinear_arith)
            requires
                index <= count,
                0 <= step,
        ;
    }
}

/// Builds the square step on the chunk with origin `(x, y)`.
fn square_step(seed: i64, size: u32, chunk: u32, x: u32, y: u32) -> (step: SquareStep)
    requires
        chunk % 2 == 0,
        x + chunk < size,
        y + chunk < size,
    ensures
        step == square_step_at(seed, chunk as int, x as int, y as int),
        step.within(size as int),
{
    let half = chunk / 2;
    SquareStep {
        top_left: Cell { x, y },
        top_right: Cell { x: x + chunk, y },
        bottom_left: Cell { x, y: y + chunk },
        bottom_right: Cell { x: x + chunk, y: y + chunk },
        center: Cell { x: x + half, y: y + half },
        jitter: hash(seed, x as i32, y as i32),
    }
}

/// Lists the steps of the square pass at one chunk size, in the order in
/// which they are carried out.
pub fn square_pass(seed: i64, size: u32, chunk: u32) -> (steps: Vec<SquareStep>)
    requires
        chunk_fits(size as int, chunk as int),
    ensures
        steps@ == square_steps(seed, size as int, chunk as int),
        forall|i: int| 0 <= i < steps@.len() ==> (#[trigger] steps@[i]).within(size as int),
{
    let per_edge: u32 = (size - 1) / chunk;
    let ghost rows = |row: int| square_row(seed, size as int, chunk as int, row);
    let mut steps: Vec<SquareStep> = Vec::new();
    let mut row: u32 = 0;
    let mut y: u32 = 0;
    proof {
        lemma_chunks_span(size as int, chunk as int);
        assert(Seq::new(0nat, rows).flatten() =~= Seq::<SquareStep>::empty());
    }
    while row < per_edge
        invariant
            chunk_fits(size as int, chunk as int),
            per_edge == chunks_per_edge(size as int, chunk as int),
            rows == |row: int| square_row(seed, size as int, chunk as int, row),
            row <= per_edge,
            y == row * chunk,
            steps@ == Seq::new(row as nat, rows).flatten(),
            forall|i: int| 0 <= i < steps@.len() ==> (#[trigger] steps@[i]).within(size as int),
        decreases per_edge - row,
    {
        let ghost before = steps@;
        let mut col: u32 = 0;
        let mut x: u32 = 0;
        proof {
            lemma_chunks_span(size as int, chunk as int);
            lemma_stride(chunk as int, per_edge as int, row as int);
        }
        while col < per_edge
            invariant
                chunk_fits(size as int, chunk as int),
                per_edge == chunks_per_edge(size as int, chunk as int),
                row < per_edge,
                y == row * chunk,
                y + chunk <= size - 1,
                col <= per_edge,
                x == col * chunk,
                steps@ == before + square_row(seed, size as int, chunk as int, row as int).take(
                    col as int,
                ),
                forall|i: int| 0 <= i < steps@.len() ==> (#[trigger] steps@[i]).within(size as int),
            decreases per_edge - col,
        {
            proof {
                lemma_chunks_span(size as int, chunk as int);
                lemma_stride(chunk as int, per_edge as int, col as int);
            }
            let step = square_step(seed, size, chunk, x, y);
            steps.push(step);
            proof {
                let whole = square_row(seed, size as int, chunk as int, row as int);
                assert(whole.take(col + 1) =~= whole.take(col as int).push(whole[col as int]));
            }
            col = col + 1;
            x = x + chunk;
        }
        proof {
            let whole = square_row(seed, size as int, chunk as int, row as int);
            assert(whole.take(per_edge as int) =~= whole);
            assert(Seq::new((row + 1) as nat, rows) =~= Seq::new(row as nat, rows).push(whole));
            Seq::new(row as nat, rows).lemma_flatten_push(whole);
        }
        row = row + 1;
        y = y + chunk;
    }
    steps
}

/// The neighbour at `(x, y)`, if that lies in the grid.
pub open spec fn neighbor_at(size: int, x: int, y: int) -> Option<Cell> {
    if 0 <= x < size && 0 <= y < size {
        Some(cell_at(x, y))
    } else {
        None
    }
}

/// The diamond step on the cell at `(x, y)`, whose neighbours stand `half`
/// away along each axis. A neighbour is used exactly when it lies in the grid.
pub open spec fn diamond_step_at(seed: i64, size: int, half: int, x: int, y: int) -> DiamondStep {
    DiamondStep {
        target: cell_at(x, y),
        low_x: neighbor_at(size, x - half, y),
        low_y: neighbor_at(size, x, y - half),
        high_x: neighbor_at(size, x + half, y),
        high_y: neighbor_at(size, x, y + half),
        jitter: jitter_at(seed, x, y),
    }
}

/// The `x` of the first cell in a row of the diamond pass. Rows lie half a
/// chunk apart; those on the chunks' edges start half a chunk in, those
/// through the chunks' centers start at the grid's edge.
pub open spec fn diamond_row_start(chunk: int, row: int) -> int {
    if row % 2 == 0 {
        chunk / 2
    } else {
        0
    }
}

/// How many cells a row of the diamond pass holds.
pub open spec fn diamond_row_len(size: int, chunk: int, row: int) -> int {
    if row % 2 == 0 {
        chunks_per_edge(size, chunk)
    } else {
        chunks_per_edge(size, chunk) + 1
    }
}

/// The steps on the cells with `y == row * (chunk / 2)`, by ascending `x`,
/// one chunk apart.
pub open spec fn diamond_row(seed: i64, size: int, chunk: int, row: int) -> Seq<DiamondStep> {
    Seq::new(
        diamond_row_len(size, chunk, row) as nat,
        |col: int|
            diamond_step_at(
                seed,
                size,
                chunk / 2,
                diamond_row_start(chunk, row) + col * chunk,
                row * (chunk / 2),
            ),
    )
}

/// The whole diamond pass: its rows by ascending `y`, from the grid's first
/// row to its last.
pub open spec fn diamond_steps(seed: i64, size: int, chunk: int) -> Seq<DiamondStep> {
    Seq::new(
        (2 * chunks_per_edge(size, chunk) + 1) as nat,
        |row: int| diamond_row(seed, size, chunk, row),
    ).flatten()
}

impl DiamondStep {
    /// How many neighbours the mean is taken over.
    pub open spec fn neighbor_count(self) -> int {
        (if self.low_x is Some { 1int } else { 0 }) + (if self.low_y is Some { 1int } else { 0 })
            + (if self.high_x is Some { 1int } else { 0 }) + (if self.high_y is Some { 1int } else { 0 })
    }

    /// Every cell that the step names lies in a grid of the given edge length.
    pub open spec fn within(self, size: int) -> bool {
        &&& self.target.within(size)
        &&& self.low_x matches Some(c) ==> c.within(size)
        &&& self.low_y matches Some(c) ==> c.within(size)
        &&& self.high_x matches Some(c) ==> c.within(size)
        &&& self.high_y matches Some(c) ==> c.within(size)
    }
}

/// Builds the diamond step on the cell at `(x, y)`.
fn diamond_step(seed: i64, size: u32, half: u32, x: u32, y: u32) -> (step: DiamondStep)
    requires
        x < size,
        y < size,
    ensures
        step == diamond_step_at(seed, size as int, half as int, x as int, y as int),
        step.within(size as int),
{
    let low_x = if x >= half {
        Some(Cell { x: x - half, y })
    } else {
        None
    };
    let low_y = if y >= half {
        Some(Cell { x, y: y - half })
    } else {
        None
    };
    let high_x = if half < size - x {
        Some(Cell { x: x + half, y })
    } else {
        None
    };
    let high_y = if half < size - y {
        Some(Cell { x, y: y + half })
    } else {
        None
    };
    DiamondStep { target: Cell { x, y }, low_x, low_y, high_x, high_y, jitter: hash(seed, x as i32, y as i32) }
}

/// Lists the steps of the diamond pass at one chunk size, in the order in
/// which they are carried out. Every step averages over three neighbours, on
/// the grid's edge, or four, inside it.
pub fn diamond_pass(seed: i64, size: u32, chunk: u32) -> (steps: Vec<DiamondStep>)
    requires
        chunk_fits(size as int, chunk as int),
    ensures
        steps@ == diamond_steps(seed, size as int, chunk as int),
        forall|i: int|
            0 <= i < steps@.len() ==> {
                &&& (#[trigger] steps@[i]).within(size as int)
                &&& 3 <= steps@[i].neighbor_count() <= 4
            },
{
    let half: u32 = chunk / 2;
    let per_edge: u32 = (size - 1) / chunk;
    let row_count: u64 = 2 * (per_edge as u64) + 1;
    let ghost rows = |row: int| diamond_row(seed, size as int, chunk as int, row);
    let mut steps: Vec<DiamondStep> = Vec::new();
    let mut row: u64 = 0;
    let mut y: u64 = 0;
    proof {
        lemma_chunks_span(size as int, chunk as int);
        assert(Seq::new(0nat, rows).flatten() =~= Seq::<DiamondStep>::empty());
        assert(2 * per_edge * half == size - 1) by (nonlinear_arith)
            requires
                per_edge * chunk == size - 1,
                half * 2 == chunk,
        ;
    }
    while row < row_count
        invariant
            chunk_fits(size as int, chunk as int),
            half == chunk / 2,
            half * 2 == chunk,
            per_edge == chunks_per_edge(size as int, chunk as int),
            per_edge * chunk == size - 1,
            2 * per_edge * half == size - 1,
            row_count == 2 * per_edge + 1,
            rows == |row: int| diamond_row(seed, size as int, chunk as int, row),
            row <= row_count,
            y == row * half,
            steps@ == Seq::new(row as nat, rows).flatten(),
            forall|i: int|
                0 <= i < steps@.len() ==> {
                    &&& (#[trigger] steps@[i]).within(size as int)
                    &&& 3 <= steps@[i].neighbor_count() <= 4
                },
        decreases row_count - row,
    {
        let ghost before = steps@;
        let on_edge: bool = row % 2 == 0;
        let len: u64 = if on_edge {
            per_edge as u64
        } else {
            per_edge as u64 + 1
        };
        let mut col: u64 = 0;
        let mut x: u64 = if on_edge {
            half as u64
        } else {
            0
        };
        proof {
            lemma_stride(half as int, 2 * per_edge, row as int);
        }
        while col < len
            invariant
                chunk_fits(size as int, chunk as int),
                half == chunk / 2,
                half * 2 == chunk,
                per_edge == chunks_per_edge(size as int, chunk as int),
                per_edge * chunk == size - 1,
                2 * per_edge * half == size - 1,
                row <= 2 * per_edge,
                on_edge == (row % 2 == 0),
                len == diamond_row_len(size as int, chunk as int, row as int),
                y == row * half,
                y <= size - 1,
                !on_edge ==> half <= y && y + half <= size - 1,
                col <= len,
                x == diamond_row_start(chunk as int, row as int) + col * chunk,
                steps@ == before + diamond_row(seed, size as int, chunk as int, row as int).take(
                    col as int,
                ),
                forall|i: int|
                    0 <= i < steps@.len() ==> {
                        &&& (#[trigger] steps@[i]).within(size as int)
                        &&& 3 <= steps@[i].neighbor_count() <= 4
                    },
            decreases len - col,
        {
            proof {
                lemma_stride(chunk as int, per_edge as int, col as int);
            }
            let step = diamond_step(seed, size, half, x as u32, y as u32);
            steps.push(step);
            proof {
                let whole = diamond_row(seed, size as int, chunk as int, row as int);
                assert(whole.take(col + 1) =~= whole.take(col as int).push(whole[col as int]));
            }
            col = col + 1;
            x = x + chunk as u64;
        }
        proof {
            let whole = diamond_row(seed, size as int, chunk as int, row as int);
            assert(whole.take(len as int) =~= whole);
            assert(Seq::new((row + 1) as nat, rows) =~= Seq::new(row as nat, rows).push(whole));
            Seq::new(row as nat, rows).lemma_flatten_push(whole);
        }
        row = row + 1;
        y = y + half as u64;
    }
    steps
}

/// At the coarsest level the square pass is a single step on the one chunk
/// that spans the grid. It reads the four grid corners, writes their mean to
/// the grid's center, and adds to the corner at the origin, and to no other
/// corner, the jitter that belongs to the hash of `(seed, 0, 0)`.
pub proof fn lemma_first_square_pass(seed: i64, size: int)
    requires
        chunk_fits(size, size - 1),
        size <= u32::MAX,
    ensures
        square_steps(seed, size, size - 1) == seq![square_step_at(seed, size - 1, 0, 0)],
        ({
            let step = square_steps(seed, size, size - 1)[0];
            let last = (size - 1) as u32;
            let middle = ((size - 1) / 2) as u32;
            &&& step.top_left == Cell { x: 0, y: 0 }
            &&& step.top_right == Cell { x: last, y: 0 }
            &&& step.bottom_left == Cell { x: 0, y: last }
            &&& step.bottom_right == Cell { x: last, y: last }
            &&& step.center == Cell { x: middle, y: middle }
            &&& 0 < middle < last
            &&& step.jitter == hash_numerator(seed, 0, 0)
        }),
{
    let chunk = size - 1;
    vstd::arithmetic::div_mod::lemma_div_by_self(chunk);
    let rows = Seq::new(1nat, |row: int| square_row(seed, size, chunk, row));
    rows.lemma_flatten_one_element();
    assert(0 * chunk == 0);
    assert(rows.first() =~= seq![square_step_at(seed, chunk, 0, 0)]);
}

/// The rows of the diamond pass lie half a chunk apart, and the `x` of a
/// row's first cell is `(y + half) mod chunk`: the phase alternates from row
/// to row. The row's cells then follow one chunk apart as far as the grid
/// goes.
pub proof fn lemma_diamond_row_phase(size: int, chunk: int, row: int)
    requires
        chunk_fits(size, chunk),
        0 <= row <= 2 * chunks_per_edge(size, chunk),
    ensures
        ({
            let half = chunk / 2;
            let y = row * half;
            let start = diamond_row_start(chunk, row);
            let len = diamond_row_len(size, chunk, row);
            &&& 0 <= y <= size - 1
            &&& start == (y + half) % chunk
            &&& len >= 1
            &&& start + (len - 1) * chunk <= size - 1 < start + len * chunk
        }),
{
    let half = chunk / 2;
    let q = chunks_per_edge(size, chunk);
    let pair = row / 2;
    lemma_chunks_span(size, chunk);
    lemma_stride(half, 2 * q, row);
    assert(2 * q * half == size - 1) by (nonlinear_arith)
        requires
            q * chunk == size - 1,
            half * 2 == chunk,
    ;
    if row % 2 == 0 {
        assert(row * half + half == pair * chunk + half) by (nonlinear_arith)
            requires
                row == 2 * pair,
                chunk == 2 * half,
        ;
        vstd::arithmetic::div_mod::lemma_fundamental_div_mod_converse(
            pair * chunk + half,
            chunk,
            pair,
            half,
        );
        assert((q - 1) * chunk == q * chunk - chunk) by (nonlinear_arith);
    } else {
        assert(row * half + half == (pair + 1) * chunk) by (nonlinear_arith)
            requires
                row == 2 * pair + 1,
                chunk == 2 * half,
        ;
        vstd::arithmetic::div_mod::lemma_mod_multiples_basic(pair + 1, chunk);
        assert((q + 1) * chunk == q * chunk + chunk) by (nonlinear_arith);
    }
}

} // verus!
