//! Nothing is read before it is written: when a step of the schedule is
//! carried out, every cell that it reads already has its value.

use crate::coverage::{lemma_level_centers, lemma_some_level_assigns};
use crate::grid::Cell;
use crate::plan::{lemma_chunk_of_level, lemma_levels_halve, level_at, plan_of};
use crate::refine::{cell_at, chunks_per_edge, diamond_row, lemma_chunks_span, square_row};
use crate::request::{valid_size, TileRequest};
use vstd::arithmetic::div_mod::{lemma_fundamental_div_mod, lemma_mod_multiples_basic};
use vstd::arithmetic::power2::{lemma_pow2_pos, pow2};
use vstd::prelude::*;

verus! {

/// An item of the rows laid end to end is an item of one of the rows.
proof fn lemma_flatten_origin<A>(rows: Seq<Seq<A>>, i: int) -> (at: (int, int))
    requires
        0 <= i < rows.flatten().len(),
    ensures
        0 <= at.0 < rows.len(),
        0 <= at.1 < rows[at.0].len(),
        rows[at.0][at.1] == rows.flatten()[i],
    decreases rows.len(),
{
    if rows.len() == 0 {
        (0, 0)
    } else {
        let front = rows.drop_last();
        let last = rows.last();
        assert(rows =~= front.push(last));
        front.lemma_flatten_push(last);
        if i < front.flatten().len() {
            lemma_flatten_origin(front, i)
        } else {
            (rows.len() - 1, i - front.flatten().len())
        }
    }
}

/// The chunk size of a level can be worked with, and its chunks span the
/// grid's edge.
proof fn lemma_level_geometry(size: int, total: nat, exponent: nat)
    requires
        size == pow2(total) + 1,
        1 <= exponent <= total,
    ensures
        chunks_per_edge(size, pow2(exponent) as int) * pow2(exponent) == size - 1,
        chunks_per_edge(size, pow2(exponent) as int) >= 1,
{
    lemma_chunk_of_level(size, total, exponent);
    lemma_chunks_span(size, pow2(exponent) as int);
}

/// A cell where chunks of a level meet has its value before the level begins.
proof fn lemma_lattice_ready(request: TileRequest, total: nat, exponent: nat, ix: int, iy: int)
    requires
        request.image_size == pow2(total) + 1,
        1 <= exponent <= total,
        0 <= ix <= chunks_per_edge(request.image_size as int, pow2(exponent) as int),
        0 <= iy <= chunks_per_edge(request.image_size as int, pow2(exponent) as int),
    ensures
        plan_of(request).assigned_before(
            total - exponent,
            cell_at(ix * pow2(exponent), iy * pow2(exponent)),
        ),
{
    let size = request.image_size as int;
    let edge = pow2(total) as int;
    let chunk = pow2(exponent) as int;
    let q = chunks_per_edge(size, chunk);
    let plan = plan_of(request);
    let x = ix * chunk;
    let y = iy * chunk;
    let cell = cell_at(x, y);
    lemma_level_geometry(size, total, exponent);
    lemma_pow2_pos(total);
    assert(0 <= x <= q * chunk && 0 <= y <= q * chunk) by (nonlinear_arith)
        requires
            0 <= ix <= q,
            0 <= iy <= q,
            x == ix * chunk,
            y == iy * chunk,
            chunk >= 0,
    ;
    assert(cell.x == x && cell.y == y);
    lemma_mod_multiples_basic(ix, chunk);
    lemma_mod_multiples_basic(iy, chunk);
    if x % edge == 0 && y % edge == 0 {
        lemma_fundamental_div_mod(x, edge);
        lemma_fundamental_div_mod(y, edge);
        assert(x == 0 || x == edge) by (nonlinear_arith)
            requires
                x == edge * (x / edge) + 0,
                0 <= x <= edge,
                edge >= 1,
        ;
        assert(y == 0 || y == edge) by (nonlinear_arith)
            requires
                y == edge * (y / edge) + 0,
                0 <= y <= edge,
                edge >= 1,
        ;
        let i: int = if x == 0 {
            if y == 0 {
                0
            } else {
                1
            }
        } else {
            if y == 0 {
                2
            } else {
                3
            }
        };
        assert(plan.corners[i].cell == cell);
    } else {
        lemma_some_level_assigns(request.seed, size, total, exponent, total, cell);
        let l = choose|l: int|
            0 <= l < plan.levels.len() && l < total - exponent && (#[trigger] plan.levels[l]).assigns(
                cell,
            );
        assert(plan.levels[l].assigns(cell));
    }
}

/// The four corners that a square step averages have their values before the
/// step's level begins: each is a seeded corner of the grid or was written by
/// an earlier level.
pub proof fn lemma_square_sources_ready(request: TileRequest, level: int, i: int)
    requires
        valid_size(request.image_size as int),
        0 <= level < plan_of(request).levels.len(),
        0 <= i < plan_of(request).levels[level].squares.len(),
    ensures
        ({
            let plan = plan_of(request);
            let step = plan.levels[level].squares[i];
            &&& plan.assigned_before(level, step.top_left)
            &&& plan.assigned_before(level, step.top_right)
            &&& plan.assigned_before(level, step.bottom_left)
            &&& plan.assigned_before(level, step.bottom_right)
        }),
{
    let size = request.image_size as int;
    let seed = request.seed;
    let total = choose|k: nat| size == #[trigger] pow2(k) + 1;
    lemma_levels_halve(seed, size, total);
    let exponent = (total - level) as nat;
    let chunk = pow2(exponent) as int;
    let q = chunks_per_edge(size, chunk);
    lemma_level_geometry(size, total, exponent);
    let rows = Seq::new(q as nat, |row: int| square_row(seed, size, chunk, row));
    let (row, col) = lemma_flatten_origin(rows, i);
    assert((col + 1) * chunk == col * chunk + chunk) by (nonlinear_arith);
    assert((row + 1) * chunk == row * chunk + chunk) by (nonlinear_arith);
    lemma_lattice_ready(request, total, exponent, col, row);
    lemma_lattice_ready(request, total, exponent, col + 1, row);
    lemma_lattice_ready(request, total, exponent, col, row + 1);
    lemma_lattice_ready(request, total, exponent, col + 1, row + 1);
}

/// Every neighbour that a diamond step averages has its value when the step
/// is carried out: it is a seeded corner of the grid, or was written by an
/// earlier level, or is the center of a chunk and was written by the square
/// pass of the step's own level.
pub proof fn lemma_diamond_sources_ready(request: TileRequest, level: int, i: int)
    requires
        valid_size(request.image_size as int),
        0 <= level < plan_of(request).levels.len(),
        0 <= i < plan_of(request).levels[level].diamonds.len(),
    ensures
        ({
            let plan = plan_of(request);
            let step = plan.levels[level].diamonds[i];
            let ready = |cell: Cell|
                plan.assigned_before(level, cell) || plan.levels[level].centers(cell);
            &&& step.low_x matches Some(cell) ==> ready(cell)
            &&& step.low_y matches Some(cell) ==> ready(cell)
            &&& step.high_x matches Some(cell) ==> ready(cell)
            &&& step.high_y matches Some(cell) ==> ready(cell)
        }),
{
    let size = request.image_size as int;
    let seed = request.seed;
    let total = choose|k: nat| size == #[trigger] pow2(k) + 1;
    lemma_levels_halve(seed, size, total);
    let exponent = (total - level) as nat;
    let chunk = pow2(exponent) as int;
    let half = chunk / 2;
    let q = chunks_per_edge(size, chunk);
    lemma_level_geometry(size, total, exponent);
    lemma_chunk_of_level(size, total, exponent);
    let rows = Seq::new((2 * q + 1) as nat, |row: int| diamond_row(seed, size, chunk, row));
    let (row, col) = lemma_flatten_origin(rows, i);
    let pair = row / 2;
    assert((col + 1) * chunk == col * chunk + chunk) by (nonlinear_arith);
    assert((col - 1) * chunk == col * chunk - chunk) by (nonlinear_arith);
    assert((pair + 1) * chunk == pair * chunk + chunk) by (nonlinear_arith);
    assert((pair - 1) * chunk == pair * chunk - chunk) by (nonlinear_arith);
    assert(row % 2 == 0 ==> row * half == pair * chunk) by (nonlinear_arith)
        requires
            row == 2 * pair + row % 2,
            chunk == 2 * half,
    ;
    assert(row % 2 == 1 ==> row * half == pair * chunk + half) by (nonlinear_arith)
        requires
            row == 2 * pair + row % 2,
            chunk == 2 * half,
    ;
    assert(0 <= col * chunk) by (nonlinear_arith)
        requires
            0 <= col,
            0 <= chunk,
    ;
    assert(0 <= pair * chunk) by (nonlinear_arith)
        requires
            0 <= pair,
            0 <= chunk,
    ;
    assert(level_at(seed, size, chunk) == plan_of(request).levels[level]);
    if row % 2 == 0 {
        // The cell lies on a chunk's edge along x, between two chunk corners.
        lemma_lattice_ready(request, total, exponent, col, pair);
        lemma_lattice_ready(request, total, exponent, col + 1, pair);
        if pair >= 1 {
            lemma_level_centers(seed, size, chunk, col, pair - 1);
        }
        if pair < q {
            lemma_level_centers(seed, size, chunk, col, pair);
        }
    } else {
        // The cell lies on a chunk's edge along y, between two chunk corners.
        lemma_lattice_ready(request, total, exponent, col, pair);
        lemma_lattice_ready(request, total, exponent, col, pair + 1);
        if col >= 1 {
            lemma_level_centers(seed, size, chunk, col - 1, pair);
        }
        if col < q {
            lemma_level_centers(seed, size, chunk, col, pair);
        }
    }
}

} // verus!
