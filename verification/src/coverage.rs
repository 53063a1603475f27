//! Once the last level is done, the grid is full: the schedule gives every
//! cell a value.

use crate::grid::Cell;
use crate::plan::{lemma_chunk_of_level, level_at, levels_from, plan_of};
use crate::refine::{
    cell_at, chunk_fits, chunks_per_edge, diamond_row, lemma_chunks_span, square_row,
};
use crate::request::{valid_size, TileRequest};
use vstd::arithmetic::div_mod::{lemma_fundamental_div_mod, lemma_mod_multiples_basic};
use vstd::arithmetic::power2::{lemma_pow2_pos, pow2};
use vstd::prelude::*;

verus! {

/// An item of a row is an item of the rows laid end to end.
pub(crate) proof fn lemma_flatten_holds<A>(rows: Seq<Seq<A>>, r: int, c: int)
    requires
        0 <= r < rows.len(),
        0 <= c < rows[r].len(),
    ensures
        exists|i: int| 0 <= i < rows.flatten().len() && #[trigger] rows.flatten()[i] == rows[r][c],
    decreases rows.len(),
{
    let front = rows.drop_last();
    let last = rows.last();
    assert(rows =~= front.push(last));
    front.lemma_flatten_push(last);
    if r == rows.len() - 1 {
        let i = front.flatten().len() + c;
        assert(rows.flatten()[i] == rows[r][c]);
    } else {
        lemma_flatten_holds(front, r, c);
        let i = choose|i: int|
            0 <= i < front.flatten().len() && #[trigger] front.flatten()[i] == front[r][c];
        assert(rows.flatten()[i] == rows[r][c]);
    }
}

/// The square pass of a level writes the center of every chunk. The chunk is
/// given by its place among the chunks: `bx` and `by` chunks from the origin.
pub(crate) proof fn lemma_level_centers(seed: i64, size: int, chunk: int, bx: int, by: int)
    requires
        chunk_fits(size, chunk),
        0 <= bx < chunks_per_edge(size, chunk),
        0 <= by < chunks_per_edge(size, chunk),
    ensures
        level_at(seed, size, chunk).centers(
            cell_at(bx * chunk + chunk / 2, by * chunk + chunk / 2),
        ),
{
    let q = chunks_per_edge(size, chunk);
    let level = level_at(seed, size, chunk);
    let rows = Seq::new(q as nat, |row: int| square_row(seed, size, chunk, row));
    lemma_flatten_holds(rows, by, bx);
    let i = choose|i: int|
        0 <= i < rows.flatten().len() && #[trigger] rows.flatten()[i] == rows[by][bx];
    assert(level.squares[i].center == cell_at(bx * chunk + chunk / 2, by * chunk + chunk / 2));
}

/// A level writes every cell that lies on its lattice of half chunks and not
/// on its lattice of whole chunks. The cell is given by its place on the
/// finer lattice: `ax` and `ay` half chunks from the origin.
proof fn lemma_level_assigns(seed: i64, size: int, chunk: int, ax: int, ay: int)
    requires
        chunk_fits(size, chunk),
        0 <= ax <= 2 * chunks_per_edge(size, chunk),
        0 <= ay <= 2 * chunks_per_edge(size, chunk),
        ax % 2 == 1 || ay % 2 == 1,
    ensures
        level_at(seed, size, chunk).assigns(cell_at(ax * (chunk / 2), ay * (chunk / 2))),
{
    let half = chunk / 2;
    let q = chunks_per_edge(size, chunk);
    let bx = ax / 2;
    let by = ay / 2;
    let level = level_at(seed, size, chunk);
    let cell = cell_at(ax * half, ay * half);
    assert(ax % 2 == 1 ==> ax * half == bx * chunk + half) by (nonlinear_arith)
        requires
            ax == 2 * bx + ax % 2,
            chunk == 2 * half,
    ;
    assert(ax % 2 == 0 ==> ax * half == bx * chunk) by (nonlinear_arith)
        requires
            ax == 2 * bx + ax % 2,
            chunk == 2 * half,
    ;
    assert(ay % 2 == 1 ==> ay * half == by * chunk + half) by (nonlinear_arith)
        requires
            ay == 2 * by + ay % 2,
            chunk == 2 * half,
    ;
    assert(ay % 2 == 0 ==> ay * half == by * chunk) by (nonlinear_arith)
        requires
            ay == 2 * by + ay % 2,
            chunk == 2 * half,
    ;
    if ax % 2 == 1 && ay % 2 == 1 {
        lemma_level_centers(seed, size, chunk, bx, by);
    } else {
        let rows = Seq::new((2 * q + 1) as nat, |row: int| diamond_row(seed, size, chunk, row));
        lemma_flatten_holds(rows, ay, bx);
        let i = choose|i: int|
            0 <= i < rows.flatten().len() && #[trigger] rows.flatten()[i] == rows[ay][bx];
        assert(level.diamonds[i].target == cell);
    }
}

/// A cell off the lattice of whole chunks of some level is written by that
/// level or by one of the finer levels after it; and where the cell lies on
/// the lattice of a finer chunk size, by a level above that size.
pub(crate) proof fn lemma_some_level_assigns(
    seed: i64,
    size: int,
    total: nat,
    floor: nat,
    exponent: nat,
    cell: Cell,
)
    requires
        size == pow2(total) + 1,
        floor < exponent <= total,
        cell.within(size),
        cell.x as int % pow2(floor) as int == 0,
        cell.y as int % pow2(floor) as int == 0,
        !(cell.x as int % pow2(exponent) as int == 0 && cell.y as int % pow2(exponent) as int == 0),
    ensures
        exists|l: int|
            0 <= l < levels_from(seed, size, pow2(exponent) as int).len() && l < exponent - floor
                && (#[trigger] levels_from(seed, size, pow2(exponent) as int)[l]).assigns(cell),
    decreases exponent,
{
    let chunk = pow2(exponent) as int;
    let half = pow2((exponent - 1) as nat) as int;
    let q = chunks_per_edge(size, chunk);
    let x = cell.x as int;
    let y = cell.y as int;
    lemma_chunk_of_level(size, total, exponent);
    lemma_chunks_span(size, chunk);
    let levels = levels_from(seed, size, chunk);
    let finer = levels_from(seed, size, half);
    assert(levels == seq![level_at(seed, size, chunk)] + finer);
    if x % half == 0 && y % half == 0 {
        let ax = x / half;
        let ay = y / half;
        lemma_fundamental_div_mod(x, half);
        lemma_fundamental_div_mod(y, half);
        assert(ax * half == x && ay * half == y) by (nonlinear_arith)
            requires
                x == half * ax + 0,
                y == half * ay + 0,
        ;
        assert(0 <= ax <= 2 * q && 0 <= ay <= 2 * q) by (nonlinear_arith)
            requires
                ax * half == x,
                ay * half == y,
                0 <= x <= size - 1,
                0 <= y <= size - 1,
                q * chunk == size - 1,
                chunk == 2 * half,
                half >= 1,
        ;
        if ax % 2 == 0 {
            assert(x == (ax / 2) * chunk) by (nonlinear_arith)
                requires
                    ax * half == x,
                    ax == 2 * (ax / 2),
                    chunk == 2 * half,
            ;
            lemma_mod_multiples_basic(ax / 2, chunk);
        }
        if ay % 2 == 0 {
            assert(y == (ay / 2) * chunk) by (nonlinear_arith)
                requires
                    ay * half == y,
                    ay == 2 * (ay / 2),
                    chunk == 2 * half,
            ;
            lemma_mod_multiples_basic(ay / 2, chunk);
        }
        lemma_level_assigns(seed, size, chunk, ax, ay);
        assert(cell_at(ax * half, ay * half) == cell);
        assert(levels[0].assigns(cell));
    } else {
        if exponent == 1 {
            vstd::arithmetic::power2::lemma2_to64();
        }
        lemma_some_level_assigns(seed, size, total, floor, (exponent - 1) as nat, cell);
        let l = choose|l: int|
            0 <= l < finer.len() && l < exponent - 1 - floor && (#[trigger] finer[l]).assigns(cell);
        assert(levels[l + 1] == finer[l]);
    }
}

/// Full population: the schedule of a valid request gives every cell of the
/// tile's grid a value, as one of the four seeded corners, as the center of a
/// chunk in some square pass, or as a target of some diamond pass.
pub proof fn lemma_every_cell_assigned(request: TileRequest, cell: Cell)
    requires
        valid_size(request.image_size as int),
        cell.within(request.image_size as int),
    ensures
        plan_of(request).assigns(cell),
{
    let size = request.image_size as int;
    let total = choose|k: nat| size == #[trigger] pow2(k) + 1;
    let edge = pow2(total) as int;
    let x = cell.x as int;
    let y = cell.y as int;
    let plan = plan_of(request);
    lemma_pow2_pos(total);
    if x % edge == 0 && y % edge == 0 {
        lemma_fundamental_div_mod(x, edge);
        lemma_fundamental_div_mod(y, edge);
        assert(x == 0 || x == edge) by (nonlinear_arith)
            requires
                x == edge * (x / edge) + 0,
                0 <= x <= edge,
                edge >= 1,
        ;
        assert(y == 0 || y == edge) by (nonlinear_arith)
            requires
                y == edge * (y / edge) + 0,
                0 <= y <= edge,
                edge >= 1,
        ;
        let i: int = if x == 0 {
            if y == 0 {
                0
            } else {
                1
            }
        } else {
            if y == 0 {
                2
            } else {
                3
            }
        };
        assert(plan.corners[i].cell == cell);
    } else {
        if total == 0 {
            vstd::arithmetic::power2::lemma2_to64();
        }
        vstd::arithmetic::power2::lemma2_to64();
        lemma_some_level_assigns(request.seed, size, total, 0, total, cell);
        let l = choose|l: int|
            0 <= l < plan.levels.len() && (#[trigger] plan.levels[l]).assigns(cell);
        assert(plan.levels[l].assigns(cell));
    }
}

} // verus!
