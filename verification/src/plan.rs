//! The whole schedule of one tile: the four seeded corners, then one level of
//! refinement after another, each at half the chunk size of the one before.

use crate::grid::Cell;
use crate::hasher::{hash, hash_numerator};
use crate::refine::{
    cell_at, chunk_fits, diamond_pass, diamond_steps, square_pass, square_steps, DiamondStep,
    SquareStep,
};
use crate::request::{refinement_levels, valid_size, GenError, TileRequest};
use vstd::arithmetic::power2::{lemma_pow2_adds, lemma_pow2_pos, lemma_pow2_unfold, pow2};
use vstd::prelude::*;

verus! {

/// The value a grid corner starts from, as a numerator over the hash modulus.
#[derive(Debug, Clone, Copy, PartialEq, Eq, Structural)]
pub struct CornerSeed {
    pub cell: Cell,
    pub numerator: u8,
}

/// One level of refinement: the square pass, then the diamond pass, both at
/// the same chunk size and with the same jitter amplitude.
#[derive(Debug, PartialEq, Eq)]
pub struct Level {
    pub chunk: u32,
    pub squares: Vec<SquareStep>,
    pub diamonds: Vec<DiamondStep>,
}

/// What a [`Level`] holds.
pub ghost struct LevelView {
    pub chunk: u32,
    pub squares: Seq<SquareStep>,
    pub diamonds: Seq<DiamondStep>,
}

impl View for Level {
    type V = LevelView;

    open spec fn view(&self) -> LevelView {
        LevelView { chunk: self.chunk, squares: self.squares@, diamonds: self.diamonds@ }
    }
}

/// The schedule of one tile. The caller sets the corners, then carries out
/// the levels in order, halving the jitter amplitude after each.
#[derive(Debug, PartialEq, Eq)]
pub struct Plan {
    pub size: u32,
    pub roughness_bits: u32,
    pub corners: Vec<CornerSeed>,
    pub levels: Vec<Level>,
}

/// What a [`Plan`] holds.
pub ghost struct PlanView {
    pub size: u32,
    pub roughness_bits: u32,
    pub corners: Seq<CornerSeed>,
    pub levels: Seq<LevelView>,
}

impl LevelView {
    /// Every step of the level stays within a grid of the given edge length,
    /// and every diamond step has three or four neighbours to average.
    pub open spec fn in_bounds(self, size: int) -> bool {
        &&& forall|i: int| 0 <= i < self.squares.len() ==> (#[trigger] self.squares[i]).within(size)
        &&& forall|i: int|
            0 <= i < self.diamonds.len() ==> {
                &&& (#[trigger] self.diamonds[i]).within(size)
                &&& 3 <= self.diamonds[i].neighbor_count() <= 4
            }
    }

    /// Whether the square pass of the level writes a mean to the cell.
    pub open spec fn centers(self, cell: Cell) -> bool {
        exists|i: int| 0 <= i < self.squares.len() && (#[trigger] self.squares[i]).center == cell
    }

    /// Whether the level writes a value to the cell: as the center of a
    /// chunk in the square pass, or as a target of the diamond pass.
    pub open spec fn assigns(self, cell: Cell) -> bool {
        ||| self.centers(cell)
        ||| exists|i: int| 0 <= i < self.diamonds.len() && (#[trigger] self.diamonds[i]).target == cell
    }
}

impl PlanView {
    /// Whether the schedule gives the cell a value: as a seeded corner, or in
    /// one of the levels.
    pub open spec fn assigns(self, cell: Cell) -> bool {
        ||| exists|i: int| 0 <= i < self.corners.len() && (#[trigger] self.corners[i]).cell == cell
        ||| exists|l: int| 0 <= l < self.levels.len() && (#[trigger] self.levels[l]).assigns(cell)
    }

    /// Whether the cell has its value when level `level` begins: it is a
    /// seeded corner, or an earlier level gave it one.
    pub open spec fn assigned_before(self, level: int, cell: Cell) -> bool {
        ||| exists|i: int| 0 <= i < self.corners.len() && (#[trigger] self.corners[i]).cell == cell
        ||| exists|l: int|
            0 <= l < level && l < self.levels.len() && (#[trigger] self.levels[l]).assigns(cell)
    }

    /// Every cell that the schedule names lies in the tile's grid, and no
    /// mean is taken over fewer than three cells.
    pub open spec fn in_bounds(self) -> bool {
        &&& forall|i: int|
            0 <= i < self.corners.len() ==> (#[trigger] self.corners[i]).cell.within(self.size as int)
        &&& forall|l: int|
            0 <= l < self.levels.len() ==> (#[trigger] self.levels[l]).in_bounds(self.size as int)
    }
}

/// The views of a run of levels.
pub open spec fn level_views(levels: Seq<Level>) -> Seq<LevelView> {
    Seq::new(levels.len(), |i: int| levels[i]@)
}

impl View for Plan {
    type V = PlanView;

    open spec fn view(&self) -> PlanView {
        PlanView {
            size: self.size,
            roughness_bits: self.roughness_bits,
            corners: self.corners@,
            levels: level_views(self.levels@),
        }
    }
}

/// The four corner seeds of the tile at `position`, in the order in which
/// they are set. Only here does the tile's position enter the schedule.
pub open spec fn corner_seeds_of(position: (i32, i32), seed: i64, size: int) -> Seq<CornerSeed> {
    let px = position.0;
    let py = position.1;
    seq![
        CornerSeed { cell: cell_at(0, 0), numerator: hash_numerator(seed, px, py) as u8 },
        CornerSeed {
            cell: cell_at(0, size - 1),
            numerator: hash_numerator(seed, px, (py + 1) as i32) as u8,
        },
        CornerSeed {
            cell: cell_at(size - 1, 0),
            numerator: hash_numerator(seed, (px + 1) as i32, py) as u8,
        },
        CornerSeed {
            cell: cell_at(size - 1, size - 1),
            numerator: hash_numerator(seed, (px + 1) as i32, (py + 1) as i32) as u8,
        },
    ]
}

/// The level at one chunk size.
pub open spec fn level_at(seed: i64, size: int, chunk: int) -> LevelView {
    LevelView {
        chunk: chunk as u32,
        squares: square_steps(seed, size, chunk),
        diamonds: diamond_steps(seed, size, chunk),
    }
}

/// The levels from chunk size `chunk` down: each at half the chunk size of
/// the one before, as long as the chunk size is above one.
pub open spec fn levels_from(seed: i64, size: int, chunk: int) -> Seq<LevelView>
    decreases chunk,
{
    if chunk <= 1 {
        Seq::empty()
    } else {
        seq![level_at(seed, size, chunk)] + levels_from(seed, size, chunk / 2)
    }
}

/// The schedule that a request asks for.
pub open spec fn plan_of(request: TileRequest) -> PlanView {
    PlanView {
        size: request.image_size,
        roughness_bits: request.roughness_bits,
        corners: corner_seeds_of(request.position, request.seed, request.image_size as int),
        levels: levels_from(request.seed, request.image_size as int, request.image_size - 1),
    }
}

/// Seeds the four corners of the tile at `position`.
pub fn corner_seeds(position: (i32, i32), seed: i64, size: u32) -> (corners: Vec<CornerSeed>)
    requires
        position.0 < i32::MAX,
        position.1 < i32::MAX,
        size >= 1,
    ensures
        corners@ == corner_seeds_of(position, seed, size as int),
        forall|i: int| 0 <= i < corners@.len() ==> (#[trigger] corners@[i]).cell.within(size as int),
{
    let px = position.0;
    let py = position.1;
    let last = size - 1;
    let mut corners: Vec<CornerSeed> = Vec::new();
    corners.push(CornerSeed { cell: Cell { x: 0, y: 0 }, numerator: hash(seed, px, py) });
    corners.push(CornerSeed { cell: Cell { x: 0, y: last }, numerator: hash(seed, px, py + 1) });
    corners.push(CornerSeed { cell: Cell { x: last, y: 0 }, numerator: hash(seed, px + 1, py) });
    corners.push(
        CornerSeed { cell: Cell { x: last, y: last }, numerator: hash(seed, px + 1, py + 1) },
    );
    assert(corners@ =~= corner_seeds_of(position, seed, size as int));
    corners
}

/// A power of two above one is even, and its half is the next power down.
proof fn lemma_pow2_halves(e: nat)
    requires
        pow2(e) > 1,
    ensures
        e >= 1,
        pow2(e) % 2 == 0,
        pow2(e) / 2 == pow2((e - 1) as nat),
{
    if e == 0 {
        vstd::arithmetic::power2::lemma2_to64();
    } else {
        lemma_pow2_unfold(e);
    }
}

/// A power of two divides every power of two that is not below it.
proof fn lemma_pow2_divides(low: nat, high: nat)
    requires
        low <= high,
    ensures
        (pow2(high) as int) % (pow2(low) as int) == 0,
        pow2(low) <= pow2(high),
{
    let rest = (high - low) as nat;
    lemma_pow2_adds(rest, low);
    lemma_pow2_pos(low);
    lemma_pow2_pos(rest);
    vstd::arithmetic::div_mod::lemma_mod_multiples_basic(pow2(rest) as int, pow2(low) as int);
    assert(pow2(low) <= pow2(rest) * pow2(low)) by (nonlinear_arith)
        requires
            pow2(rest) >= 1,
            pow2(low) >= 0,
    ;
}

/// Determinism: two requests that agree in position, seed, roughness and
/// size have one and the same schedule.
pub proof fn lemma_plan_is_deterministic(a: TileRequest, b: TileRequest)
    requires
        a.position == b.position,
        a.seed == b.seed,
        a.roughness_bits == b.roughness_bits,
        a.image_size == b.image_size,
    ensures
        plan_of(a) == plan_of(b),
{
}

/// A tile of edge length `2^exponent + 1` is refined in `exponent` levels,
/// and level `i` works at chunk size `2^(exponent - i)`: the chunk size
/// starts at the grid's whole edge and halves from level to level, down to 2.
pub proof fn lemma_levels_halve(seed: i64, size: int, exponent: nat)
    requires
        size == pow2(exponent) + 1,
    ensures
        levels_from(seed, size, size - 1).len() == exponent,
        forall|i: int|
            0 <= i < exponent ==> #[trigger] levels_from(seed, size, size - 1)[i] == level_at(
                seed,
                size,
                pow2((exponent - i) as nat) as int,
            ),
{
    lemma_levels_from_power(seed, size, exponent);
}

/// The levels from chunk size `2^exponent` down.
proof fn lemma_levels_from_power(seed: i64, size: int, exponent: nat)
    ensures
        levels_from(seed, size, pow2(exponent) as int).len() == exponent,
        forall|i: int|
            0 <= i < exponent ==> #[trigger] levels_from(seed, size, pow2(exponent) as int)[i]
                == level_at(seed, size, pow2((exponent - i) as nat) as int),
    decreases exponent,
{
    lemma_pow2_pos(exponent);
    if exponent == 0 {
        vstd::arithmetic::power2::lemma2_to64();
    } else {
        lemma_pow2_unfold(exponent);
        lemma_pow2_pos((exponent - 1) as nat);
        lemma_levels_from_power(seed, size, (exponent - 1) as nat);
        let rest = levels_from(seed, size, pow2((exponent - 1) as nat) as int);
        let all = levels_from(seed, size, pow2(exponent) as int);
        assert(all == seq![level_at(seed, size, pow2(exponent) as int)] + rest);
        assert forall|i: int| 0 <= i < exponent implies #[trigger] all[i] == level_at(
            seed,
            size,
            pow2((exponent - i) as nat) as int,
        ) by {
            if i > 0 {
                assert(all[i] == rest[i - 1]);
            }
        }
    }
}

/// The chunk size `2^exponent` of a level of a tile of edge length
/// `2^total + 1` is one that the passes can run with.
pub(crate) proof fn lemma_chunk_of_level(size: int, total: nat, exponent: nat)
    requires
        size == pow2(total) + 1,
        1 <= exponent <= total,
    ensures
        chunk_fits(size, pow2(exponent) as int),
        pow2(exponent) / 2 == pow2((exponent - 1) as nat),
        2 * pow2((exponent - 1) as nat) == pow2(exponent),
        pow2((exponent - 1) as nat) >= 1,
{
    lemma_pow2_unfold(exponent);
    lemma_pow2_pos((exponent - 1) as nat);
    lemma_pow2_divides(exponent, total);
}

/// Draws up the schedule of a tile.
///
/// The size is checked before anything is built: a size that is not one more
/// than a power of two gives `InvalidSize` and nothing else. The schedule is
/// a function of the request alone.
pub fn plan(request: &TileRequest) -> (result: Result<Plan, GenError>)
    requires
        request.position.0 < i32::MAX,
        request.position.1 < i32::MAX,
    ensures
        result is Ok <==> valid_size(request.image_size as int),
        result matches Ok(plan) ==> plan@ == plan_of(*request) && plan@.in_bounds(),
        result matches Err(e) ==> e == GenError::InvalidSize,
{
    let size = request.image_size;
    let seed = request.seed;
    let exponent = match refinement_levels(size) {
        Ok(exponent) => exponent,
        Err(e) => {
            return Err(e);
        },
    };
    let corners = corner_seeds(request.position, seed, size);
    let mut levels: Vec<Level> = Vec::new();
    let mut chunk: u32 = size - 1;
    let mut left: u32 = exponent;
    proof {
        assert(level_views(levels@) =~= Seq::<LevelView>::empty());
    }
    while chunk > 1
        invariant
            size == pow2(exponent as nat) + 1,
            left <= exponent,
            chunk == pow2(left as nat),
            forall|l: int|
                0 <= l < levels@.len() ==> (#[trigger] level_views(levels@)[l]).in_bounds(size as int),
            level_views(levels@) + levels_from(seed, size as int, chunk as int) == levels_from(
                seed,
                size as int,
                size - 1,
            ),
        decreases chunk,
    {
        proof {
            lemma_pow2_halves(left as nat);
            lemma_pow2_divides(left as nat, exponent as nat);
        }
        let squares = square_pass(seed, size, chunk);
        let diamonds = diamond_pass(seed, size, chunk);
        let ghost before = levels@;
        levels.push(Level { chunk, squares, diamonds });
        proof {
            assert(level_views(levels@) =~= level_views(before).push(
                level_at(seed, size as int, chunk as int),
            ));
            assert(level_views(levels@) + levels_from(seed, size as int, chunk as int / 2)
                =~= level_views(before) + levels_from(seed, size as int, chunk as int));
        }
        chunk = chunk / 2;
        left = left - 1;
    }
    proof {
        assert(level_views(levels@) + Seq::<LevelView>::empty() =~= level_views(levels@));
    }
    Ok(Plan { size, roughness_bits: request.roughness_bits, corners, levels })
}

} // verus!
