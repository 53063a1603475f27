use diamond_square::color::{pixel_buffer, Sample};
use diamond_square::grid::{Cell, Grid};
use diamond_square::hasher::hash;
use diamond_square::plan::{plan, Plan};
use diamond_square::refine::{DiamondStep, SquareStep};
use diamond_square::request::{GenError, TileRequest};

fn request(position: (i32, i32), seed: i64, roughness: f32, image_size: u32) -> TileRequest {
    TileRequest { position, seed, roughness_bits: roughness.to_bits(), image_size }
}

fn fraction(numerator: u8) -> f32 {
    numerator as f32 / 255.0
}

fn jitter(numerator: u8, roughness: f32) -> f32 {
    (fraction(numerator) * 2.0 - 1.0) * roughness
}

fn square_pass(grid: &mut Grid<f32>, steps: &[SquareStep], roughness: f32) {
    for step in steps {
        let read = |c: Cell| grid.get(c).unwrap();
        let mean = (read(step.top_left)
            + read(step.top_right)
            + read(step.bottom_left)
            + read(step.bottom_right))
            / 4.0;
        let origin = read(step.top_left);
        grid.set(step.center, mean);
        grid.set(step.top_left, origin + jitter(step.jitter, roughness));
    }
}

fn diamond_pass(grid: &mut Grid<f32>, steps: &[DiamondStep], roughness: f32) {
    for step in steps {
        let mut count = 0;
        let mut sum = 0.0f32;
        for source in [step.low_x, step.low_y, step.high_x, step.high_y].into_iter().flatten() {
            count += 1;
            sum += grid.get(source).unwrap();
        }
        grid.set(step.target, sum / count as f32 + jitter(step.jitter, roughness));
    }
}

fn seeded(plan: &Plan) -> Grid<f32> {
    let mut grid = Grid::new(plan.size, 0.0f32);
    for corner in &plan.corners {
        grid.set(corner.cell, fraction(corner.numerator));
    }
    grid
}

fn heights(request: &TileRequest) -> Result<Grid<f32>, GenError> {
    let plan = plan(request)?;
    let mut grid = seeded(&plan);
    let mut roughness = f32::from_bits(plan.roughness_bits);
    for level in &plan.levels {
        square_pass(&mut grid, &level.squares, roughness);
        diamond_pass(&mut grid, &level.diamonds, roughness);
        roughness /= 2.0;
    }
    Ok(grid)
}

fn shade(elevation: f32) -> Sample {
    let p = 1.0 / (1.0 + std::f32::consts::E.powf(-elevation));
    Sample { fraction_bits: p.to_bits(), scaled: (p * 255.0).round() as i32 }
}

fn render(request: &TileRequest) -> Result<Vec<u8>, GenError> {
    let grid = heights(request)?;
    let samples: Vec<Sample> = grid.cells().iter().map(|&f| shade(f)).collect();
    Ok(pixel_buffer(&Grid::from_cells(grid.size(), samples).unwrap()))
}

#[test]
fn worked_example_elevations() {
    let grid = heights(&request((0, 0), 0, 2.0, 3)).unwrap();
    let c00 = 36.0f32 / 255.0;
    let c02 = 84.0f32 / 255.0;
    let c20 = 175.0f32 / 255.0;
    let c22 = 81.0f32 / 255.0;
    let center = (c00 + c20 + c02 + c22) / 4.0;
    let origin = c00 + (36.0f32 / 255.0 * 2.0 - 1.0) * 2.0;
    let expected = [
        origin,
        (origin + center + c02) / 3.0 + (84.0f32 / 255.0 * 2.0 - 1.0) * 2.0,
        c02,
        (origin + c20 + center) / 3.0 + (175.0f32 / 255.0 * 2.0 - 1.0) * 2.0,
        center,
        (c02 + center + c22) / 3.0 + (97.0f32 / 255.0 * 2.0 - 1.0) * 2.0,
        c20,
        (center + c20 + c22) / 3.0 + (5.0f32 / 255.0 * 2.0 - 1.0) * 2.0,
        c22,
    ];
    let got: Vec<u32> = grid.cells().iter().map(|f| f.to_bits()).collect();
    let want: Vec<u32> = expected.iter().map(|f| f.to_bits()).collect();
    assert_eq!(got, want);
}

#[test]
fn after_the_first_square_pass_only_the_origin_has_moved() {
    let size = 17u32;
    let last = size - 1;
    let plan = plan(&request((2, 5), 8, 4.0, size)).unwrap();
    let mut grid = seeded(&plan);
    let at = |grid: &Grid<f32>, x: u32, y: u32| grid.get(Cell { x, y }).unwrap();
    let seeds = [at(&grid, 0, 0), at(&grid, 0, last), at(&grid, last, 0), at(&grid, last, last)];
    assert_eq!(seeds[0], hash(8, 2, 5) as f32 / 255.0);
    assert_eq!(seeds[1], hash(8, 2, 6) as f32 / 255.0);
    assert_eq!(seeds[2], hash(8, 3, 5) as f32 / 255.0);
    assert_eq!(seeds[3], hash(8, 3, 6) as f32 / 255.0);

    square_pass(&mut grid, &plan.levels[0].squares, 4.0);

    let term = (hash(8, 0, 0) as f32 / 255.0 * 2.0 - 1.0) * 4.0;
    assert_eq!(at(&grid, 0, 0), seeds[0] + term);
    assert_eq!(at(&grid, 0, last), seeds[1]);
    assert_eq!(at(&grid, last, 0), seeds[2]);
    assert_eq!(at(&grid, last, last), seeds[3]);
    assert_eq!(at(&grid, last / 2, last / 2), (seeds[0] + seeds[2] + seeds[1] + seeds[3]) / 4.0);
    let written = grid.cells().iter().filter(|&&f| f != 0.0).count();
    assert_eq!(written, 5);
}

#[test]
fn roughness_halves_from_level_to_level() {
    let r = request((0, 0), 5, 3.0, 5);
    let plan = plan(&r).unwrap();
    let mut grid = seeded(&plan);
    square_pass(&mut grid, &plan.levels[0].squares, 3.0);
    diamond_pass(&mut grid, &plan.levels[0].diamonds, 3.0);
    square_pass(&mut grid, &plan.levels[1].squares, 1.5);
    diamond_pass(&mut grid, &plan.levels[1].diamonds, 1.5);
    let whole = heights(&r).unwrap();
    let got: Vec<u32> = whole.cells().iter().map(|f| f.to_bits()).collect();
    let want: Vec<u32> = grid.cells().iter().map(|f| f.to_bits()).collect();
    assert_eq!(got, want);
}

#[test]
fn determinism() {
    for (position, seed, roughness, size) in
        [((0, 0), 0i64, 2.0f32, 33u32), ((5, -2), 1234, 1.0, 65), ((-9, 9), -77, 6.0, 17)]
    {
        let r = request(position, seed, roughness, size);
        let first = render(&r).unwrap();
        let second = render(&r).unwrap();
        assert_eq!(first, second);
    }
}

#[test]
fn size_validation() {
    assert_eq!(render(&request((0, 0), 0, 2.0, 6)), Err(GenError::InvalidSize));
    assert_eq!(render(&request((0, 0), 0, 2.0, 256)), Err(GenError::InvalidSize));
    let bytes = render(&request((0, 0), 0, 2.0, 257)).unwrap();
    assert_eq!(bytes.len(), 257 * 257 * 4);
}

#[test]
fn a_size_of_five_is_rendered() {
    let bytes = render(&request((0, 0), 0, 2.0, 5)).unwrap();
    assert_eq!(bytes.len(), 5 * 5 * 4);
}

#[test]
fn rendered_length_is_four_bytes_a_cell() {
    for k in 0u32..=7 {
        let size = (1u32 << k) + 1;
        let bytes = render(&request((1, 2), 3, 2.0, size)).unwrap();
        assert_eq!(bytes.len(), (size * size * 4) as usize);
    }
}

#[test]
fn every_pixel_is_opaque_and_follows_one_band_rule() {
    let bytes = render(&request((0, 0), 42, 3.0, 65)).unwrap();
    for px in bytes.chunks(4) {
        let (r, g, b, a) = (px[0], px[1], px[2], px[3]);
        assert_eq!(a, 255);
        let deep = r == 0 && g == 0;
        let mid = r == 0 && b == 0;
        let grey = r == g && g == b;
        assert!(deep || mid || grey);
    }
}

#[test]
fn worked_example_pixels() {
    let r = request((0, 0), 0, 2.0, 3);
    let grid = heights(&r).unwrap();
    let bytes = render(&r).unwrap();
    assert_eq!(bytes.len(), 36);
    for (i, &f) in grid.cells().iter().enumerate() {
        let p = 1.0f32 / (1.0 + std::f32::consts::E.powf(-f));
        let value = (p * 255.0).round().clamp(0.0, 255.0) as u8;
        let expected = if p < 0.20 {
            [0, 0, value, 255]
        } else if p < 0.65 {
            [0, value, 0, 255]
        } else if p < 0.90 {
            [value / 2, value / 2, value / 2, 255]
        } else {
            [value, value, value, 255]
        };
        assert_eq!(&bytes[4 * i..4 * i + 4], &expected);
    }
}
