use diamond_square::grid::Cell;
use diamond_square::hasher::hash;
use diamond_square::refine::{diamond_pass, square_pass, DiamondStep, SquareStep};

fn cell(x: u32, y: u32) -> Cell {
    Cell { x, y }
}

fn neighbors(step: &DiamondStep) -> Vec<Cell> {
    [step.low_x, step.low_y, step.high_x, step.high_y].into_iter().flatten().collect()
}

#[test]
fn square_pass_over_one_chunk() {
    let steps = square_pass(11, 5, 4);
    assert_eq!(
        steps,
        vec![SquareStep {
            top_left: cell(0, 0),
            top_right: cell(4, 0),
            bottom_left: cell(0, 4),
            bottom_right: cell(4, 4),
            center: cell(2, 2),
            jitter: hash(11, 0, 0),
        }]
    );
}

#[test]
fn square_pass_walks_x_within_y() {
    let steps = square_pass(3, 5, 2);
    let origins: Vec<Cell> = steps.iter().map(|s| s.top_left).collect();
    assert_eq!(origins, vec![cell(0, 0), cell(2, 0), cell(0, 2), cell(2, 2)]);
    let centers: Vec<Cell> = steps.iter().map(|s| s.center).collect();
    assert_eq!(centers, vec![cell(1, 1), cell(3, 1), cell(1, 3), cell(3, 3)]);
    for step in &steps {
        let Cell { x, y } = step.top_left;
        assert_eq!(step.top_right, cell(x + 2, y));
        assert_eq!(step.bottom_left, cell(x, y + 2));
        assert_eq!(step.bottom_right, cell(x + 2, y + 2));
        assert_eq!(step.jitter, hash(3, x as i32, y as i32));
    }
}

#[test]
fn diamond_pass_at_the_coarsest_level() {
    let steps = diamond_pass(0, 5, 4);
    let targets: Vec<Cell> = steps.iter().map(|s| s.target).collect();
    assert_eq!(targets, vec![cell(2, 0), cell(0, 2), cell(4, 2), cell(2, 4)]);
    assert_eq!(
        steps[0],
        DiamondStep {
            target: cell(2, 0),
            low_x: Some(cell(0, 0)),
            low_y: None,
            high_x: Some(cell(4, 0)),
            high_y: Some(cell(2, 2)),
            jitter: hash(0, 2, 0),
        }
    );
    assert_eq!(neighbors(&steps[1]), vec![cell(0, 0), cell(2, 2), cell(0, 4)]);
    assert_eq!(neighbors(&steps[2]), vec![cell(2, 2), cell(4, 0), cell(4, 4)]);
    assert_eq!(neighbors(&steps[3]), vec![cell(0, 4), cell(2, 2), cell(4, 4)]);
}

#[test]
fn diamond_pass_alternates_the_start_of_its_rows() {
    let steps = diamond_pass(0, 5, 2);
    let targets: Vec<(u32, u32)> = steps.iter().map(|s| (s.target.x, s.target.y)).collect();
    assert_eq!(
        targets,
        vec![
            (1, 0), (3, 0),
            (0, 1), (2, 1), (4, 1),
            (1, 2), (3, 2),
            (0, 3), (2, 3), (4, 3),
            (1, 4), (3, 4),
        ]
    );
}

#[test]
fn a_neighbour_is_used_exactly_when_it_lies_in_the_grid() {
    for (size, chunk) in [(3u32, 2u32), (5, 4), (5, 2), (9, 8), (9, 4), (9, 2), (17, 2), (33, 8)] {
        let half = (chunk / 2) as i64;
        for step in diamond_pass(5, size, chunk) {
            let (x, y) = (step.target.x as i64, step.target.y as i64);
            let expect = |nx: i64, ny: i64| {
                if 0 <= nx && nx < size as i64 && 0 <= ny && ny < size as i64 {
                    Some(cell(nx as u32, ny as u32))
                } else {
                    None
                }
            };
            assert_eq!(step.low_x, expect(x - half, y));
            assert_eq!(step.low_y, expect(x, y - half));
            assert_eq!(step.high_x, expect(x + half, y));
            assert_eq!(step.high_y, expect(x, y + half));
            assert_eq!(step.jitter, hash(5, x as i32, y as i32));
            let on_edge = x == 0 || y == 0 || x == size as i64 - 1 || y == size as i64 - 1;
            assert_eq!(neighbors(&step).len(), if on_edge { 3 } else { 4 });
        }
    }
}

#[test]
fn pass_lengths() {
    for (size, chunk) in [(3u32, 2u32), (5, 4), (5, 2), (9, 2), (17, 4), (65, 2), (129, 16)] {
        let q = ((size - 1) / chunk) as usize;
        assert_eq!(square_pass(1, size, chunk).len(), q * q);
        assert_eq!(diamond_pass(1, size, chunk).len(), 2 * q * (q + 1));
    }
}

#[test]
fn the_jitter_of_a_pass_ignores_where_the_tile_lies() {
    let steps = square_pass(8, 9, 4);
    for step in steps {
        assert_eq!(step.jitter, hash(8, step.top_left.x as i32, step.top_left.y as i32));
    }
}
