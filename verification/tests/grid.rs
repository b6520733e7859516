use celleste::grid::{Grid, Neighborhood};

fn snapshot<T: Copy>(grid: &Grid<T>) -> Vec<Vec<T>> {
    (0..grid.height())
        .map(|y| (0..grid.width()).map(|x| grid.get(x, y).unwrap()).collect())
        .collect()
}

#[test]
fn new_grid_is_filled() {
    let grid = Grid::new(4, 3, 7u8);
    assert_eq!(grid.width(), 4);
    assert_eq!(grid.height(), 3);
    assert_eq!(snapshot(&grid), vec![vec![7u8; 4]; 3]);
}

#[test]
fn seeded_grid_has_its_block_around_the_centre() {
    let grid = Grid::seeded(400, 300, 0u8, 1u8, 5);
    assert_eq!(grid.width(), 400);
    assert_eq!(grid.height(), 300);
    for y in 0..300 {
        for x in 0..400 {
            let inside = (195..205).contains(&x) && (145..155).contains(&y);
            assert_eq!(grid.get(x, y), Some(if inside { 1 } else { 0 }));
        }
    }
}

#[test]
fn seeded_grid_that_is_all_block_or_none() {
    assert_eq!(snapshot(&Grid::seeded(10, 10, 0u8, 1u8, 5)), vec![vec![1u8; 10]; 10]);
    assert_eq!(snapshot(&Grid::seeded(3, 5, 0u8, 1u8, 0)), vec![vec![0u8; 3]; 5]);
    assert_eq!(
        snapshot(&Grid::seeded(3, 3, 0u8, 1u8, 1)),
        vec![vec![1, 1, 0], vec![1, 1, 0], vec![0, 0, 0]]
    );
    let empty = Grid::seeded(0, 0, 0u8, 1u8, 0);
    assert_eq!(empty.get(0, 0), None);
}

#[test]
fn get_off_the_grid_is_none() {
    let grid = Grid::new(4, 3, 7u8);
    assert_eq!(grid.get(3, 2), Some(7));
    assert_eq!(grid.get(4, 0), None);
    assert_eq!(grid.get(0, 3), None);
    assert_eq!(grid.get(usize::MAX, usize::MAX), None);
}

#[test]
fn grid_without_cells() {
    let mut empty = Grid::new(0, 0, 1u8);
    assert_eq!(empty.get(0, 0), None);
    empty.seed(0, 0, 3, 2);
    empty.fill_rect(0, 0, 5, 5, 2);
    empty.step(|n: Neighborhood<u8>| n.center + 1);
    assert_eq!(empty.width(), 0);
    assert_eq!(empty.height(), 0);
    let mut no_rows = Grid::new(5, 0, 1u8);
    no_rows.step(|n: Neighborhood<u8>| n.center + 1);
    assert_eq!(no_rows.get(0, 0), None);
    let mut no_columns = Grid::new(0, 5, 1u8);
    no_columns.step(|n: Neighborhood<u8>| n.center + 1);
    assert_eq!(no_columns.get(0, 0), None);
}

#[test]
fn fill_rect_sets_a_half_open_block() {
    let mut grid = Grid::new(5, 4, 0u8);
    grid.fill_rect(1, 1, 3, 4, 9);
    assert_eq!(
        snapshot(&grid),
        vec![
            vec![0, 0, 0, 0, 0],
            vec![0, 9, 9, 0, 0],
            vec![0, 9, 9, 0, 0],
            vec![0, 9, 9, 0, 0],
        ]
    );
}

#[test]
fn fill_rect_is_cut_at_the_grid() {
    let mut grid = Grid::new(3, 3, 0u8);
    grid.fill_rect(2, 1, 100, usize::MAX, 4);
    assert_eq!(snapshot(&grid), vec![vec![0, 0, 0], vec![0, 0, 4], vec![0, 0, 4]]);
    grid.fill_rect(3, 0, 10, 10, 5);
    grid.fill_rect(0, 3, 10, 10, 5);
    grid.fill_rect(2, 2, 2, 2, 5);
    grid.fill_rect(2, 0, 1, 3, 5);
    assert_eq!(snapshot(&grid), vec![vec![0, 0, 0], vec![0, 0, 4], vec![0, 0, 4]]);
}

#[test]
fn seed_sets_a_square_around_the_target() {
    let mut grid = Grid::new(9, 9, 0u8);
    grid.seed(4, 4, 3, 1);
    for y in 0..9 {
        for x in 0..9 {
            let inside = (1..=7).contains(&x) && (1..=7).contains(&y);
            assert_eq!(grid.get(x, y), Some(if inside { 1 } else { 0 }));
        }
    }
}

#[test]
fn seed_with_no_width_sets_the_target_only() {
    let mut grid = Grid::new(3, 3, 0u8);
    grid.seed(1, 2, 0, 8);
    assert_eq!(snapshot(&grid), vec![vec![0, 0, 0], vec![0, 0, 0], vec![0, 8, 0]]);
}

#[test]
fn seed_is_cut_at_the_grid() {
    let mut grid = Grid::new(5, 5, 0u8);
    grid.seed(0, 4, 1, 2);
    assert_eq!(
        snapshot(&grid),
        vec![
            vec![0, 0, 0, 0, 0],
            vec![0, 0, 0, 0, 0],
            vec![0, 0, 0, 0, 0],
            vec![2, 2, 0, 0, 0],
            vec![2, 2, 0, 0, 0],
        ]
    );
    grid.seed(4, 0, usize::MAX, 3);
    assert_eq!(snapshot(&grid), vec![vec![3u8; 5]; 5]);
}

#[test]
fn seed_off_the_grid_changes_nothing() {
    let mut grid = Grid::new(5, 5, 0u8);
    grid.seed(5, 2, 3, 1);
    grid.seed(2, 5, 3, 1);
    grid.seed(7, 7, 100, 1);
    assert_eq!(snapshot(&grid), vec![vec![0u8; 5]; 5]);
}

#[test]
fn step_hands_the_kernel_the_nine_cells() {
    let mut grid = Grid::new(3, 3, 0u32);
    let mut value = 1;
    for y in 0..3 {
        for x in 0..3 {
            grid.fill_rect(x, y, x + 1, y + 1, value);
            value += 1;
        }
    }
    grid.step(|n: Neighborhood<u32>| {
        assert_eq!(
            [
                n.above_left, n.above, n.above_right, n.left, n.center, n.right, n.below_left,
                n.below, n.below_right
            ],
            [1, 2, 3, 4, 5, 6, 7, 8, 9]
        );
        100
    });
    assert_eq!(snapshot(&grid), vec![vec![1, 2, 3], vec![4, 100, 6], vec![7, 8, 9]]);
}

#[test]
fn step_leaves_the_border_as_it_is() {
    let mut grid = Grid::new(4, 4, 1u8);
    grid.seed(0, 0, 0, 5);
    grid.seed(3, 2, 0, 6);
    for _ in 0..3 {
        grid.step(|_: Neighborhood<u8>| 0);
        assert_eq!(
            snapshot(&grid),
            vec![vec![5, 1, 1, 1], vec![1, 0, 0, 1], vec![1, 0, 0, 6], vec![1, 1, 1, 1]]
        );
    }
}

#[test]
fn step_on_a_grid_without_inner_cells_changes_nothing() {
    for (w, h) in [(1, 1), (2, 2), (1, 5), (5, 1), (2, 7), (7, 2)] {
        let mut grid = Grid::new(w, h, 3u8);
        grid.seed(0, 0, 0, 4);
        let before = snapshot(&grid);
        grid.step(|_: Neighborhood<u8>| 9);
        assert_eq!(snapshot(&grid), before);
    }
}

#[test]
fn step_reads_the_cells_as_they_were() {
    let mut grid = Grid::new(6, 3, 0u32);
    grid.seed(0, 1, 0, 1);
    grid.step(|n: Neighborhood<u32>| n.left);
    assert_eq!(snapshot(&grid)[1], vec![1, 1, 0, 0, 0, 0]);
    grid.step(|n: Neighborhood<u32>| n.left);
    assert_eq!(snapshot(&grid)[1], vec![1, 1, 1, 0, 0, 0]);
    let mut down = Grid::new(3, 6, 0u32);
    down.seed(1, 0, 0, 1);
    down.step(|n: Neighborhood<u32>| n.above);
    let column: Vec<u32> = snapshot(&down).iter().map(|row| row[1]).collect();
    assert_eq!(column, vec![1, 1, 0, 0, 0, 0]);
}

#[test]
fn seed_between_steps_is_kept_on_the_border() {
    let mut grid = Grid::new(4, 4, 0u8);
    grid.step(|n: Neighborhood<u8>| n.center);
    grid.seed(0, 0, 1, 7);
    for _ in 0..4 {
        grid.step(|n: Neighborhood<u8>| n.center);
        assert_eq!(grid.get(0, 0), Some(7));
        assert_eq!(grid.get(1, 0), Some(7));
        assert_eq!(grid.get(0, 1), Some(7));
        assert_eq!(grid.get(1, 1), Some(7));
        assert_eq!(grid.get(2, 2), Some(0));
    }
}

#[test]
fn uniform_grid_is_fixed_by_a_kernel_that_fixes_it() {
    let mut grid = Grid::new(6, 5, 10i64);
    let average = |n: Neighborhood<i64>| {
        (n.center + n.above + n.below + n.left + n.right + n.above_left + n.above_right
            + n.below_left + n.below_right)
            / 9
    };
    for _ in 0..3 {
        grid.step(average);
        assert_eq!(snapshot(&grid), vec![vec![10i64; 6]; 5]);
    }
}

#[test]
fn what_the_kernel_keeps_the_grid_keeps() {
    let mut grid = Grid::new(7, 7, 0i64);
    grid.seed(3, 3, 1, 100);
    let clamped = |n: Neighborhood<i64>| (n.center * 3 - n.left - n.right + 17).clamp(0, 100);
    for _ in 0..10 {
        grid.step(clamped);
        for row in snapshot(&grid) {
            for cell in row {
                assert!((0..=100).contains(&cell));
            }
        }
    }
}

#[derive(Clone, Copy, Debug, PartialEq)]
struct Chemicals {
    a: f32,
    b: f32,
    c: f32,
}

struct Rates {
    diff_a: f32,
    diff_b: f32,
    diff_c: f32,
    feed: f32,
    kill: f32,
}

fn laplace(n: &Neighborhood<Chemicals>, f: fn(Chemicals) -> f32) -> f32 {
    let mut sum = 0.0;
    sum += f(n.center) * -1.0;
    sum += f(n.above) * 0.2;
    sum += f(n.below) * 0.2;
    sum += f(n.left) * 0.2;
    sum += f(n.right) * 0.2;
    sum += f(n.above_left) * 0.05;
    sum += f(n.above_right) * 0.05;
    sum += f(n.below_left) * 0.05;
    sum += f(n.below_right) * 0.05;
    sum
}

fn react(n: Neighborhood<Chemicals>, r: &Rates) -> Chemicals {
    let cell = n.center;
    let laplace_a = laplace(&n, |c| c.a);
    let laplace_b = laplace(&n, |c| c.b);
    let laplace_c = laplace(&n, |c| c.c);
    let reaction_ab = cell.a * cell.b * cell.b;
    let reaction_bc = cell.b * cell.c * cell.c;
    let new_a = cell.a + (r.diff_a * laplace_a - reaction_ab + r.feed * (1.0 - cell.a));
    let new_b =
        cell.b + (r.diff_b * laplace_b + reaction_ab - reaction_bc - (r.kill + r.feed) * cell.b);
    let new_c = cell.c + (r.diff_c * laplace_c + reaction_bc - r.kill * cell.c);
    Chemicals { a: new_a.clamp(0.0, 1.0), b: new_b.clamp(0.0, 1.0), c: new_c.clamp(0.0, 1.0) }
}

const DEFAULT_RATES: Rates =
    Rates { diff_a: 1.0, diff_b: 0.5, diff_c: 0.3, feed: 0.055, kill: 0.062 };

#[test]
fn reaction_on_a_uniform_grid_stays_uniform() {
    let rest = Chemicals { a: 1.0, b: 0.0, c: 0.0 };
    let mut grid = Grid::new(12, 9, rest);
    for _ in 0..5 {
        grid.step(|n| react(n, &DEFAULT_RATES));
    }
    for row in snapshot(&grid) {
        for cell in row {
            assert!((cell.a - 1.0).abs() < 1.0e-5);
            assert_eq!(cell.b, 0.0);
            assert_eq!(cell.c, 0.0);
        }
    }
}

#[test]
fn reaction_of_exact_terms_is_a_fixed_point() {
    let rest = Chemicals { a: 1.0, b: 0.0, c: 0.0 };
    let mut grid = Grid::new(8, 8, rest);
    let no_diffusion = Rates { diff_a: 0.0, diff_b: 0.0, diff_c: 0.0, feed: 0.055, kill: 0.062 };
    for _ in 0..5 {
        grid.step(|n| react(n, &no_diffusion));
        assert_eq!(snapshot(&grid), vec![vec![rest; 8]; 8]);
    }
}

#[test]
fn reaction_keeps_every_field_between_zero_and_one() {
    let rest = Chemicals { a: 1.0, b: 0.0, c: 0.0 };
    let seed = Chemicals { a: 0.5, b: 0.25, c: 0.0 };
    for rates in [
        DEFAULT_RATES,
        Rates { diff_a: 0.0, diff_b: 0.0, diff_c: 0.0, feed: 0.0, kill: 0.0 },
        Rates { diff_a: 40.0, diff_b: 25.0, diff_c: 90.0, feed: 7.5, kill: 3.0 },
    ] {
        let mut grid = Grid::new(20, 20, rest);
        grid.fill_rect(5, 5, 15, 15, seed);
        grid.seed(2, 17, 3, Chemicals { a: 0.0, b: 1.0, c: 1.0 });
        for _ in 0..25 {
            grid.step(|n| react(n, &rates));
            for row in snapshot(&grid) {
                for cell in row {
                    assert!((0.0..=1.0).contains(&cell.a));
                    assert!((0.0..=1.0).contains(&cell.b));
                    assert!((0.0..=1.0).contains(&cell.c));
                }
            }
        }
    }
}

#[test]
fn reaction_spreads_from_the_seed() {
    let rest = Chemicals { a: 1.0, b: 0.0, c: 0.0 };
    let seed = Chemicals { a: 0.5, b: 0.25, c: 0.0 };
    let mut grid = Grid::new(9, 9, rest);
    grid.seed(4, 4, 0, seed);
    grid.step(|n| react(n, &DEFAULT_RATES));
    let beside = grid.get(3, 4).unwrap();
    assert!((beside.b - 0.5 * 0.2 * 0.25).abs() < 1.0e-6);
    assert!((beside.a - (1.0 + 0.2 * 0.5 - 0.2)).abs() < 1.0e-6);
    let corner = grid.get(3, 3).unwrap();
    assert!((corner.b - 0.5 * 0.05 * 0.25).abs() < 1.0e-6);
    let far = grid.get(1, 1).unwrap();
    assert_eq!(far.b, 0.0);
    let centre = grid.get(4, 4).unwrap();
    let expected_b = 0.25 + (0.5 * -0.25 + 0.5 * 0.25 * 0.25 - (0.062 + 0.055) * 0.25);
    assert!((centre.b - expected_b).abs() < 1.0e-6);
    assert_eq!(grid.get(0, 0), Some(rest));
}
