use celleste::cell::Cell;
use celleste::cell_set::CellSet;
use celleste::tally::Tally;

fn sorted(mut cells: Vec<Cell>) -> Vec<(i32, i32)> {
    let mut v: Vec<(i32, i32)> = cells.drain(..).map(|c| (c.0, c.1)).collect();
    v.sort();
    v
}

#[test]
fn new_set_is_empty() {
    let set = CellSet::new();
    assert!(set.cells().is_empty());
    assert!(!set.contains(Cell(0, 0)));
    assert!(set.can_step());
}

#[test]
fn insert_and_remove_report_the_change() {
    let mut set = CellSet::new();
    assert!(set.insert(Cell(3, -4)));
    assert!(!set.insert(Cell(3, -4)));
    assert!(set.contains(Cell(3, -4)));
    assert!(!set.contains(Cell(-4, 3)));
    assert!(!set.contains(Cell(3, 4)));
    assert!(set.remove(Cell(3, -4)));
    assert!(!set.remove(Cell(3, -4)));
    assert!(!set.contains(Cell(3, -4)));
}

#[test]
fn toggle_flips_membership() {
    let mut set = CellSet::new();
    set.toggle(Cell(7, 9));
    assert!(set.contains(Cell(7, 9)));
    set.toggle(Cell(7, 9));
    assert!(!set.contains(Cell(7, 9)));
}

#[test]
fn toggling_twice_restores_the_set() {
    let start = vec![Cell(50, 50), Cell(51, 50), Cell(52, 50), Cell(52, 51), Cell(51, 52)];
    for target in [Cell(50, 50), Cell(0, 0), Cell(52, 51), Cell(-1, i32::MAX)] {
        let mut set = CellSet::from_cells(&start);
        set.toggle(target);
        assert_ne!(sorted(set.cells()), sorted(start.clone()));
        set.toggle(target);
        assert_eq!(sorted(set.cells()), sorted(start.clone()));
    }
}

#[test]
fn from_cells_keeps_each_cell_once() {
    let set = CellSet::from_cells(&vec![Cell(1, 2), Cell(3, 4), Cell(1, 2), Cell(1, 2)]);
    assert_eq!(sorted(set.cells()), vec![(1, 2), (3, 4)]);
}

#[test]
fn cells_lists_every_live_cell_once() {
    let mut set = CellSet::new();
    for x in -5..5 {
        for y in -5..5 {
            set.insert(Cell(x, y));
        }
    }
    let listed = sorted(set.cells());
    assert_eq!(listed.len(), 100);
    let mut expected = Vec::new();
    for x in -5..5 {
        for y in -5..5 {
            expected.push((x, y));
        }
    }
    expected.sort();
    assert_eq!(listed, expected);
}

#[test]
fn cells_at_the_ends_of_the_lattice_are_told_apart() {
    let corners = vec![
        Cell(i32::MIN, i32::MIN),
        Cell(i32::MIN, i32::MAX),
        Cell(i32::MAX, i32::MIN),
        Cell(i32::MAX, i32::MAX),
        Cell(0, 0),
        Cell(-1, -1),
        Cell(0, -1),
        Cell(-1, 0),
        Cell(1, 0),
        Cell(0, 1),
    ];
    let mut set = CellSet::new();
    for (i, &c) in corners.iter().enumerate() {
        for &later in &corners[i..] {
            assert!(!set.contains(later));
        }
        assert!(set.insert(c));
        assert!(set.contains(c));
    }
    let mut expected: Vec<(i32, i32)> = corners.iter().map(|c| (c.0, c.1)).collect();
    expected.sort();
    assert_eq!(sorted(set.cells()), expected);
}

#[test]
fn a_set_with_a_cell_on_the_edge_cannot_step() {
    let inside = CellSet::from_cells(&vec![Cell(i32::MIN + 1, i32::MAX - 1), Cell(0, 0)]);
    assert!(inside.can_step());
    for edge in [
        Cell(i32::MIN, 0),
        Cell(i32::MAX, 0),
        Cell(0, i32::MIN),
        Cell(0, i32::MAX),
    ] {
        let set = CellSet::from_cells(&vec![Cell(0, 0), edge]);
        assert!(!set.can_step());
    }
}

#[test]
fn tally_counts_each_cell() {
    let mut tally = Tally::new();
    assert_eq!(tally.get(Cell(1, 1)), 0);
    assert!(tally.entries().is_empty());
    tally.count(Cell(1, 1));
    tally.count(Cell(1, 1));
    tally.count(Cell(-2, 5));
    tally.count(Cell(1, 1));
    assert_eq!(tally.get(Cell(1, 1)), 3);
    assert_eq!(tally.get(Cell(-2, 5)), 1);
    assert_eq!(tally.get(Cell(5, -2)), 0);
    let mut entries: Vec<((i32, i32), usize)> =
        tally.entries().iter().map(|(c, n)| ((c.0, c.1), *n)).collect();
    entries.sort();
    assert_eq!(entries, vec![((-2, 5), 1), ((1, 1), 3)]);
}
