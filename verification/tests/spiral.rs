use scz::{Direction, SpiralIterator};
use std::collections::HashSet;

fn first_points(count: u32) -> Vec<(u32, i32, i32)> {
    let mut it = SpiralIterator::default();
    it.take_points(count)
}

#[test]
fn spiral_starts_east_and_turns_counter_clockwise() {
    let pts = first_points(10);
    assert_eq!(
        pts,
        vec![
            (1, 0, 0),
            (2, 1, 0),
            (3, 1, 1),
            (4, 0, 1),
            (5, -1, 1),
            (6, -1, 0),
            (7, -1, -1),
            (8, 0, -1),
            (9, 1, -1),
            (10, 2, -1),
        ]
    );
}

#[test]
fn spiral_next_counts_up_from_one() {
    let mut it = SpiralIterator::default();
    for expected in 1..=1000u32 {
        let (v, _, _) = it.next().unwrap();
        assert_eq!(v, expected);
    }
}

#[test]
fn spiral_take_points_matches_next() {
    let mut a = SpiralIterator::default();
    let mut b = SpiralIterator::default();
    let taken = a.take_points(500);
    for p in taken {
        assert_eq!(Some(p), b.next());
    }
    assert_eq!(a.next(), b.next());
}

#[test]
fn spiral_take_points_advances_the_walk() {
    let mut it = SpiralIterator::default();
    let first = it.take_points(5);
    assert_eq!(first.len(), 5);
    assert_eq!(it.next(), Some((6, -1, 0)));
    assert_eq!(it.take_points(0), vec![]);
    assert_eq!(it.next(), Some((7, -1, -1)));
}

#[test]
fn spiral_consecutive_numbers_are_neighbours() {
    let pts = first_points(20_000);
    for w in pts.windows(2) {
        let (_, x1, y1) = w[0];
        let (_, x2, y2) = w[1];
        assert_eq!((x1 - x2).abs() + (y1 - y2).abs(), 1);
    }
}

#[test]
fn spiral_never_visits_a_cell_twice() {
    let pts = first_points(40_000);
    let cells: HashSet<(i32, i32)> = pts.iter().map(|&(_, x, y)| (x, y)).collect();
    assert_eq!(cells.len(), pts.len());
}

#[test]
fn spiral_grid_of_361_fills_the_19_by_19_square() {
    let pts = first_points(361);
    let cells: HashSet<(i32, i32)> = pts.iter().map(|&(_, x, y)| (x, y)).collect();
    assert_eq!(cells.len(), 361);
    for x in -9..=9 {
        for y in -9..=9 {
            assert!(cells.contains(&(x, y)));
        }
    }
    let next = SpiralIterator::default().take_points(362)[361];
    assert_eq!(next, (362, 10, -9));
}

#[test]
fn spiral_squares_fill_squares() {
    let pts = first_points(2_500);
    for k in 0..24i32 {
        let n = ((2 * k + 1) * (2 * k + 1)) as usize;
        for &(v, x, y) in &pts {
            let inside = x.abs() <= k && y.abs() <= k;
            assert_eq!((v as usize) <= n, inside, "k = {}, v = {}", k, v);
        }
    }
}

#[test]
fn spiral_odd_squares_on_south_east_diagonal() {
    let pts = first_points(2_500);
    for k in 0..25i32 {
        let v = (2 * k + 1) * (2 * k + 1);
        assert_eq!(pts[(v - 1) as usize], (v as u32, k, -k));
    }
}

#[test]
fn spiral_even_squares_on_north_west_diagonal() {
    let pts = first_points(2_500);
    for k in 1..25i32 {
        let v = (2 * k) * (2 * k);
        assert_eq!(pts[(v - 1) as usize], (v as u32, 1 - k, k));
    }
}

#[test]
fn spiral_default_starts_at_one() {
    let mut it = SpiralIterator::default();
    assert_eq!(it.next(), Some((1, 0, 0)));
}

#[test]
fn direction_is_copy_and_comparable() {
    let d = Direction::Right;
    let e = d;
    assert_eq!(d, e);
    assert_ne!(Direction::Up, Direction::Down);
    assert_ne!(Direction::Left, Direction::Right);
}

#[test]
fn spiral_runs_have_lengths_one_one_two_two() {
    let pts = first_points(10_000);
    let steps: Vec<(i32, i32)> = pts
        .windows(2)
        .map(|w| (w[1].1 - w[0].1, w[1].2 - w[0].2))
        .collect();
    let mut runs: Vec<((i32, i32), usize)> = Vec::new();
    for s in steps {
        match runs.last_mut() {
            Some((d, n)) if *d == s => *n += 1,
            _ => runs.push((s, 1)),
        }
    }
    let headings = [(1, 0), (0, 1), (-1, 0), (0, -1)];
    // the last run may be cut short by the end of the sample
    for (idx, (d, n)) in runs.iter().enumerate().take(runs.len() - 1) {
        let j = idx + 1;
        assert_eq!(*n, (j + 1) / 2, "run {}", j);
        assert_eq!(*d, headings[idx % 4], "run {}", j);
    }
}

#[test]
fn spiral_value_reports_the_next_number() {
    let mut it = SpiralIterator::default();
    assert_eq!(it.value(), 1);
    it.take_points(41);
    assert_eq!(it.value(), 42);
    assert_eq!(it.next().map(|p| p.0), Some(42));
    assert_eq!(it.value(), 43);
}
