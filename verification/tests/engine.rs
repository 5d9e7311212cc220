use polyomino::coords::Coord;
use polyomino::shapes::Polyomino;
use polyomino::symmetry::PolyominoSymmetryGroup;
use polyomino::growth::{initial_generation, next_generation, generation_keys, fits_growth};

fn shape(cells: &[(i32, i32)]) -> Polyomino {
    let mut v: Vec<Coord> = Vec::new();
    for &(x, y) in cells {
        v.push(Coord(x, y));
    }
    Polyomino(v)
}

#[test]
fn initial_generation_is_single_cell() {
    let g = initial_generation();
    assert_eq!(g.len(), 1);
    assert_eq!(g[0], shape(&[(0, 0)]));
}

#[test]
fn generation_two_is_the_domino() {
    let prev = initial_generation();
    let g = next_generation(&prev);
    assert_eq!(g.len(), 1);
    assert_eq!(g[0].0, shape(&[(0, 0), (0, 1)]));
    assert_eq!(g[0].1, PolyominoSymmetryGroup::Rotation2FoldMirror90);
}

#[test]
fn generation_three_has_both_trominoes() {
    let prev = generation_keys(&next_generation(&initial_generation()));
    let g = next_generation(&prev);
    assert_eq!(g.len(), 2);
    assert_eq!(g[0].0, shape(&[(0, 0), (0, 1), (0, 2)]));
    assert_eq!(g[0].1, PolyominoSymmetryGroup::Rotation2FoldMirror90);
    assert_eq!(g[1].0, shape(&[(0, 0), (0, 1), (1, 0)]));
    assert_eq!(g[1].1, PolyominoSymmetryGroup::Mirror45);
}

#[test]
fn free_polyomino_counts_up_to_six() {
    let expected: [usize; 6] = [1, 1, 2, 5, 12, 35];
    let mut prev = initial_generation();
    assert_eq!(prev.len(), expected[0]);
    for n in 1..6 {
        let g = next_generation(&prev);
        assert_eq!(g.len(), expected[n], "count of free polyominoes of size {}", n + 1);
        prev = generation_keys(&g);
    }
}

#[test]
fn growth_engine_is_deterministic() {
    let prev = generation_keys(&next_generation(&initial_generation()));
    let a = next_generation(&prev);
    let b = next_generation(&prev);
    assert_eq!(a.len(), b.len());
    for i in 0..a.len() {
        assert_eq!(a[i].0, b[i].0);
        assert_eq!(a[i].1, b[i].1);
    }
}

#[test]
fn generation_keys_are_strictly_ascending() {
    let mut prev = initial_generation();
    for _ in 0..4 {
        let g = next_generation(&prev);
        prev = generation_keys(&g);
    }
    for i in 1..prev.len() {
        assert!(prev[i - 1] != prev[i]);
    }
}

#[test]
fn fits_growth_accepts_small_shapes() {
    assert!(fits_growth(&shape(&[(0, 0), (0, 1), (1, 0)])));
    assert!(fits_growth(&shape(&[(-5, 7), (1000, -1000)])));
}

#[test]
fn fits_growth_rejects_extreme_shapes() {
    assert!(!fits_growth(&shape(&[(i32::MAX, 0)])));
    assert!(!fits_growth(&shape(&[(0, i32::MIN)])));
}
