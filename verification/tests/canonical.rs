use polyomino::coords::Coord;
use polyomino::shapes::Polyomino;
use polyomino::symmetry::PolyominoSymmetryGroup;

fn shape(cells: &[(i32, i32)]) -> Polyomino {
    let mut v: Vec<Coord> = Vec::new();
    for &(x, y) in cells {
        v.push(Coord(x, y));
    }
    Polyomino(v)
}

#[test]
fn coord_rotate_quarter_turn() {
    assert_eq!(Coord(3, 5).rotate(), Coord(-5, 3));
    assert_eq!(Coord(0, 0).rotate(), Coord(0, 0));
    assert_eq!(Coord(-2, 7).rotate(), Coord(-7, -2));
}

#[test]
fn coord_transpose_swaps_axes() {
    assert_eq!(Coord(3, 5).transpose(), Coord(5, 3));
    assert_eq!(Coord(-1, 4).transpose(), Coord(4, -1));
}

#[test]
fn canonize_fixed_normalizes_to_origin() {
    let p = shape(&[(2, 3), (1, 1)]);
    let c = p.canonize_fixed();
    assert_eq!(c, shape(&[(0, 0), (1, 2)]));
}

#[test]
fn canonize_fixed_sorts_cells() {
    let p = shape(&[(1, 1), (0, 1), (0, 0), (1, 0)]);
    let c = p.canonize_fixed();
    assert_eq!(c, shape(&[(0, 0), (0, 1), (1, 0), (1, 1)]));
}

#[test]
fn canonize_fixed_idempotent() {
    let p = shape(&[(5, -2), (4, -2), (4, -3)]);
    let once = p.canonize_fixed();
    let twice = once.canonize_fixed();
    assert_eq!(once, twice);
}

#[test]
fn canonize_fixed_handles_negative_coordinates() {
    let p = shape(&[(-3, -7), (-2, -7)]);
    let c = p.canonize_fixed();
    assert_eq!(c, shape(&[(0, 0), (1, 0)]));
}

#[test]
fn rotation_four_times_returns_canonical_form() {
    let p = shape(&[(0, 0), (0, 1), (1, 0)]).canonize_fixed();
    let back = p.rotate().rotate().rotate().rotate();
    assert_eq!(back, p);
}

#[test]
fn congruent_shapes_share_free_canonical_form() {
    let l = shape(&[(0, 0), (0, 1), (1, 0)]);
    let (f0, g0) = l.canonize_free();
    let (f1, g1) = l.rotate().canonize_free();
    let (f2, g2) = l.transpose().canonize_free();
    assert_eq!(f0, f1);
    assert_eq!(f0, f2);
    assert_eq!(g0, g1);
    assert_eq!(g0, g2);
}

#[test]
fn domino_class() {
    let d = shape(&[(0, 0), (1, 0)]);
    let (f, g) = d.canonize_free();
    assert_eq!(f, shape(&[(0, 0), (0, 1)]));
    assert_eq!(g, PolyominoSymmetryGroup::Rotation2FoldMirror90);
}

#[test]
fn straight_tromino_class() {
    let t = shape(&[(0, 0), (1, 0), (2, 0)]);
    let (f, g) = t.canonize_free();
    assert_eq!(f, shape(&[(0, 0), (0, 1), (0, 2)]));
    assert_eq!(g, PolyominoSymmetryGroup::Rotation2FoldMirror90);
}

#[test]
fn l_tromino_class() {
    let t = shape(&[(0, 0), (0, 1), (1, 0)]);
    let (f, g) = t.canonize_free();
    assert_eq!(f, shape(&[(0, 0), (0, 1), (1, 0)]));
    assert_eq!(g, PolyominoSymmetryGroup::Mirror45);
}

#[test]
fn square_tetromino_is_fully_symmetric() {
    let s = shape(&[(0, 0), (0, 1), (1, 0), (1, 1)]);
    let (_, g) = s.canonize_free();
    assert_eq!(g, PolyominoSymmetryGroup::All);
}

#[test]
fn s_tetromino_has_two_fold_rotation() {
    let s = shape(&[(0, 0), (0, 1), (1, 1), (1, 2)]);
    let (_, g) = s.canonize_free();
    assert_eq!(g, PolyominoSymmetryGroup::Rotation2Fold);
}

#[test]
fn symmetry_class_names() {
    assert_eq!(PolyominoSymmetryGroup::NoSymmetry.name(), "None");
    assert_eq!(PolyominoSymmetryGroup::Mirror90.name(), "Mirror90");
    assert_eq!(PolyominoSymmetryGroup::Mirror45.name(), "Mirror45");
    assert_eq!(PolyominoSymmetryGroup::Rotation2Fold.name(), "Rotation2Fold");
    assert_eq!(PolyominoSymmetryGroup::Rotation2FoldMirror90.name(), "Rotation2FoldMirror90");
    assert_eq!(PolyominoSymmetryGroup::Rotation2FoldMirror45.name(), "Rotation2FoldMirror45");
    assert_eq!(PolyominoSymmetryGroup::Rotation4Fold.name(), "Rotation4Fold");
    assert_eq!(PolyominoSymmetryGroup::All.name(), "All");
}
