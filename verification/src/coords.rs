use vstd::prelude::*;

verus! {

/// A cell of the integer grid, identified by its position: x, then y.
#[derive(Clone, Copy, PartialEq, Eq, Structural, Debug)]
pub struct Coord(pub i32, pub i32);

impl View for Coord {
    type V = (int, int);

    open spec fn view(&self) -> (int, int) {
        (self.0 as int, self.1 as int)
    }
}

/// Quarter rotation about the origin: (x, y) goes to (-y, x).
pub open spec fn rotate_pt(c: (int, int)) -> (int, int) {
    (-c.1, c.0)
}

/// Reflection across the main diagonal: (x, y) goes to (y, x).
pub open spec fn transpose_pt(c: (int, int)) -> (int, int) {
    (c.1, c.0)
}

/// Lexicographic order on grid points: by x, then by y.
pub open spec fn lex_leq(a: (int, int), b: (int, int)) -> bool {
    a.0 < b.0 || (a.0 == b.0 && a.1 <= b.1)
}

/// Strict lexicographic order on grid points.
pub open spec fn lex_lt(a: (int, int), b: (int, int)) -> bool {
    a.0 < b.0 || (a.0 == b.0 && a.1 < b.1)
}

/// The lexicographic order as a function value, for vstd's ordering lemmas.
pub open spec fn lex_leq_fn() -> spec_fn((int, int), (int, int)) -> bool {
    |a: (int, int), b: (int, int)| lex_leq(a, b)
}

/// The lexicographic order on grid points is a total order.
pub proof fn lemma_lex_leq_total_ordering()
    ensures
        vstd::relations::total_ordering(lex_leq_fn()),
{
    assert forall|a: (int, int)| #[trigger] lex_leq_fn()(a, a) by {}
    assert forall|a: (int, int), b: (int, int)|
        #[trigger] lex_leq_fn()(a, b) && #[trigger] lex_leq_fn()(b, a) implies a == b by {}
    assert forall|a: (int, int), b: (int, int), c: (int, int)|
        #[trigger] lex_leq_fn()(a, b) && #[trigger] lex_leq_fn()(b, c) implies lex_leq_fn()(
        a,
        c,
    ) by {}
    assert forall|a: (int, int), b: (int, int)|
        #[trigger] lex_leq_fn()(a, b) || #[trigger] lex_leq_fn()(b, a) by {}
}

impl Coord {
    /// 90-degree rotation about the origin.
    pub fn rotate(self) -> (r: Coord)
        requires
            self.1 > i32::MIN,
        ensures
            r@ == rotate_pt(self@),
    {
        let Coord(x, y) = self;
        Coord(-y, x)
    }

    /// Reflection across the main diagonal.
    pub fn transpose(self) -> (r: Coord)
        ensures
            r@ == transpose_pt(self@),
    {
        let Coord(x, y) = self;
        Coord(y, x)
    }
}

/// Executable comparison realizing `lex_leq`.
pub fn coord_leq(a: Coord, b: Coord) -> (r: bool)
    ensures
        r == lex_leq(a@, b@),
{
    a.0 < b.0 || (a.0 == b.0 && a.1 <= b.1)
}

/// Executable comparison realizing `lex_lt`.
pub fn coord_lt(a: Coord, b: Coord) -> (r: bool)
    ensures
        r == lex_lt(a@, b@),
{
    a.0 < b.0 || (a.0 == b.0 && a.1 < b.1)
}

} // verus!
