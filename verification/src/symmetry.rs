use vstd::prelude::*;
use crate::coords::{Coord, lex_lt, coord_lt, rotate_pt, transpose_pt};
use crate::shapes::{Polyomino, pts, fixed_canon, rotate_pts, transpose_pts, span_ok, neg_ok,
    lemma_pts_injective};

verus! {

/// The subgroup of the square's eight symmetries that maps a shape's fixed
/// canonical form onto itself.
#[derive(Clone, Copy, PartialEq, Eq, Structural, Debug)]
pub enum PolyominoSymmetryGroup {
    NoSymmetry,
    Mirror90,
    Mirror45,
    Rotation2Fold,
    Rotation2FoldMirror90,
    Rotation2FoldMirror45,
    Rotation4Fold,
    All,
}

impl PolyominoSymmetryGroup {
    /// The class's name, as written to the listing of a generation.
    pub fn name(&self) -> (r: &'static str)
        ensures
            r@ == symmetry_name(*self),
    {
        match self {
            PolyominoSymmetryGroup::NoSymmetry => "None",
            PolyominoSymmetryGroup::Mirror90 => "Mirror90",
            PolyominoSymmetryGroup::Mirror45 => "Mirror45",
            PolyominoSymmetryGroup::Rotation2Fold => "Rotation2Fold",
            PolyominoSymmetryGroup::Rotation2FoldMirror90 => "Rotation2FoldMirror90",
            PolyominoSymmetryGroup::Rotation2FoldMirror45 => "Rotation2FoldMirror45",
            PolyominoSymmetryGroup::Rotation4Fold => "Rotation4Fold",
            PolyominoSymmetryGroup::All => "All",
        }
    }
}

/// The name of each symmetry class.
pub open spec fn symmetry_name(g: PolyominoSymmetryGroup) -> Seq<char> {
    match g {
        PolyominoSymmetryGroup::NoSymmetry => "None"@,
        PolyominoSymmetryGroup::Mirror90 => "Mirror90"@,
        PolyominoSymmetryGroup::Mirror45 => "Mirror45"@,
        PolyominoSymmetryGroup::Rotation2Fold => "Rotation2Fold"@,
        PolyominoSymmetryGroup::Rotation2FoldMirror90 => "Rotation2FoldMirror90"@,
        PolyominoSymmetryGroup::Rotation2FoldMirror45 => "Rotation2FoldMirror45"@,
        PolyominoSymmetryGroup::Rotation4Fold => "Rotation4Fold"@,
        PolyominoSymmetryGroup::All => "All"@,
    }
}

/// The eight orbit images of a shape: the fixed canonical forms of its four
/// rotations and of the four rotations of its transpose.
pub open spec fn image_c0(s: Seq<(int, int)>) -> Seq<(int, int)> {
    fixed_canon(s)
}

pub open spec fn image_c90(s: Seq<(int, int)>) -> Seq<(int, int)> {
    fixed_canon(rotate_pts(s))
}

pub open spec fn image_c180(s: Seq<(int, int)>) -> Seq<(int, int)> {
    fixed_canon(rotate_pts(rotate_pts(s)))
}

pub open spec fn image_c270(s: Seq<(int, int)>) -> Seq<(int, int)> {
    fixed_canon(rotate_pts(rotate_pts(rotate_pts(s))))
}

pub open spec fn image_t0(s: Seq<(int, int)>) -> Seq<(int, int)> {
    fixed_canon(transpose_pts(s))
}

pub open spec fn image_t90(s: Seq<(int, int)>) -> Seq<(int, int)> {
    fixed_canon(rotate_pts(transpose_pts(s)))
}

pub open spec fn image_t180(s: Seq<(int, int)>) -> Seq<(int, int)> {
    fixed_canon(rotate_pts(rotate_pts(transpose_pts(s))))
}

pub open spec fn image_t270(s: Seq<(int, int)>) -> Seq<(int, int)> {
    fixed_canon(rotate_pts(rotate_pts(rotate_pts(transpose_pts(s)))))
}

/// The symmetry class of a shape, decided by structural equality among its
/// eight orbit images, ties resolved by the first matching branch.
#[verifier::opaque]
pub open spec fn classify(s: Seq<(int, int)>) -> PolyominoSymmetryGroup {
    let c0 = image_c0(s);
    let c90 = image_c90(s);
    let c180 = image_c180(s);
    let t0 = image_t0(s);
    let t90 = image_t90(s);
    let t180 = image_t180(s);
    let t270 = image_t270(s);
    if c0 == c90 {
        if c0 == t0 {
            PolyominoSymmetryGroup::All
        } else {
            PolyominoSymmetryGroup::Rotation4Fold
        }
    } else if c0 == t0 || c0 == t180 {
        if c0 == c180 {
            PolyominoSymmetryGroup::Rotation2FoldMirror45
        } else {
            PolyominoSymmetryGroup::Mirror45
        }
    } else if c0 == t90 || c0 == t270 {
        if c0 == c180 {
            PolyominoSymmetryGroup::Rotation2FoldMirror90
        } else {
            PolyominoSymmetryGroup::Mirror90
        }
    } else if c0 == c180 {
        PolyominoSymmetryGroup::Rotation2Fold
    } else {
        PolyominoSymmetryGroup::NoSymmetry
    }
}

/// Lexicographic order on point sequences: decided by the first differing
/// point; a proper prefix comes first.
pub open spec fn seq_lex_leq(a: Seq<(int, int)>, b: Seq<(int, int)>) -> bool
    decreases a.len(),
{
    if a.len() == 0 {
        true
    } else if b.len() == 0 {
        false
    } else if a[0] == b[0] {
        seq_lex_leq(a.drop_first(), b.drop_first())
    } else {
        lex_lt(a[0], b[0])
    }
}

/// The order on point sequences is reflexive.
pub proof fn lemma_seq_lex_refl(a: Seq<(int, int)>)
    ensures
        seq_lex_leq(a, a),
    decreases a.len(),
{
    if a.len() > 0 {
        lemma_seq_lex_refl(a.drop_first());
    }
}

/// The order on point sequences is total.
pub proof fn lemma_seq_lex_total(a: Seq<(int, int)>, b: Seq<(int, int)>)
    ensures
        seq_lex_leq(a, b) || seq_lex_leq(b, a),
    decreases a.len(),
{
    if a.len() > 0 && b.len() > 0 {
        if a[0] == b[0] {
            lemma_seq_lex_total(a.drop_first(), b.drop_first());
        }
    }
}

/// The order on point sequences is antisymmetric.
pub proof fn lemma_seq_lex_antisym(a: Seq<(int, int)>, b: Seq<(int, int)>)
    requires
        seq_lex_leq(a, b),
        seq_lex_leq(b, a),
    ensures
        a == b,
    decreases a.len(),
{
    if a.len() == 0 {
        assert(b.len() == 0);
        assert(a =~= b);
    } else {
        assert(b.len() > 0);
        if a[0] == b[0] {
            lemma_seq_lex_antisym(a.drop_first(), b.drop_first());
            assert(a.drop_first().len() == b.drop_first().len());
            assert(a.len() == b.len());
            assert forall|i: int| 0 <= i < a.len() implies a[i] == b[i] by {
                if i > 0 {
                    assert(a.drop_first()[i - 1] == b.drop_first()[i - 1]);
                }
            }
            assert(a =~= b);
        }
    }
}

/// The order on point sequences is transitive.
pub proof fn lemma_seq_lex_trans(a: Seq<(int, int)>, b: Seq<(int, int)>, c: Seq<(int, int)>)
    requires
        seq_lex_leq(a, b),
        seq_lex_leq(b, c),
    ensures
        seq_lex_leq(a, c),
    decreases a.len(),
{
    if a.len() > 0 && b.len() > 0 && c.len() > 0 {
        if a[0] == b[0] && b[0] == c[0] {
            lemma_seq_lex_trans(a.drop_first(), b.drop_first(), c.drop_first());
        }
    }
}

/// The smaller of two point sequences; the first argument wins ties.
pub open spec fn min2(a: Seq<(int, int)>, b: Seq<(int, int)>) -> Seq<(int, int)> {
    if seq_lex_leq(a, b) {
        a
    } else {
        b
    }
}

/// `min2` returns one of its arguments and comes before both.
pub proof fn lemma_min2(a: Seq<(int, int)>, b: Seq<(int, int)>)
    ensures
        min2(a, b) == a || min2(a, b) == b,
        seq_lex_leq(min2(a, b), a),
        seq_lex_leq(min2(a, b), b),
{
    lemma_seq_lex_refl(a);
    lemma_seq_lex_refl(b);
    lemma_seq_lex_total(a, b);
}

/// The free canonical form: the least of the eight orbit images.
#[verifier::opaque]
pub open spec fn free_canon(s: Seq<(int, int)>) -> Seq<(int, int)> {
    min2(
        image_c0(s),
        min2(
            image_c90(s),
            min2(
                image_c180(s),
                min2(
                    image_c270(s),
                    min2(image_t0(s), min2(image_t90(s), min2(image_t180(s), image_t270(s)))),
                ),
            ),
        ),
    )
}

/// The free canonical form is one of the eight orbit images and comes before
/// each of them in the lexicographic order.
pub proof fn lemma_free_canon_min(s: Seq<(int, int)>)
    ensures
        free_canon(s) == image_c0(s) || free_canon(s) == image_c90(s) || free_canon(s)
            == image_c180(s) || free_canon(s) == image_c270(s) || free_canon(s) == image_t0(s)
            || free_canon(s) == image_t90(s) || free_canon(s) == image_t180(s) || free_canon(s)
            == image_t270(s),
        seq_lex_leq(free_canon(s), image_c0(s)),
        seq_lex_leq(free_canon(s), image_c90(s)),
        seq_lex_leq(free_canon(s), image_c180(s)),
        seq_lex_leq(free_canon(s), image_c270(s)),
        seq_lex_leq(free_canon(s), image_t0(s)),
        seq_lex_leq(free_canon(s), image_t90(s)),
        seq_lex_leq(free_canon(s), image_t180(s)),
        seq_lex_leq(free_canon(s), image_t270(s)),
{
    reveal(free_canon);
    let m7 = min2(image_t180(s), image_t270(s));
    let m6 = min2(image_t90(s), m7);
    let m5 = min2(image_t0(s), m6);
    let m4 = min2(image_c270(s), m5);
    let m3 = min2(image_c180(s), m4);
    let m2 = min2(image_c90(s), m3);
    let m1 = min2(image_c0(s), m2);
    lemma_min2(image_t180(s), image_t270(s));
    lemma_min2(image_t90(s), m7);
    lemma_min2(image_t0(s), m6);
    lemma_min2(image_c270(s), m5);
    lemma_min2(image_c180(s), m4);
    lemma_min2(image_c90(s), m3);
    lemma_min2(image_c0(s), m2);
    lemma_seq_lex_trans(m1, m2, m3);
    lemma_seq_lex_trans(m1, m3, m4);
    lemma_seq_lex_trans(m1, m4, m5);
    lemma_seq_lex_trans(m1, m5, m6);
    lemma_seq_lex_trans(m1, m6, m7);
    lemma_seq_lex_trans(m1, m2, image_c90(s));
    lemma_seq_lex_trans(m1, m3, image_c180(s));
    lemma_seq_lex_trans(m1, m4, image_c270(s));
    lemma_seq_lex_trans(m1, m5, image_t0(s));
    lemma_seq_lex_trans(m1, m6, image_t90(s));
    lemma_seq_lex_trans(m1, m7, image_t180(s));
    lemma_seq_lex_trans(m1, m7, image_t270(s));
}

/// Cell collections are the same exactly when their grid points are.
pub proof fn lemma_poly_view_eq_iff(a: &Polyomino, b: &Polyomino)
    ensures
        (a.0@ == b.0@) <==> (a@ == b@),
{
    if a@ == b@ {
        lemma_pts_injective(a.0@, b.0@);
    }
}

/// Executable comparison realizing `seq_lex_leq` on shape views.
pub fn poly_leq(a: &Polyomino, b: &Polyomino) -> (r: bool)
    ensures
        r == seq_lex_leq(a@, b@),
{
    let na = a.0.len();
    let nb = b.0.len();
    let n = if na <= nb {
        na
    } else {
        nb
    };
    proof {
        assert(a@.skip(0) =~= a@);
        assert(b@.skip(0) =~= b@);
    }
    let mut i: usize = 0;
    while i < n
        invariant
            n <= na == a.0@.len(),
            n <= nb == b.0@.len(),
            n == if na <= nb {
                na as int
            } else {
                nb as int
            },
            0 <= i <= n,
            seq_lex_leq(a@, b@) == seq_lex_leq(a@.skip(i as int), b@.skip(i as int)),
        decreases n - i,
    {
        let ca = a.0[i];
        let cb = b.0[i];
        proof {
            assert(a@[i as int] == a.0@[i as int]@);
            assert(b@[i as int] == b.0@[i as int]@);
            assert(a@.skip(i as int)[0] == a@[i as int]);
            assert(b@.skip(i as int)[0] == b@[i as int]);
            assert(a@.skip(i as int).drop_first() =~= a@.skip(i as int + 1));
            assert(b@.skip(i as int).drop_first() =~= b@.skip(i as int + 1));
        }
        if ca != cb {
            proof {
                assert(a@[i as int] != b@[i as int]);
            }
            return coord_lt(ca, cb);
        }
        proof {
            assert(ca == Coord(ca.0, ca.1) && cb == Coord(cb.0, cb.1));
            assert(a@[i as int] == b@[i as int]);
        }
        i = i + 1;
    }
    proof {
        if na <= nb {
            assert(a@.skip(n as int).len() == 0);
            assert(seq_lex_leq(a@.skip(n as int), b@.skip(n as int)));
        } else {
            assert(b@.skip(n as int).len() == 0);
            assert(a@.skip(n as int).len() > 0);
            assert(!seq_lex_leq(a@.skip(n as int), b@.skip(n as int)));
        }
    }
    na <= nb
}

/// The smaller of two shapes in the lexicographic order, the first winning
/// ties.
fn min2_poly(a: Polyomino, b: Polyomino) -> (r: Polyomino)
    ensures
        r@ == min2(a@, b@),
{
    if poly_leq(&a, &b) {
        a
    } else {
        b
    }
}

impl Polyomino {
    /// The free canonical form of this shape together with its symmetry
    /// class: the least of the eight orbit images, and the class read off the
    /// decision tree over those images.
    pub fn canonize_free(&self) -> (r: (Polyomino, PolyominoSymmetryGroup))
        requires
            span_ok(self@),
            neg_ok(self@),
        ensures
            r.0@ == free_canon(self@),
            r.1 == classify(self@),
    {
        let c0 = self.canonize_fixed();
        let r1 = self.rotate_raw();
        let c90 = r1.canonize_fixed();
        let r2 = r1.rotate_raw();
        let c180 = r2.canonize_fixed();
        let r3 = r2.rotate_raw();
        let c270 = r3.canonize_fixed();
        let tt = self.transpose_raw();
        let t0 = tt.canonize_fixed();
        let u1 = tt.rotate_raw();
        let t90 = u1.canonize_fixed();
        let u2 = u1.rotate_raw();
        let t180 = u2.canonize_fixed();
        let u3 = u2.rotate_raw();
        let t270 = u3.canonize_fixed();
        proof {
            assert(c0@ == image_c0(self@));
            assert(c90@ == image_c90(self@));
            assert(c180@ == image_c180(self@));
            assert(c270@ == image_c270(self@));
            assert(t0@ == image_t0(self@));
            assert(t90@ == image_t90(self@));
            assert(t180@ == image_t180(self@));
            assert(t270@ == image_t270(self@));
            lemma_poly_view_eq_iff(&c0, &c90);
            lemma_poly_view_eq_iff(&c0, &c180);
            lemma_poly_view_eq_iff(&c0, &t0);
            lemma_poly_view_eq_iff(&c0, &t90);
            lemma_poly_view_eq_iff(&c0, &t180);
            lemma_poly_view_eq_iff(&c0, &t270);
        }
        let symmetry_group = if c0 == c90 {
            if c0 == t0 {
                PolyominoSymmetryGroup::All
            } else {
                PolyominoSymmetryGroup::Rotation4Fold
            }
        } else if c0 == t0 || c0 == t180 {
            if c0 == c180 {
                PolyominoSymmetryGroup::Rotation2FoldMirror45
            } else {
                PolyominoSymmetryGroup::Mirror45
            }
        } else if c0 == t90 || c0 == t270 {
            if c0 == c180 {
                PolyominoSymmetryGroup::Rotation2FoldMirror90
            } else {
                PolyominoSymmetryGroup::Mirror90
            }
        } else if c0 == c180 {
            PolyominoSymmetryGroup::Rotation2Fold
        } else {
            PolyominoSymmetryGroup::NoSymmetry
        };
        proof {
            reveal(classify);
            assert(symmetry_group == classify(self@));
        }
        let m = min2_poly(
            c0,
            min2_poly(
                c90,
                min2_poly(
                    c180,
                    min2_poly(c270, min2_poly(t0, min2_poly(t90, min2_poly(t180, t270)))),
                ),
            ),
        );
        proof {
            reveal(free_canon);
            assert(m@ == free_canon(self@));
        }
        (m, symmetry_group)
    }
}


/// Transposing after a half turn equals a half turn after transposing.
proof fn lemma_tr_rot2(s: Seq<(int, int)>)
    ensures
        transpose_pts(rotate_pts(rotate_pts(s))) == rotate_pts(rotate_pts(transpose_pts(s))),
{
    let lhs = transpose_pts(rotate_pts(rotate_pts(s)));
    let rhs = rotate_pts(rotate_pts(transpose_pts(s)));
    assert forall|i: int| 0 <= i < s.len() implies #[trigger] lhs[i] == rhs[i] by {
        assert(rotate_pts(s)[i] == rotate_pt(s[i]));
        assert(rotate_pts(rotate_pts(s))[i] == rotate_pt(rotate_pt(s[i])));
        assert(lhs[i] == transpose_pt(rotate_pt(rotate_pt(s[i]))));
        assert(transpose_pts(s)[i] == transpose_pt(s[i]));
        assert(rotate_pts(transpose_pts(s))[i] == rotate_pt(transpose_pt(s[i])));
        assert(rhs[i] == rotate_pt(rotate_pt(transpose_pt(s[i]))));
    }
    assert(lhs =~= rhs);
}

/// Transposing after three quarter turns equals one quarter turn after
/// transposing.
proof fn lemma_tr_rot3(s: Seq<(int, int)>)
    ensures
        transpose_pts(rotate_pts(rotate_pts(rotate_pts(s)))) == rotate_pts(transpose_pts(s)),
{
    let lhs = transpose_pts(rotate_pts(rotate_pts(rotate_pts(s))));
    let rhs = rotate_pts(transpose_pts(s));
    assert forall|i: int| 0 <= i < s.len() implies #[trigger] lhs[i] == rhs[i] by {
        assert(rotate_pts(s)[i] == rotate_pt(s[i]));
        assert(rotate_pts(rotate_pts(s))[i] == rotate_pt(rotate_pt(s[i])));
        assert(rotate_pts(rotate_pts(rotate_pts(s)))[i] == rotate_pt(rotate_pt(rotate_pt(s[i]))));
        assert(lhs[i] == transpose_pt(rotate_pt(rotate_pt(rotate_pt(s[i])))));
        assert(transpose_pts(s)[i] == transpose_pt(s[i]));
        assert(rhs[i] == rotate_pt(transpose_pt(s[i])));
    }
    assert(lhs =~= rhs);
}

/// Whether a quarter turn stabilizes the shape decides alike at every point
/// of the rotation cycle.
proof fn lemma_cycle_all_equal(s: Seq<(int, int)>)
    requires
        image_c0(s) == image_c90(s),
    ensures
        image_c0(s) == image_c180(s),
        image_c0(s) == image_c270(s),
{
    lemma_fixed_canon_propagate_rotate(s, rotate_pts(s));
    lemma_fixed_canon_propagate_rotate(rotate_pts(s), rotate_pts(rotate_pts(s)));
}

/// The symmetry class is invariant under congruence: rotating or transposing
/// the input leaves it unchanged.
#[verifier::rlimit(50)]
pub proof fn lemma_classify_congruent(s: Seq<(int, int)>)
    ensures
        classify(rotate_pts(s)) == classify(s),
        classify(transpose_pts(s)) == classify(s),
{
    let r = rotate_pts(s);
    let t = transpose_pts(s);
    lemma_orbit_of_rotate(s);
    lemma_orbit_of_transpose(s);
    lemma_rotate_four_identity(transpose_pts(s));
    lemma_transpose_twice(s);
    lemma_tr_rot(s);
    lemma_tr_rot2(s);
    lemma_tr_rot3(s);
    lemma_tr_rot(transpose_pts(s));
    lemma_tr_rot2(transpose_pts(s));
    lemma_tr_rot3(transpose_pts(s));
    let b1 = rotate_pts(s);
    let b2 = rotate_pts(rotate_pts(s));
    let b3 = rotate_pts(rotate_pts(rotate_pts(s)));
    let u0 = transpose_pts(s);
    let u1 = rotate_pts(transpose_pts(s));
    let u2 = rotate_pts(rotate_pts(transpose_pts(s)));
    let u3 = rotate_pts(rotate_pts(rotate_pts(transpose_pts(s))));
    // the first rotation's stabilizer facts carried one quarter turn back
    assert((image_c90(s) == image_c180(s)) <==> (image_c0(s) == image_c90(s))) by {
        if image_c90(s) == image_c180(s) {
            lemma_fixed_canon_cancel_rotate(s, b1);
        }
        if image_c0(s) == image_c90(s) {
            lemma_fixed_canon_propagate_rotate(s, b1);
        }
    }
    assert((image_c90(s) == image_t270(s)) <==> (image_c0(s) == image_t180(s))) by {
        if image_c90(s) == image_t270(s) {
            lemma_fixed_canon_cancel_rotate(s, u2);
        }
        if image_c0(s) == image_t180(s) {
            lemma_fixed_canon_propagate_rotate(s, u2);
        }
    }
    assert((image_c90(s) == image_t90(s)) <==> (image_c0(s) == image_t0(s))) by {
        if image_c90(s) == image_t90(s) {
            lemma_fixed_canon_cancel_rotate(s, u0);
        }
        if image_c0(s) == image_t0(s) {
            lemma_fixed_canon_propagate_rotate(s, u0);
        }
    }
    assert((image_c90(s) == image_c270(s)) <==> (image_c0(s) == image_c180(s))) by {
        if image_c90(s) == image_c270(s) {
            lemma_fixed_canon_cancel_rotate(s, b2);
        }
        if image_c0(s) == image_c180(s) {
            lemma_fixed_canon_propagate_rotate(s, b2);
        }
    }
    assert((image_c90(s) == image_t0(s)) <==> (image_c0(s) == image_t270(s))) by {
        assert(rotate_pts(u3) == transpose_pts(s));
        assert(image_t0(s) == fixed_canon(rotate_pts(u3)));
        if image_c90(s) == image_t0(s) {
            lemma_fixed_canon_cancel_rotate(s, u3);
        }
        if image_c0(s) == image_t270(s) {
            lemma_fixed_canon_propagate_rotate(s, u3);
        }
    }
    assert((image_c90(s) == image_t180(s)) <==> (image_c0(s) == image_t90(s))) by {
        if image_c90(s) == image_t180(s) {
            lemma_fixed_canon_cancel_rotate(s, u1);
        }
        if image_c0(s) == image_t90(s) {
            lemma_fixed_canon_propagate_rotate(s, u1);
        }
    }
    // under four-fold rotation symmetry the two diagonal-mirror tests agree
    if image_c0(s) == image_c90(s) {
        lemma_cycle_all_equal(s);
        assert((image_c0(s) == image_t180(s)) <==> (image_c0(s) == image_t0(s))) by {
            if image_c0(s) == image_t180(s) {
                lemma_fixed_canon_propagate_rotate(s, u2);
                lemma_fixed_canon_propagate_rotate(b1, u3);
                assert(rotate_pts(u3) == transpose_pts(s));
                assert(image_c180(s) == image_t0(s));
            }
            if image_c0(s) == image_t0(s) {
                lemma_fixed_canon_propagate_rotate(s, u0);
                lemma_fixed_canon_propagate_rotate(b1, u1);
            }
        }
    }
    reveal(classify);
    assert(classify(r) == classify(s));
    // the transposed shape: each of its tests carried back across the mirror
    assert((image_t0(s) == image_t90(s)) <==> (image_c0(s) == image_c90(s))) by {
        if image_t0(s) == image_t90(s) {
            lemma_fixed_canon_propagate_transpose(u0, u1);
            assert(transpose_pts(u0) == s);
            assert(transpose_pts(u1) == rotate_pts(rotate_pts(rotate_pts(transpose_pts(u0)))));
            assert(transpose_pts(u1) == b3);
            assert(image_c0(s) == image_c270(s));
            lemma_fixed_canon_propagate_rotate(s, b3);
            lemma_rotate_four_identity(s);
            assert(rotate_pts(b3) == s);
            assert(image_c90(s) == image_c0(s));
        }
        if image_c0(s) == image_c90(s) {
            lemma_cycle_all_equal(s);
            lemma_fixed_canon_propagate_transpose(s, b3);
            assert(transpose_pts(b3) == u1);
            assert(image_t0(s) == image_t90(s));
        }
    }
    assert((image_t0(s) == image_c180(s)) <==> (image_c0(s) == image_t180(s))) by {
        if image_t0(s) == image_c180(s) {
            lemma_fixed_canon_propagate_transpose(u0, b2);
            assert(transpose_pts(u0) == s);
            assert(transpose_pts(b2) == u2);
        }
        if image_c0(s) == image_t180(s) {
            lemma_fixed_canon_propagate_transpose(s, u2);
            assert(transpose_pts(u2) == rotate_pts(rotate_pts(transpose_pts(u0))));
            assert(transpose_pts(u2) == b2);
        }
    }
    assert((image_t0(s) == image_t180(s)) <==> (image_c0(s) == image_c180(s))) by {
        if image_t0(s) == image_t180(s) {
            lemma_fixed_canon_propagate_transpose(u0, u2);
            assert(transpose_pts(u0) == s);
            assert(transpose_pts(u2) == b2);
        }
        if image_c0(s) == image_c180(s) {
            lemma_fixed_canon_propagate_transpose(s, b2);
            assert(transpose_pts(b2) == u2);
        }
    }
    assert((image_t0(s) == image_c90(s)) <==> (image_c0(s) == image_t270(s))) by {
        if image_t0(s) == image_c90(s) {
            lemma_fixed_canon_propagate_transpose(u0, b1);
            assert(transpose_pts(u0) == s);
            assert(transpose_pts(b1) == u3);
        }
        if image_c0(s) == image_t270(s) {
            lemma_fixed_canon_propagate_transpose(s, u3);
            assert(transpose_pts(u3) == rotate_pts(transpose_pts(u0)));
            assert(transpose_pts(u3) == b1);
        }
    }
    assert((image_t0(s) == image_c270(s)) <==> (image_c0(s) == image_t90(s))) by {
        if image_t0(s) == image_c270(s) {
            lemma_fixed_canon_propagate_transpose(u0, b3);
            assert(transpose_pts(u0) == s);
            assert(transpose_pts(b3) == u1);
        }
        if image_c0(s) == image_t90(s) {
            lemma_fixed_canon_propagate_transpose(s, u1);
            assert(transpose_pts(u1) == b3);
        }
    }
    assert(classify(t) == classify(s));
}

} // verus!

verus! {

use crate::shapes::{lemma_fixed_canon_propagate_rotate, lemma_fixed_canon_cancel_rotate,
    lemma_fixed_canon_propagate_transpose, lemma_rotate_four_identity,
    lemma_canonize_fixed_idempotent};

/// Reflecting every cell twice across the main diagonal is the identity.
proof fn lemma_transpose_twice(s: Seq<(int, int)>)
    ensures
        transpose_pts(transpose_pts(s)) == s,
{
    assert forall|i: int|
        0 <= i < s.len() implies #[trigger] transpose_pts(transpose_pts(s))[i] == s[i] by {
        assert(transpose_pts(s)[i] == transpose_pt(s[i]));
    }
    assert(transpose_pts(transpose_pts(s)) =~= s);
}

/// Transposing after a quarter turn equals three quarter turns after
/// transposing.
proof fn lemma_tr_rot(s: Seq<(int, int)>)
    ensures
        transpose_pts(rotate_pts(s)) == rotate_pts(
            rotate_pts(rotate_pts(transpose_pts(s))),
        ),
{
    let lhs = transpose_pts(rotate_pts(s));
    let rhs = rotate_pts(rotate_pts(rotate_pts(transpose_pts(s))));
    assert forall|i: int| 0 <= i < s.len() implies #[trigger] lhs[i] == rhs[i] by {
        assert(rotate_pts(s)[i] == rotate_pt(s[i]));
        assert(lhs[i] == transpose_pt(rotate_pt(s[i])));
        assert(transpose_pts(s)[i] == transpose_pt(s[i]));
        assert(rotate_pts(transpose_pts(s))[i] == rotate_pt(transpose_pt(s[i])));
        assert(rotate_pts(rotate_pts(transpose_pts(s)))[i] == rotate_pt(
            rotate_pt(transpose_pt(s[i])),
        ));
        assert(rhs[i] == rotate_pt(rotate_pt(rotate_pt(transpose_pt(s[i])))));
    }
    assert(lhs =~= rhs);
}

/// A quarter turn of the transpose of a quarter turn is the plain transpose.
proof fn lemma_rot_tr_rot(s: Seq<(int, int)>)
    ensures
        rotate_pts(transpose_pts(rotate_pts(s))) == transpose_pts(s),
{
    let lhs = rotate_pts(transpose_pts(rotate_pts(s)));
    assert forall|i: int| 0 <= i < s.len() implies #[trigger] lhs[i] == transpose_pts(s)[i] by {
        assert(rotate_pts(s)[i] == rotate_pt(s[i]));
        assert(transpose_pts(rotate_pts(s))[i] == transpose_pt(rotate_pt(s[i])));
        assert(lhs[i] == rotate_pt(transpose_pt(rotate_pt(s[i]))));
        assert(transpose_pts(s)[i] == transpose_pt(s[i]));
    }
    assert(lhs =~= transpose_pts(s));
}

/// The eight orbit images of a rotated shape, each identified with an orbit
/// image of the shape itself.
proof fn lemma_orbit_of_rotate(s: Seq<(int, int)>)
    ensures
        image_c0(rotate_pts(s)) == image_c90(s),
        image_c90(rotate_pts(s)) == image_c180(s),
        image_c180(rotate_pts(s)) == image_c270(s),
        image_c270(rotate_pts(s)) == image_c0(s),
        image_t0(rotate_pts(s)) == image_t270(s),
        image_t90(rotate_pts(s)) == image_t0(s),
        image_t180(rotate_pts(s)) == image_t90(s),
        image_t270(rotate_pts(s)) == image_t180(s),
{
    let r = rotate_pts(s);
    lemma_rotate_four_identity(s);
    assert(rotate_pts(rotate_pts(rotate_pts(r))) == s);
    lemma_tr_rot(s);
    lemma_rot_tr_rot(s);
    assert(transpose_pts(r) == rotate_pts(rotate_pts(rotate_pts(transpose_pts(s)))));
    assert(rotate_pts(transpose_pts(r)) == transpose_pts(s));
    assert(rotate_pts(rotate_pts(transpose_pts(r))) == rotate_pts(transpose_pts(s)));
    assert(rotate_pts(rotate_pts(rotate_pts(transpose_pts(r)))) == rotate_pts(
        rotate_pts(transpose_pts(s)),
    ));
}

/// The eight orbit images of a transposed shape, each identified with an
/// orbit image of the shape itself.
proof fn lemma_orbit_of_transpose(s: Seq<(int, int)>)
    ensures
        image_c0(transpose_pts(s)) == image_t0(s),
        image_c90(transpose_pts(s)) == image_t90(s),
        image_c180(transpose_pts(s)) == image_t180(s),
        image_c270(transpose_pts(s)) == image_t270(s),
        image_t0(transpose_pts(s)) == image_c0(s),
        image_t90(transpose_pts(s)) == image_c90(s),
        image_t180(transpose_pts(s)) == image_c180(s),
        image_t270(transpose_pts(s)) == image_c270(s),
{
    let t = transpose_pts(s);
    lemma_transpose_twice(s);
    assert(transpose_pts(t) == s);
    assert(rotate_pts(transpose_pts(t)) == rotate_pts(s));
    assert(rotate_pts(rotate_pts(transpose_pts(t))) == rotate_pts(rotate_pts(s)));
    assert(rotate_pts(rotate_pts(rotate_pts(transpose_pts(t)))) == rotate_pts(
        rotate_pts(rotate_pts(s)),
    ));
}

/// The free canonical form is invariant under congruence: rotating or
/// transposing the input leaves it unchanged.
pub proof fn lemma_free_canon_congruent(s: Seq<(int, int)>)
    ensures
        free_canon(rotate_pts(s)) == free_canon(s),
        free_canon(transpose_pts(s)) == free_canon(s),
{
    let r = rotate_pts(s);
    let t = transpose_pts(s);
    lemma_orbit_of_rotate(s);
    lemma_orbit_of_transpose(s);
    lemma_free_canon_min(s);
    lemma_free_canon_min(r);
    lemma_free_canon_min(t);
    assert(seq_lex_leq(free_canon(s), free_canon(r)));
    assert(seq_lex_leq(free_canon(r), free_canon(s)));
    lemma_seq_lex_antisym(free_canon(s), free_canon(r));
    assert(seq_lex_leq(free_canon(s), free_canon(t)));
    assert(seq_lex_leq(free_canon(t), free_canon(s)));
    lemma_seq_lex_antisym(free_canon(s), free_canon(t));
}


/// Canonizing a shape first changes none of its orbit images, so neither its
/// free canonical form nor its symmetry class.
pub proof fn lemma_images_of_fixed_canon(s: Seq<(int, int)>)
    ensures
        free_canon(fixed_canon(s)) == free_canon(s),
        classify(fixed_canon(s)) == classify(s),
{
    let f = fixed_canon(s);
    lemma_canonize_fixed_idempotent(s);
    assert(image_c0(f) == image_c0(s));
    lemma_fixed_canon_propagate_rotate(f, s);
    assert(image_c90(f) == image_c90(s));
    lemma_fixed_canon_propagate_rotate(rotate_pts(f), rotate_pts(s));
    assert(image_c180(f) == image_c180(s));
    lemma_fixed_canon_propagate_rotate(rotate_pts(rotate_pts(f)), rotate_pts(rotate_pts(s)));
    assert(image_c270(f) == image_c270(s));
    lemma_fixed_canon_propagate_transpose(f, s);
    assert(image_t0(f) == image_t0(s));
    lemma_fixed_canon_propagate_rotate(transpose_pts(f), transpose_pts(s));
    assert(image_t90(f) == image_t90(s));
    lemma_fixed_canon_propagate_rotate(
        rotate_pts(transpose_pts(f)),
        rotate_pts(transpose_pts(s)),
    );
    assert(image_t180(f) == image_t180(s));
    lemma_fixed_canon_propagate_rotate(
        rotate_pts(rotate_pts(transpose_pts(f))),
        rotate_pts(rotate_pts(transpose_pts(s))),
    );
    assert(image_t270(f) == image_t270(s));
    reveal(free_canon);
    reveal(classify);
}

/// A shape's free canonical form, read as a shape, has the same symmetry
/// class as the shape itself.
pub proof fn lemma_classify_of_free_canon(s: Seq<(int, int)>)
    ensures
        classify(free_canon(s)) == classify(s),
{
    lemma_free_canon_min(s);
    lemma_classify_congruent(s);
    if free_canon(s) == image_c0(s) {
        lemma_images_of_fixed_canon(s);
    } else if free_canon(s) == image_c90(s) {
        lemma_images_of_fixed_canon(rotate_pts(s));
    } else if free_canon(s) == image_c180(s) {
        lemma_images_of_fixed_canon(rotate_pts(rotate_pts(s)));
        lemma_classify_congruent(rotate_pts(s));
    } else if free_canon(s) == image_c270(s) {
        lemma_images_of_fixed_canon(rotate_pts(rotate_pts(rotate_pts(s))));
        lemma_classify_congruent(rotate_pts(s));
        lemma_classify_congruent(rotate_pts(rotate_pts(s)));
    } else if free_canon(s) == image_t0(s) {
        lemma_images_of_fixed_canon(transpose_pts(s));
    } else if free_canon(s) == image_t90(s) {
        lemma_images_of_fixed_canon(rotate_pts(transpose_pts(s)));
        lemma_classify_congruent(transpose_pts(s));
    } else if free_canon(s) == image_t180(s) {
        lemma_images_of_fixed_canon(rotate_pts(rotate_pts(transpose_pts(s))));
        lemma_classify_congruent(transpose_pts(s));
        lemma_classify_congruent(rotate_pts(transpose_pts(s)));
    } else {
        lemma_images_of_fixed_canon(rotate_pts(rotate_pts(rotate_pts(transpose_pts(s)))));
        lemma_classify_congruent(transpose_pts(s));
        lemma_classify_congruent(rotate_pts(transpose_pts(s)));
        lemma_classify_congruent(rotate_pts(rotate_pts(transpose_pts(s))));
    }
}

/// Two shapes with the same free canonical form belong to the same symmetry
/// class.
pub proof fn lemma_same_free_form_same_class(a: Seq<(int, int)>, b: Seq<(int, int)>)
    requires
        free_canon(a) == free_canon(b),
    ensures
        classify(a) == classify(b),
{
    lemma_classify_of_free_canon(a);
    lemma_classify_of_free_canon(b);
}

} // verus!
