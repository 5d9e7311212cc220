use vstd::prelude::*;
use vstd::pervasive::VecAdditionalExecFns;
use crate::coords::Coord;
use crate::shapes::{Polyomino, pts, span_ok, neg_ok};
use crate::symmetry::{PolyominoSymmetryGroup, classify, free_canon, seq_lex_leq, poly_leq,
    lemma_seq_lex_total, lemma_seq_lex_trans, lemma_seq_lex_antisym, lemma_seq_lex_refl,
    lemma_poly_view_eq_iff, lemma_same_free_form_same_class};

verus! {

/// The neighbor of a cell in one of the four axis directions, ordered:
/// right, left, up, down.
pub open spec fn nbr(c: (int, int), d: int) -> (int, int) {
    if d == 0 {
        (c.0 + 1, c.1)
    } else if d == 1 {
        (c.0 - 1, c.1)
    } else if d == 2 {
        (c.0, c.1 + 1)
    } else {
        (c.0, c.1 - 1)
    }
}

/// Whether the shape can grow at cell `i` in direction `d`: the neighboring
/// cell must not already be occupied.
pub open spec fn shape_grows(s: Seq<(int, int)>, i: int, d: int) -> bool {
    0 <= i < s.len() && 0 <= d < 4 && !s.contains(nbr(s[i], d))
}

/// The shape extended by the neighboring cell of cell `i` in direction `d`.
pub open spec fn shape_grown(s: Seq<(int, int)>, i: int, d: int) -> Seq<(int, int)> {
    s.push(nbr(s[i], d))
}

/// The views of a list of shapes.
pub open spec fn shape_views(ps: Seq<Polyomino>) -> Seq<Seq<(int, int)>> {
    ps.map_values(|p: Polyomino| p@)
}

/// Whether `c` can be grown from the single shape `s` by one free neighbor.
pub open spec fn from_shape(c: Seq<(int, int)>, s: Seq<(int, int)>) -> bool {
    exists|i: int, d: int|
        #![trigger shape_grown(s, i, d)]
        shape_grows(s, i, d) && c == shape_grown(s, i, d)
}

/// A growth candidate: some shape of the previous generation extended by one
/// unoccupied neighboring cell.
pub open spec fn is_candidate(c: Seq<(int, int)>, prev: Seq<Seq<(int, int)>>) -> bool {
    exists|k: int| 0 <= k < prev.len() && from_shape(c, #[trigger] prev[k])
}

/// Room to grow: every coordinate stays clear of the machine limits by two.
pub open spec fn grow_ok(s: Seq<(int, int)>) -> bool {
    forall|i: int|
        0 <= i < s.len() ==> i32::MIN as int + 2 <= (#[trigger] s[i]).0 <= i32::MAX as int - 1
            && i32::MIN as int + 2 <= s[i].1 <= i32::MAX as int - 1
}

/// Room to grow: every pairwise coordinate difference stays two below the
/// machine limit, so an added neighbor still translates without overflow.
pub open spec fn grow_span_ok(s: Seq<(int, int)>) -> bool {
    forall|i: int, j: int|
        #![trigger s[i], s[j]]
        0 <= i < s.len() && 0 <= j < s.len() ==> s[i].0 - s[j].0 <= i32::MAX as int - 2 && s[i].1
            - s[j].1 <= i32::MAX as int - 2
}

/// A sound generation entry: its key is the free canonical form of some
/// growth candidate and its value that candidate's symmetry class.
pub open spec fn entry_from_candidate(
    e: (Polyomino, PolyominoSymmetryGroup),
    prev: Seq<Seq<(int, int)>>,
) -> bool {
    exists|c: Seq<(int, int)>|
        #[trigger] is_candidate(c, prev) && e.0@ == free_canon(c) && e.1 == classify(c)
}

/// Every way the shape can grow is represented in the collection: for each
/// cell and free direction, the grown shape appears.
pub open spec fn covered(s: Seq<(int, int)>, cs: Seq<Polyomino>) -> bool {
    forall|i: int, d: int|
        #[trigger] shape_grows(s, i, d) ==> exists|j: int|
            0 <= j < cs.len() && (#[trigger] cs[j])@ == shape_grown(s, i, d)
}

/// Appending to a collection keeps every growth of a shape represented.
proof fn lemma_covered_extend(s: Seq<(int, int)>, a: Seq<Polyomino>, b: Seq<Polyomino>)
    requires
        covered(s, a),
        a.len() <= b.len(),
        forall|j: int| 0 <= j < a.len() ==> b[j] == a[j],
    ensures
        covered(s, b),
{
    assert forall|i: int, d: int| #[trigger] shape_grows(s, i, d) implies exists|j: int|
        0 <= j < b.len() && (#[trigger] b[j])@ == shape_grown(s, i, d) by {
        let j = choose|j: int| 0 <= j < a.len() && (#[trigger] a[j])@ == shape_grown(s, i, d);
        assert(b[j] == a[j]);
    }
}

/// The candidate's free canonical form stands in the listing, carrying the
/// candidate's symmetry class.
pub open spec fn candidate_listed(
    c: Seq<(int, int)>,
    g: Seq<(Polyomino, PolyominoSymmetryGroup)>,
) -> bool {
    exists|j: int|
        0 <= j < g.len() && (#[trigger] g[j]).0@ == free_canon(c) && g[j].1 == classify(c)
}

/// A generation listing: keys strictly ascending in the lexicographic order,
/// hence no key twice.
pub open spec fn gen_sorted(g: Seq<(Polyomino, PolyominoSymmetryGroup)>) -> bool {
    forall|i: int, j: int|
        0 <= i < j < g.len() ==> seq_lex_leq((#[trigger] g[i]).0@, (#[trigger] g[j]).0@) && g[i].0@
            != g[j].0@
}

/// The box of coordinates within which a shape is accepted for growth.
pub open spec fn in_growth_box(s: Seq<(int, int)>) -> bool {
    forall|i: int|
        0 <= i < s.len() ==> -(0x2000_0000 as int) <= (#[trigger] s[i]).0 <= 0x2000_0000 as int
            && -(0x2000_0000 as int) <= s[i].1 <= 0x2000_0000 as int
}

/// Whether the shape's cells all lie in a box that leaves the growth step
/// free of overflow; a sufficient, quickly checkable condition for the
/// requirements of `next_generation`.
pub fn fits_growth(p: &Polyomino) -> (r: bool)
    ensures
        r == in_growth_box(p@),
        r ==> grow_ok(p@) && grow_span_ok(p@),
{
    let bound: i32 = 0x2000_0000;
    let n = p.0.len();
    let mut i: usize = 0;
    while i < n
        invariant
            0 <= i <= n,
            n == p.0@.len(),
            forall|j: int|
                0 <= j < i ==> -(0x2000_0000 as int) <= (#[trigger] p@[j]).0 <= 0x2000_0000 as int
                    && -(0x2000_0000 as int) <= p@[j].1 <= 0x2000_0000 as int,
        decreases n - i,
    {
        let c = p.0[i];
        proof {
            assert(p@[i as int] == p.0@[i as int]@);
        }
        if c.0 < -bound || c.0 > bound || c.1 < -bound || c.1 > bound {
            proof {
                let ghost w = i as int;
                assert(!(-(0x2000_0000 as int) <= p@[w].0 <= 0x2000_0000 as int && -(
                0x2000_0000 as int) <= p@[w].1 <= 0x2000_0000 as int));
                assert(!in_growth_box(p@));
            }
            return false;
        }
        i = i + 1;
    }
    true
}

/// Whether the cell collection holds the given cell.
fn contains_coord(cells: &Vec<Coord>, c: Coord) -> (r: bool)
    ensures
        r == pts(cells@).contains(c@),
{
    let n = cells.len();
    let mut i: usize = 0;
    while i < n
        invariant
            0 <= i <= n,
            n == cells@.len(),
            forall|j: int| 0 <= j < i ==> #[trigger] pts(cells@)[j] != c@,
        decreases n - i,
    {
        let x = cells[i];
        proof {
            assert(pts(cells@)[i as int] == cells@[i as int]@);
        }
        if x.0 == c.0 && x.1 == c.1 {
            proof {
                assert(pts(cells@)[i as int] == c@);
            }
            return true;
        }
        i = i + 1;
    }
    proof {
        if pts(cells@).contains(c@) {
            let j = choose|j: int| 0 <= j < pts(cells@).len() && pts(cells@)[j] == c@;
            assert(false);
        }
    }
    false
}

/// The shape extended by one more cell.
fn with_cell(p: &Polyomino, c: Coord) -> (r: Polyomino)
    ensures
        r@ == p@.push(c@),
{
    let mut q = p.clone();
    q.0.push(c);
    proof {
        assert(q@ =~= p@.push(c@));
    }
    q
}

/// Append every candidate grown from one shape: for each cell, each of the
/// four axis neighbors that is not already occupied.
#[verifier::rlimit(50)]
fn shape_candidates(p: &Polyomino, out: &mut Vec<Polyomino>)
    requires
        grow_ok(p@),
        grow_span_ok(p@),
    ensures
        final(out)@.len() >= old(out)@.len(),
        forall|j: int| 0 <= j < old(out)@.len() ==> final(out)@[j] == old(out)@[j],
        forall|j: int|
            old(out)@.len() <= j < final(out)@.len() ==> from_shape(
                (#[trigger] final(out)@[j])@,
                p@,
            ) && span_ok(final(out)@[j]@) && neg_ok(final(out)@[j]@),
        covered(p@, final(out)@),
{
    let ghost orig = out@;
    let n = p.0.len();
    let mut ii: usize = 0;
    while ii < n
        invariant
            0 <= ii <= n,
            n == p.0@.len(),
            out@.len() >= orig.len(),
            forall|j: int| 0 <= j < orig.len() ==> out@[j] == orig[j],
            forall|j: int|
                orig.len() <= j < out@.len() ==> from_shape((#[trigger] out@[j])@, p@) && span_ok(
                    out@[j]@,
                ) && neg_ok(out@[j]@),
            forall|i2: int, d2: int|
                0 <= i2 < ii && #[trigger] shape_grows(p@, i2, d2) ==> exists|j: int|
                    0 <= j < out@.len() && (#[trigger] out@[j])@ == shape_grown(p@, i2, d2),
        decreases n - ii,
    {
        let mut d: usize = 0;
        while d < 4
            invariant
                0 <= d <= 4,
                0 <= ii < n,
                n == p.0@.len(),
                out@.len() >= orig.len(),
                forall|j: int| 0 <= j < orig.len() ==> out@[j] == orig[j],
                forall|j: int|
                    orig.len() <= j < out@.len() ==> from_shape((#[trigger] out@[j])@, p@)
                        && span_ok(out@[j]@) && neg_ok(out@[j]@),
                forall|i2: int, d2: int|
                    (0 <= i2 < ii || (i2 == ii && 0 <= d2 < d)) && #[trigger] shape_grows(
                        p@,
                        i2,
                        d2,
                    ) ==> exists|j: int|
                        0 <= j < out@.len() && (#[trigger] out@[j])@ == shape_grown(p@, i2, d2),
            decreases 4 - d,
        {
            let c = p.0[ii];
            proof {
                assert(p@[ii as int] == p.0@[ii as int]@);
            }
            let nb = if d == 0 {
                Coord(c.0 + 1, c.1)
            } else if d == 1 {
                Coord(c.0 - 1, c.1)
            } else if d == 2 {
                Coord(c.0, c.1 + 1)
            } else {
                Coord(c.0, c.1 - 1)
            };
            proof {
                assert(nb@ == nbr(p@[ii as int], d as int));
            }
            if !contains_coord(&p.0, nb) {
                let cand = with_cell(p, nb);
                let ghost snap = out@;
                proof {
                    lemma_candidate_bounds(p@, ii as int, d as int);
                    assert(shape_grows(p@, ii as int, d as int));
                    assert(cand@ == shape_grown(p@, ii as int, d as int));
                    assert(from_shape(cand@, p@));
                }
                out.push(cand);
                proof {
                    assert(out@ == snap.push(cand));
                    assert(forall|j: int| 0 <= j < snap.len() ==> out@[j] == snap[j]);
                    assert(out@[snap.len() as int] == cand);
                    assert forall|i2: int, d2: int|
                        (0 <= i2 < ii || (i2 == ii && 0 <= d2 < d + 1)) && #[trigger] shape_grows(
                            p@,
                            i2,
                            d2,
                        ) implies exists|j: int|
                        0 <= j < out@.len() && (#[trigger] out@[j])@ == shape_grown(
                            p@,
                            i2,
                            d2,
                        ) by {
                        if i2 == ii && d2 == d {
                            assert((out@[snap.len() as int])@ == shape_grown(p@, i2, d2));
                        } else {
                            let j = choose|j: int|
                                0 <= j < snap.len() && (#[trigger] snap[j])@ == shape_grown(
                                    p@,
                                    i2,
                                    d2,
                                );
                            assert(out@[j] == snap[j]);
                        }
                    }
                }
            } else {
                proof {
                    assert(pts(p.0@) == p@);
                    assert(!shape_grows(p@, ii as int, d as int));
                }
            }
            d = d + 1;
        }
        ii = ii + 1;
    }
    proof {
        assert forall|i: int, d: int| #[trigger] shape_grows(p@, i, d) implies exists|j: int|
            0 <= j < out@.len() && (#[trigger] out@[j])@ == shape_grown(p@, i, d) by {
            assert(0 <= i < n);
        }
    }
}

/// A shape with room to grow keeps its grown candidates within the machine
/// limits.
proof fn lemma_candidate_bounds(s: Seq<(int, int)>, i: int, d: int)
    requires
        grow_ok(s),
        grow_span_ok(s),
        0 <= i < s.len(),
        0 <= d < 4,
    ensures
        span_ok(shape_grown(s, i, d)),
        neg_ok(shape_grown(s, i, d)),
{
    let g = shape_grown(s, i, d);
    let m = nbr(s[i], d);
    assert forall|a: int, b: int|
        #![trigger g[a], g[b]]
        0 <= a < g.len() && 0 <= b < g.len() implies g[a].0 - g[b].0 <= i32::MAX as int && g[a].1
        - g[b].1 <= i32::MAX as int by {
        if a < s.len() && b < s.len() {
            assert(g[a] == s[a] && g[b] == s[b]);
        } else if a < s.len() {
            assert(g[a] == s[a] && g[b] == m);
            assert(s[a].0 - s[i].0 <= i32::MAX as int - 2);
            assert(s[a].1 - s[i].1 <= i32::MAX as int - 2);
        } else if b < s.len() {
            assert(g[a] == m && g[b] == s[b]);
            assert(s[i].0 - s[b].0 <= i32::MAX as int - 2);
            assert(s[i].1 - s[b].1 <= i32::MAX as int - 2);
        } else {
            assert(g[a] == m && g[b] == m);
        }
    }
    assert forall|a: int|
        0 <= a < g.len() implies (#[trigger] g[a]).0 > i32::MIN as int && g[a].1
        > i32::MIN as int by {
        if a < s.len() {
            assert(g[a] == s[a]);
        } else {
            assert(g[a] == m);
        }
    }
}

/// Every candidate grown from every shape of the previous generation.
#[verifier::rlimit(50)]
fn collect_candidates(prev: &Vec<Polyomino>) -> (cands: Vec<Polyomino>)
    requires
        forall|k: int|
            0 <= k < prev@.len() ==> grow_ok((#[trigger] prev@[k])@) && grow_span_ok(prev@[k]@),
    ensures
        forall|j: int|
            0 <= j < cands@.len() ==> is_candidate((#[trigger] cands@[j])@, shape_views(prev@))
                && span_ok(cands@[j]@) && neg_ok(cands@[j]@),
        forall|c: Seq<(int, int)>|
            #[trigger] is_candidate(c, shape_views(prev@)) ==> exists|j: int|
                0 <= j < cands@.len() && (#[trigger] cands@[j])@ == c,
{
    let ghost pv = shape_views(prev@);
    let n = prev.len();
    let mut cands: Vec<Polyomino> = Vec::new();
    let mut k: usize = 0;
    while k < n
        invariant
            0 <= k <= n,
            n == prev@.len(),
            pv == shape_views(prev@),
            forall|j: int|
                0 <= j < cands@.len() ==> is_candidate((#[trigger] cands@[j])@, pv) && span_ok(
                    cands@[j]@,
                ) && neg_ok(cands@[j]@),
            forall|k2: int| 0 <= k2 < k ==> covered(#[trigger] pv[k2], cands@),
        decreases n - k,
    {
        proof {
            assert(pv[k as int] == prev@[k as int]@);
        }
        let ghost before = cands@;
        shape_candidates(&prev[k], &mut cands);
        proof {
            let kk = k as int;
            assert forall|j: int|
                0 <= j < cands@.len() implies is_candidate((#[trigger] cands@[j])@, pv) && span_ok(
                cands@[j]@,
            ) && neg_ok(cands@[j]@) by {
                if j < before.len() {
                    assert(cands@[j] == before[j]);
                } else {
                    assert(from_shape(cands@[j]@, prev@[kk]@));
                    assert(from_shape(cands@[j]@, pv[kk]));
                    assert(is_candidate(cands@[j]@, pv));
                }
            }
            assert forall|k2: int| 0 <= k2 < k + 1 implies covered(
                #[trigger] pv[k2],
                cands@,
            ) by {
                if k2 < kk {
                    lemma_covered_extend(pv[k2], before, cands@);
                } else {
                    assert(covered(prev@[kk]@, cands@));
                    assert(pv[kk] == prev@[kk]@);
                }
            }
        }
        k = k + 1;
    }
    proof {
        assert forall|c: Seq<(int, int)>| #[trigger] is_candidate(c, pv) implies exists|j: int|
            0 <= j < cands@.len() && (#[trigger] cands@[j])@ == c by {
            let k2 = choose|k2: int| 0 <= k2 < pv.len() && from_shape(c, #[trigger] pv[k2]);
            let (i2, d2) = choose|i2: int, d2: int|
                #![trigger shape_grown(pv[k2], i2, d2)]
                shape_grows(pv[k2], i2, d2) && c == shape_grown(pv[k2], i2, d2);
            assert(covered(pv[k2], cands@));
            assert(shape_grows(pv[k2], i2, d2));
            let j = choose|j: int|
                0 <= j < cands@.len() && (#[trigger] cands@[j])@ == shape_grown(pv[k2], i2, d2);
        }
    }
    cands
}

/// Insert one classified shape into a sorted generation listing, replacing
/// the value when the key is already present.
#[verifier::rlimit(50)]
fn insert_entry(
    g: &mut Vec<(Polyomino, PolyominoSymmetryGroup)>,
    key: Polyomino,
    grp: PolyominoSymmetryGroup,
)
    requires
        gen_sorted(old(g)@),
        old(g)@.len() < usize::MAX,
    ensures
        gen_sorted(final(g)@),
        old(g)@.len() <= final(g)@.len() <= old(g)@.len() + 1,
        exists|j: int|
            0 <= j < final(g)@.len() && (#[trigger] final(g)@[j]).0@ == key@ && final(g)@[j].1
                == grp,
        forall|j2: int|
            0 <= j2 < old(g)@.len() && (#[trigger] old(g)@[j2]).0@ != key@ ==> exists|j: int|
                0 <= j < final(g)@.len() && (#[trigger] final(g)@[j]).0@ == old(g)@[j2].0@
                    && final(g)@[j].1 == old(g)@[j2].1,
        forall|j: int|
            0 <= j < final(g)@.len() ==> ((#[trigger] final(g)@[j]).0@ == key@ && final(g)@[j].1
                == grp) || (exists|j2: int|
                0 <= j2 < old(g)@.len() && (#[trigger] old(g)@[j2]).0@ == final(g)@[j].0@
                    && old(g)@[j2].1 == final(g)@[j].1 && old(g)@[j2].0@ != key@),
{
    let ghost orig = g@;
    let n = g.len();
    let mut k: usize = 0;
    while k < n && !poly_leq(&key, &g[k].0)
        invariant
            0 <= k <= n,
            n == g@.len(),
            g@ == orig,
            forall|j: int|
                0 <= j < k ==> !seq_lex_leq(key@, (#[trigger] g@[j]).0@),
        decreases n - k,
    {
        k = k + 1;
    }
    let ghost kk = k as int;
    proof {
        assert forall|j: int| 0 <= j < kk implies seq_lex_leq((#[trigger] orig[j]).0@, key@)
            && orig[j].0@ != key@ by {
            lemma_seq_lex_total(key@, orig[j].0@);
            if orig[j].0@ == key@ {
                lemma_seq_lex_antisym(key@, orig[j].0@);
            }
        }
    }
    if k < n && g[k].0 == key {
        proof {
            lemma_poly_view_eq_iff(&g@[kk].0, &key);
        }
        g.set(k, (key, grp));
        proof {
            assert(final(g)@[kk].0@ == orig[kk].0@);
            assert forall|i: int, j: int| 0 <= i < j < g@.len() implies seq_lex_leq(
                (#[trigger] g@[i]).0@,
                (#[trigger] g@[j]).0@,
            ) && g@[i].0@ != g@[j].0@ by {
                assert(g@[i].0@ == orig[i].0@);
                assert(g@[j].0@ == orig[j].0@);
            }
            assert forall|j2: int|
                0 <= j2 < orig.len() && (#[trigger] orig[j2]).0@ != key@ implies exists|j: int|
                0 <= j < g@.len() && (#[trigger] g@[j]).0@ == orig[j2].0@ && g@[j].1
                    == orig[j2].1 by {
                assert(g@[j2].0@ == orig[j2].0@ && g@[j2].1 == orig[j2].1);
            }
        }
    } else {
        proof {
            if kk < orig.len() {
                assert(seq_lex_leq(key@, orig[kk].0@));
                lemma_poly_view_eq_iff(&g@[kk].0, &key);
                assert(orig[kk].0@ != key@);
            }
        }
        g.insert(k, (key, grp));
        proof {
            orig.insert_ensures(kk, g@[kk]);
            assert(g@[kk].0@ == key@ && g@[kk].1 == grp);
            assert forall|i: int, j: int| 0 <= i < j < g@.len() implies seq_lex_leq(
                (#[trigger] g@[i]).0@,
                (#[trigger] g@[j]).0@,
            ) && g@[i].0@ != g@[j].0@ by {
                if i < kk && j < kk {
                    assert(g@[i] == orig[i] && g@[j] == orig[j]);
                } else if i < kk && j == kk {
                    assert(g@[i] == orig[i]);
                } else if i < kk && j > kk {
                    assert(g@[i] == orig[i] && g@[j] == orig[j - 1]);
                    assert(seq_lex_leq(orig[i].0@, orig[j - 1].0@) && orig[i].0@ != orig[j
                        - 1].0@);
                } else if i == kk && j > kk {
                    assert(g@[j] == orig[j - 1]);
                    assert(seq_lex_leq(key@, orig[j - 1].0@) && key@ != orig[j - 1].0@) by {
                        assert(seq_lex_leq(key@, orig[kk].0@));
                        assert(orig[kk].0@ != key@);
                        if j - 1 > kk {
                            assert(seq_lex_leq(orig[kk].0@, orig[j - 1].0@) && orig[kk].0@
                                != orig[j - 1].0@);
                            lemma_seq_lex_trans(key@, orig[kk].0@, orig[j - 1].0@);
                            if key@ == orig[j - 1].0@ {
                                lemma_seq_lex_antisym(key@, orig[kk].0@);
                            }
                        }
                    }
                } else {
                    assert(g@[i] == orig[i - 1] && g@[j] == orig[j - 1]);
                }
            }
            assert forall|j2: int|
                0 <= j2 < orig.len() && (#[trigger] orig[j2]).0@ != key@ implies exists|j: int|
                0 <= j < g@.len() && (#[trigger] g@[j]).0@ == orig[j2].0@ && g@[j].1
                    == orig[j2].1 by {
                if j2 < kk {
                    assert(g@[j2] == orig[j2]);
                } else {
                    assert(g@[j2 + 1] == orig[j2]);
                }
            }
            assert forall|j: int|
                0 <= j < g@.len() implies ((#[trigger] g@[j]).0@ == key@ && g@[j].1 == grp) || (
                exists|j2: int|
                    0 <= j2 < orig.len() && (#[trigger] orig[j2]).0@ == g@[j].0@ && orig[j2].1
                        == g@[j].1 && orig[j2].0@ != key@) by {
                if j < kk {
                    assert(g@[j] == orig[j]);
                    assert(orig[j].0@ != key@);
                } else if j > kk {
                    assert(g@[j] == orig[j - 1]);
                    assert(orig[j - 1].0@ != key@) by {
                        if j - 1 == kk {
                        } else {
                            assert(seq_lex_leq(key@, orig[kk].0@));
                            assert(seq_lex_leq(orig[kk].0@, orig[j - 1].0@) && orig[kk].0@
                                != orig[j - 1].0@);
                            if orig[j - 1].0@ == key@ {
                                lemma_seq_lex_antisym(key@, orig[kk].0@);
                            }
                        }
                    }
                }
            }
        }
    }
}

/// Classify every candidate and gather the results into one listing, keyed by
/// free canonical form, deduplicated, in ascending key order.
#[verifier::rlimit(50)]
fn build_generation(cands: &Vec<Polyomino>) -> (g: Vec<(Polyomino, PolyominoSymmetryGroup)>)
    requires
        forall|i: int|
            0 <= i < cands@.len() ==> span_ok((#[trigger] cands@[i])@) && neg_ok(cands@[i]@),
    ensures
        gen_sorted(g@),
        forall|j: int|
            0 <= j < g@.len() ==> exists|i: int|
                0 <= i < cands@.len() && (#[trigger] g@[j]).0@ == free_canon(cands@[i]@) && g@[j].1
                    == classify(cands@[i]@),
        forall|i: int| 0 <= i < cands@.len() ==> candidate_listed((#[trigger] cands@[i])@, g@),
{
    let n = cands.len();
    let mut g: Vec<(Polyomino, PolyominoSymmetryGroup)> = Vec::new();
    let mut i: usize = 0;
    while i < n
        invariant
            0 <= i <= n,
            n == cands@.len(),
            g@.len() <= i,
            gen_sorted(g@),
            forall|i2: int|
                0 <= i2 < cands@.len() ==> span_ok((#[trigger] cands@[i2])@) && neg_ok(
                    cands@[i2]@,
                ),
            forall|j: int|
                0 <= j < g@.len() ==> exists|i2: int|
                    0 <= i2 < i && (#[trigger] g@[j]).0@ == free_canon(cands@[i2]@) && g@[j].1
                        == classify(cands@[i2]@),
            forall|i2: int| 0 <= i2 < i ==> candidate_listed((#[trigger] cands@[i2])@, g@),
        decreases n - i,
    {
        let (key, grp) = cands[i].canonize_free();
        let ghost before = g@;
        let ghost keyv = key@;
        insert_entry(&mut g, key, grp);
        proof {
            let ii = i as int;
            assert forall|j: int| 0 <= j < g@.len() implies exists|i2: int|
                0 <= i2 < ii + 1 && (#[trigger] g@[j]).0@ == free_canon(cands@[i2]@) && g@[j].1
                    == classify(cands@[i2]@) by {
                if g@[j].0@ == keyv && g@[j].1 == grp {
                    assert(0 <= ii < ii + 1 && g@[j].0@ == free_canon(cands@[ii]@) && g@[j].1
                        == classify(cands@[ii]@));
                } else {
                    let j2 = choose|j2: int|
                        0 <= j2 < before.len() && (#[trigger] before[j2]).0@ == g@[j].0@
                            && before[j2].1 == g@[j].1 && before[j2].0@ != keyv;
                    let i2 = choose|i2: int|
                        0 <= i2 < ii && (#[trigger] before[j2]).0@ == free_canon(cands@[i2]@)
                            && before[j2].1 == classify(cands@[i2]@);
                }
            }
            assert forall|i2: int| 0 <= i2 < ii + 1 implies candidate_listed(
                (#[trigger] cands@[i2])@,
                g@,
            ) by {
                let jn = choose|j: int|
                    0 <= j < g@.len() && (#[trigger] g@[j]).0@ == keyv && g@[j].1 == grp;
                if i2 == ii {
                    assert(g@[jn].0@ == free_canon(cands@[ii]@) && g@[jn].1 == classify(
                        cands@[ii]@,
                    ));
                } else {
                    let j2 = choose|j: int|
                        0 <= j < before.len() && (#[trigger] before[j]).0@ == free_canon(
                            cands@[i2]@,
                        ) && before[j].1 == classify(cands@[i2]@);
                    if before[j2].0@ == keyv {
                        lemma_same_free_form_same_class(cands@[i2]@, cands@[ii]@);
                        assert(g@[jn].0@ == free_canon(cands@[i2]@) && g@[jn].1 == classify(
                            cands@[i2]@,
                        ));
                    } else {
                        let j3 = choose|j: int|
                            0 <= j < g@.len() && (#[trigger] g@[j]).0@ == before[j2].0@ && g@[j].1
                                == before[j2].1;
                        assert(g@[j3].0@ == free_canon(cands@[i2]@) && g@[j3].1 == classify(
                            cands@[i2]@,
                        ));
                    }
                }
            }
        }
        i = i + 1;
    }
    g
}

/// One growth step: every shape of the previous generation, grown by one
/// cell in every possible way, classified, and gathered into the next
/// generation's listing, keyed and deduplicated by free canonical form, in
/// ascending key order.
#[verifier::rlimit(50)]
pub fn next_generation(prev: &Vec<Polyomino>) -> (g: Vec<(Polyomino, PolyominoSymmetryGroup)>)
    requires
        forall|k: int|
            0 <= k < prev@.len() ==> grow_ok((#[trigger] prev@[k])@) && grow_span_ok(prev@[k]@),
    ensures
        gen_sorted(g@),
        forall|j: int|
            0 <= j < g@.len() ==> entry_from_candidate(#[trigger] g@[j], shape_views(prev@)),
        forall|c: Seq<(int, int)>|
            #[trigger] is_candidate(c, shape_views(prev@)) ==> candidate_listed(c, g@),
{
    let cands = collect_candidates(prev);
    let g = build_generation(&cands);
    proof {
        assert forall|j: int| 0 <= j < g@.len() implies entry_from_candidate(
            #[trigger] g@[j],
            shape_views(prev@),
        ) by {
            let i = choose|i: int|
                0 <= i < cands@.len() && (#[trigger] g@[j]).0@ == free_canon(cands@[i]@) && g@[j].1
                    == classify(cands@[i]@);
            assert(is_candidate(cands@[i]@, shape_views(prev@)));
        }
        assert forall|c: Seq<(int, int)>|
            #[trigger] is_candidate(c, shape_views(prev@)) implies candidate_listed(c, g@) by {
            let i = choose|i: int| 0 <= i < cands@.len() && (#[trigger] cands@[i])@ == c;
            assert(candidate_listed(cands@[i]@, g@));
        }
    }
    g
}

/// The first generation: the single-cell shape at the origin.
pub fn initial_generation() -> (g: Vec<Polyomino>)
    ensures
        g@.len() == 1,
        g@[0]@ == seq![(0int, 0int)],
{
    let mut cells: Vec<Coord> = Vec::new();
    cells.push(Coord(0, 0));
    let p = Polyomino(cells);
    proof {
        assert(p@ =~= seq![(0int, 0int)]);
    }
    let mut g: Vec<Polyomino> = Vec::new();
    g.push(p);
    g
}

/// The keys of a generation listing, in order: the input of the next growth
/// step.
pub fn generation_keys(g: &Vec<(Polyomino, PolyominoSymmetryGroup)>) -> (keys: Vec<Polyomino>)
    ensures
        keys@.len() == g@.len(),
        forall|i: int| 0 <= i < g@.len() ==> (#[trigger] keys@[i])@ == g@[i].0@,
{
    let n = g.len();
    let mut keys: Vec<Polyomino> = Vec::new();
    let mut i: usize = 0;
    while i < n
        invariant
            0 <= i <= n,
            n == g@.len(),
            keys@.len() == i,
            forall|j: int| 0 <= j < i ==> (#[trigger] keys@[j])@ == g@[j].0@,
        decreases n - i,
    {
        keys.push(g[i].0.clone());
        i = i + 1;
    }
    keys
}


/// The entry's key and class both stand somewhere in the listing.
spec fn entry_in(
    e: (Polyomino, PolyominoSymmetryGroup),
    g: Seq<(Polyomino, PolyominoSymmetryGroup)>,
) -> bool {
    exists|j2: int| 0 <= j2 < g.len() && e.0@ == (#[trigger] g[j2]).0@ && e.1 == g[j2].1
}

/// Two strictly sorted listings whose entries each appear in the other agree
/// position by position.
proof fn lemma_sorted_entries_unique(
    g1: Seq<(Polyomino, PolyominoSymmetryGroup)>,
    g2: Seq<(Polyomino, PolyominoSymmetryGroup)>,
)
    requires
        gen_sorted(g1),
        gen_sorted(g2),
        forall|j: int| 0 <= j < g1.len() ==> entry_in(#[trigger] g1[j], g2),
        forall|j: int| 0 <= j < g2.len() ==> entry_in(#[trigger] g2[j], g1),
    ensures
        g1.len() == g2.len(),
        forall|j: int|
            0 <= j < g1.len() ==> (#[trigger] g1[j]).0@ == (#[trigger] g2[j]).0@ && g1[j].1
                == g2[j].1,
    decreases g1.len(),
{
    if g1.len() == 0 {
        if g2.len() > 0 {
            assert(entry_in(g2[0], g1));
            let jw = choose|j2: int|
                0 <= j2 < g1.len() && (g2[0]).0@ == (#[trigger] g1[j2]).0@ && (g2[0]).1
                    == g1[j2].1;
            assert(false);
        }
    } else {
        assert(entry_in(g1[0], g2));
        let m1 = choose|j2: int|
            0 <= j2 < g2.len() && (g1[0]).0@ == (#[trigger] g2[j2]).0@ && (g1[0]).1 == g2[j2].1;
        assert(entry_in(g2[0], g1));
        let m2 = choose|j2: int|
            0 <= j2 < g1.len() && (g2[0]).0@ == (#[trigger] g1[j2]).0@ && (g2[0]).1 == g1[j2].1;
        assert(seq_lex_leq(g2[0].0@, g1[0].0@)) by {
            if m1 > 0 {
                assert(seq_lex_leq((g2[0]).0@, (g2[m1]).0@));
            } else {
                lemma_seq_lex_refl(g2[0].0@);
            }
        }
        assert(seq_lex_leq(g1[0].0@, g2[0].0@)) by {
            if m2 > 0 {
                assert(seq_lex_leq((g1[0]).0@, (g1[m2]).0@));
            } else {
                lemma_seq_lex_refl(g1[0].0@);
            }
        }
        lemma_seq_lex_antisym(g1[0].0@, g2[0].0@);
        assert(g1[0].1 == g2[0].1) by {
            if m1 != 0 {
                assert((g2[0]).0@ != (g2[m1]).0@);
            }
        }
        let t1 = g1.drop_first();
        let t2 = g2.drop_first();
        assert(forall|j: int| 0 <= j < t1.len() ==> #[trigger] t1[j] == g1[j + 1]);
        assert(forall|j: int| 0 <= j < t2.len() ==> #[trigger] t2[j] == g2[j + 1]);
        assert(gen_sorted(t1)) by {
            assert forall|i: int, j: int| 0 <= i < j < t1.len() implies seq_lex_leq(
                (#[trigger] t1[i]).0@,
                (#[trigger] t1[j]).0@,
            ) && t1[i].0@ != t1[j].0@ by {
                assert(t1[i] == g1[i + 1] && t1[j] == g1[j + 1]);
                assert(seq_lex_leq((g1[i + 1]).0@, (g1[j + 1]).0@) && (g1[i + 1]).0@ != (g1[j
                    + 1]).0@);
            }
        }
        assert(gen_sorted(t2)) by {
            assert forall|i: int, j: int| 0 <= i < j < t2.len() implies seq_lex_leq(
                (#[trigger] t2[i]).0@,
                (#[trigger] t2[j]).0@,
            ) && t2[i].0@ != t2[j].0@ by {
                assert(t2[i] == g2[i + 1] && t2[j] == g2[j + 1]);
                assert(seq_lex_leq((g2[i + 1]).0@, (g2[j + 1]).0@) && (g2[i + 1]).0@ != (g2[j
                    + 1]).0@);
            }
        }
        assert forall|j: int| 0 <= j < t1.len() implies entry_in(#[trigger] t1[j], t2) by {
            assert(t1[j] == g1[j + 1]);
            assert(entry_in(g1[j + 1], g2));
            let jm = choose|j2: int|
                0 <= j2 < g2.len() && (g1[j + 1]).0@ == (#[trigger] g2[j2]).0@ && (g1[j + 1]).1
                    == g2[j2].1;
            assert((g1[j + 1]).0@ != (g1[0]).0@);
            assert(jm != 0);
            assert(t2[jm - 1] == g2[jm]);
        }
        assert forall|j: int| 0 <= j < t2.len() implies entry_in(#[trigger] t2[j], t1) by {
            assert(t2[j] == g2[j + 1]);
            assert(entry_in(g2[j + 1], g1));
            let jm = choose|j2: int|
                0 <= j2 < g1.len() && (g2[j + 1]).0@ == (#[trigger] g1[j2]).0@ && (g2[j + 1]).1
                    == g1[j2].1;
            assert((g2[j + 1]).0@ != (g2[0]).0@);
            assert(jm != 0);
            assert(t1[jm - 1] == g1[jm]);
        }
        lemma_sorted_entries_unique(t1, t2);
        assert forall|j: int| 0 <= j < g1.len() implies (#[trigger] g1[j]).0@ == (
        #[trigger] g2[j]).0@ && g1[j].1 == g2[j].1 by {
            if j > 0 {
                assert(t1[j - 1] == g1[j] && t2[j - 1] == g2[j]);
                assert((t1[j - 1]).0@ == (t2[j - 1]).0@ && t1[j - 1].1 == t2[j - 1].1);
            }
        }
    }
}

/// Determinism of the growth step: any two listings that satisfy the whole
/// contract of `next_generation` for one previous generation agree entry by
/// entry — the same keys with the same classes in the same order.
#[verifier::rlimit(100)]
pub proof fn lemma_generation_deterministic(
    prev: Seq<Seq<(int, int)>>,
    g1: Seq<(Polyomino, PolyominoSymmetryGroup)>,
    g2: Seq<(Polyomino, PolyominoSymmetryGroup)>,
)
    requires
        gen_sorted(g1),
        gen_sorted(g2),
        forall|j: int| 0 <= j < g1.len() ==> entry_from_candidate(#[trigger] g1[j], prev),
        forall|j: int| 0 <= j < g2.len() ==> entry_from_candidate(#[trigger] g2[j], prev),
        forall|c: Seq<(int, int)>| #[trigger] is_candidate(c, prev) ==> candidate_listed(c, g1),
        forall|c: Seq<(int, int)>| #[trigger] is_candidate(c, prev) ==> candidate_listed(c, g2),
    ensures
        g1.len() == g2.len(),
        forall|j: int|
            0 <= j < g1.len() ==> (#[trigger] g1[j]).0@ == (#[trigger] g2[j]).0@ && g1[j].1
                == g2[j].1,
{
    assert forall|j: int| 0 <= j < g1.len() implies entry_in(#[trigger] g1[j], g2) by {
        let c = choose|c: Seq<(int, int)>|
            #[trigger] is_candidate(c, prev) && (g1[j]).0@ == free_canon(c) && (g1[j]).1
                == classify(c);
        assert(candidate_listed(c, g2));
        let j2 = choose|j2: int|
            0 <= j2 < g2.len() && (#[trigger] g2[j2]).0@ == free_canon(c) && g2[j2].1 == classify(
                c,
            );
        assert((g1[j]).0@ == (g2[j2]).0@ && (g1[j]).1 == g2[j2].1);
    }
    assert forall|j: int| 0 <= j < g2.len() implies entry_in(#[trigger] g2[j], g1) by {
        let c = choose|c: Seq<(int, int)>|
            #[trigger] is_candidate(c, prev) && (g2[j]).0@ == free_canon(c) && (g2[j]).1
                == classify(c);
        assert(candidate_listed(c, g1));
        let j2 = choose|j2: int|
            0 <= j2 < g1.len() && (#[trigger] g1[j2]).0@ == free_canon(c) && g1[j2].1 == classify(
                c,
            );
        assert((g2[j]).0@ == (g1[j2]).0@ && (g2[j]).1 == g1[j2].1);
    }
    lemma_sorted_entries_unique(g1, g2);
}

} // verus!
