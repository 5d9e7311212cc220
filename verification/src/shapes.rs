use vstd::prelude::*;
use vstd::relations::sorted_by;
use vstd::seq_lib::lemma_sorted_unique;
use vstd::seq_lib::lemma_multiset_commutative;
use crate::coords::{Coord, lex_leq, lex_lt, lex_leq_fn, rotate_pt, transpose_pt,
    lemma_lex_leq_total_ordering, coord_lt};

verus! {

broadcast use vstd::seq_lib::group_to_multiset_ensures;

/// One polyomino: the collection of its occupied cells.
#[derive(Debug)]
pub struct Polyomino(pub Vec<Coord>);

/// The grid points of a cell collection, as mathematical pairs.
pub open spec fn pts(cs: Seq<Coord>) -> Seq<(int, int)> {
    cs.map_values(|c: Coord| c@)
}

impl View for Polyomino {
    type V = Seq<(int, int)>;

    open spec fn view(&self) -> Seq<(int, int)> {
        pts(self.0@)
    }
}

/// Two cell collections with the same grid points are the same collection.
pub proof fn lemma_pts_injective(a: Seq<Coord>, b: Seq<Coord>)
    requires
        pts(a) == pts(b),
    ensures
        a == b,
{
    assert(pts(a).len() == a.len());
    assert(pts(b).len() == b.len());
    assert forall|i: int| 0 <= i < a.len() implies a[i] == b[i] by {
        assert(pts(a)[i] == pts(b)[i]);
        assert(a[i]@ == b[i]@);
        assert(a[i] == Coord(a[i].0, a[i].1));
        assert(b[i] == Coord(b[i].0, b[i].1));
    }
    assert(a =~= b);
}

impl Clone for Polyomino {
    /// A clone holds the same cells in the same order.
    fn clone(&self) -> (r: Self)
        ensures
            r@ == self@,
            r.0@ == self.0@,
    {
        let n = self.0.len();
        let mut v: Vec<Coord> = Vec::new();
        let mut i: usize = 0;
        while i < n
            invariant
                0 <= i <= n,
                v@ == self.0@.take(i as int),
            decreases n - i,
        {
            v.push(self.0[i]);
            proof {
                assert(v@ =~= self.0@.take(i + 1));
            }
            i = i + 1;
        }
        proof {
            assert(v@ =~= self.0@);
        }
        Polyomino(v)
    }
}

impl PartialEq for Polyomino {
    fn eq(&self, other: &Polyomino) -> (r: bool) {
        if self.0.len() != other.0.len() {
            return false;
        }
        let n = self.0.len();
        let mut i: usize = 0;
        while i < n
            invariant
                n == self.0.len() == other.0.len(),
                0 <= i <= n,
                forall|j: int| 0 <= j < i ==> self.0@[j] == other.0@[j],
            decreases n - i,
        {
            if self.0[i] != other.0[i] {
                return false;
            }
            i = i + 1;
        }
        proof {
            assert(self.0@ =~= other.0@);
        }
        true
    }
}

impl vstd::std_specs::cmp::PartialEqSpecImpl for Polyomino {
    open spec fn obeys_eq_spec() -> bool {
        true
    }

    open spec fn eq_spec(&self, other: &Polyomino) -> bool {
        self.0@ == other.0@
    }
}

impl Eq for Polyomino {

}

/// The least x coordinate among the points, or 0 when there are none.
pub open spec fn min_x(s: Seq<(int, int)>) -> int
    decreases s.len(),
{
    if s.len() == 0 {
        0
    } else if s.len() == 1 {
        s[0].0
    } else {
        let m = min_x(s.drop_first());
        if s[0].0 <= m {
            s[0].0
        } else {
            m
        }
    }
}

/// The least y coordinate among the points, or 0 when there are none.
pub open spec fn min_y(s: Seq<(int, int)>) -> int
    decreases s.len(),
{
    if s.len() == 0 {
        0
    } else if s.len() == 1 {
        s[0].1
    } else {
        let m = min_y(s.drop_first());
        if s[0].1 <= m {
            s[0].1
        } else {
            m
        }
    }
}

/// `min_x` is attained by some point and bounds every point from below.
pub proof fn lemma_min_x_props(s: Seq<(int, int)>)
    requires
        s.len() > 0,
    ensures
        exists|i: int| 0 <= i < s.len() && (#[trigger] s[i]).0 == min_x(s),
        forall|i: int| 0 <= i < s.len() ==> min_x(s) <= (#[trigger] s[i]).0,
    decreases s.len(),
{
    if s.len() == 1 {
        assert(s[0].0 == min_x(s));
    } else {
        let t = s.drop_first();
        lemma_min_x_props(t);
        assert(forall|i: int| 1 <= i < s.len() ==> s[i] == #[trigger] t[i - 1]);
        let j = choose|j: int| 0 <= j < t.len() && (#[trigger] t[j]).0 == min_x(t);
        if s[0].0 <= min_x(t) {
            assert(s[0].0 == min_x(s));
        } else {
            assert(s[j + 1].0 == min_x(s));
        }
        assert forall|i: int| 0 <= i < s.len() implies min_x(s) <= (#[trigger] s[i]).0 by {
            if i >= 1 {
                assert(min_x(t) <= t[i - 1].0);
            }
        }
    }
}

/// `min_y` is attained by some point and bounds every point from below.
pub proof fn lemma_min_y_props(s: Seq<(int, int)>)
    requires
        s.len() > 0,
    ensures
        exists|i: int| 0 <= i < s.len() && (#[trigger] s[i]).1 == min_y(s),
        forall|i: int| 0 <= i < s.len() ==> min_y(s) <= (#[trigger] s[i]).1,
    decreases s.len(),
{
    if s.len() == 1 {
        assert(s[0].1 == min_y(s));
    } else {
        let t = s.drop_first();
        lemma_min_y_props(t);
        assert(forall|i: int| 1 <= i < s.len() ==> s[i] == #[trigger] t[i - 1]);
        let j = choose|j: int| 0 <= j < t.len() && (#[trigger] t[j]).1 == min_y(t);
        if s[0].1 <= min_y(t) {
            assert(s[0].1 == min_y(s));
        } else {
            assert(s[j + 1].1 == min_y(s));
        }
        assert forall|i: int| 0 <= i < s.len() implies min_y(s) <= (#[trigger] s[i]).1 by {
            if i >= 1 {
                assert(min_y(t) <= t[i - 1].1);
            }
        }
    }
}

/// Every point shifted by the same offset.
pub open spec fn translate_pts(s: Seq<(int, int)>, dx: int, dy: int) -> Seq<(int, int)> {
    s.map_values(|c: (int, int)| (c.0 + dx, c.1 + dy))
}

/// Every point turned a quarter about the origin.
pub open spec fn rotate_pts(s: Seq<(int, int)>) -> Seq<(int, int)> {
    s.map_values(|c: (int, int)| rotate_pt(c))
}

/// Every point reflected across the main diagonal.
pub open spec fn transpose_pts(s: Seq<(int, int)>) -> Seq<(int, int)> {
    s.map_values(|c: (int, int)| transpose_pt(c))
}

/// The fixed canonical form: translate the least x and least y to 0, then
/// sort the points lexicographically.
pub open spec fn fixed_canon(s: Seq<(int, int)>) -> Seq<(int, int)> {
    translate_pts(s, -min_x(s), -min_y(s)).sort_by(lex_leq_fn())
}

/// Every pairwise coordinate difference fits the machine integer type, so
/// translating to the origin cannot overflow.
pub open spec fn span_ok(s: Seq<(int, int)>) -> bool {
    forall|i: int, j: int|
        #![trigger s[i], s[j]]
        0 <= i < s.len() && 0 <= j < s.len() ==> s[i].0 - s[j].0 <= i32::MAX as int && s[i].1
            - s[j].1 <= i32::MAX as int
}

/// No coordinate sits at the least machine integer, so each can be negated.
pub open spec fn neg_ok(s: Seq<(int, int)>) -> bool {
    forall|i: int|
        0 <= i < s.len() ==> (#[trigger] s[i]).0 > i32::MIN as int && s[i].1 > i32::MIN as int
}

/// Inserting into a sequence inserts into its multiset of elements.
proof fn lemma_insert_to_multiset<A>(s: Seq<A>, k: int, a: A)
    requires
        0 <= k <= s.len(),
    ensures
        s.insert(k, a).to_multiset() == s.to_multiset().insert(a),
{
    broadcast use vstd::multiset::group_multiset_axioms;

    let pre = s.subrange(0, k);
    let post = s.subrange(k, s.len() as int);
    assert(s.insert(k, a) == pre.push(a) + post);
    assert(s =~= pre + post);
    lemma_multiset_commutative(pre.push(a), post);
    lemma_multiset_commutative(pre, post);
    assert(pre.push(a).to_multiset() =~= pre.to_multiset().insert(a));
    assert(s.insert(k, a).to_multiset() =~= pre.to_multiset().add(post.to_multiset()).insert(a));
    assert(s.to_multiset() =~= pre.to_multiset().add(post.to_multiset()));
}

/// Insert one cell into a lexicographically sorted cell vector, keeping it
/// sorted; used by `canonize_fixed` for the final ordering pass.
fn sorted_insert(v: &mut Vec<Coord>, c: Coord)
    requires
        sorted_by(pts(old(v)@), lex_leq_fn()),
        old(v)@.len() < usize::MAX,
    ensures
        sorted_by(pts(final(v)@), lex_leq_fn()),
        pts(final(v)@).to_multiset() == pts(old(v)@).to_multiset().insert(c@),
        final(v)@.len() == old(v)@.len() + 1,
{
    let ghost orig = v@;
    proof {
        assert forall|i: int, j: int| 0 <= i < j < orig.len() implies lex_leq(
            pts(orig)[i],
            pts(orig)[j],
        ) by {
            assert(lex_leq_fn()(pts(orig)[i], pts(orig)[j]));
        }
    }
    let mut k: usize = 0;
    while k < v.len() && !coord_lt(c, v[k])
        invariant
            v@ == orig,
            0 <= k <= v@.len(),
            forall|j: int| 0 <= j < k ==> !lex_lt(c@, #[trigger] pts(v@)[j]),
        decreases v@.len() - k,
    {
        proof {
            assert(pts(v@)[k as int] == v@[k as int]@);
        }
        k = k + 1;
    }
    let ghost kk = k as int;
    v.insert(k, c);
    proof {
        assert(v@ == orig.insert(kk, c));
        orig.insert_ensures(kk, c);
        pts(orig).insert_ensures(kk, c@);
        assert forall|i: int| 0 <= i < pts(v@).len() implies #[trigger] pts(v@)[i] == pts(
            orig,
        ).insert(kk, c@)[i] by {
            if i < kk {
                assert(v@[i] == orig[i]);
            } else if i == kk {
                assert(v@[i] == c);
            } else {
                assert(v@[i] == orig[i - 1]);
            }
        }
        assert(pts(v@) =~= pts(orig).insert(kk, c@));
        lemma_insert_to_multiset(pts(orig), kk, c@);
        assert forall|i: int, j: int| 0 <= i < j < pts(v@).len() implies lex_leq_fn()(
            pts(v@)[i],
            pts(v@)[j],
        ) by {
            let a = pts(v@)[i];
            let b = pts(v@)[j];
            if j < kk {
                assert(lex_leq(pts(orig)[i], pts(orig)[j]));
            } else if i < kk && j == kk {
                assert(!lex_lt(c@, pts(orig)[i]));
            } else if i < kk && j > kk {
                assert(lex_leq(pts(orig)[i], pts(orig)[j - 1]));
            } else if i == kk && j > kk {
                // at loop exit either k hit the end or c is below the cell at k
                assert(lex_lt(c@, pts(orig)[kk]));
                if j - 1 > kk {
                    assert(lex_leq(pts(orig)[kk], pts(orig)[j - 1]));
                }
            } else {
                assert(lex_leq(pts(orig)[i - 1], pts(orig)[j - 1]));
            }
            assert(lex_leq(a, b));
        }
    }
}

/// Sequences with the same multiset of points have the same least x and y.
pub proof fn lemma_min_multiset(a: Seq<(int, int)>, b: Seq<(int, int)>)
    requires
        a.to_multiset() == b.to_multiset(),
    ensures
        min_x(a) == min_x(b),
        min_y(a) == min_y(b),
{
    assert(a.len() == a.to_multiset().len());
    assert(b.len() == b.to_multiset().len());
    if a.len() == 0 {
    } else {
        lemma_min_x_props(a);
        lemma_min_x_props(b);
        lemma_min_y_props(a);
        lemma_min_y_props(b);
        let ia = choose|i: int| 0 <= i < a.len() && (#[trigger] a[i]).0 == min_x(a);
        assert(a.contains(a[ia]));
        assert(a.to_multiset().count(a[ia]) > 0);
        assert(b.to_multiset().count(a[ia]) > 0);
        assert(b.contains(a[ia]));
        let ja = choose|j: int| 0 <= j < b.len() && b[j] == a[ia];
        assert(min_x(b) <= min_x(a));
        let ib = choose|i: int| 0 <= i < b.len() && (#[trigger] b[i]).0 == min_x(b);
        assert(b.contains(b[ib]));
        assert(b.to_multiset().count(b[ib]) > 0);
        assert(a.to_multiset().count(b[ib]) > 0);
        assert(a.contains(b[ib]));
        let jb = choose|j: int| 0 <= j < a.len() && a[j] == b[ib];
        assert(min_x(a) <= min_x(b));
        let ka = choose|i: int| 0 <= i < a.len() && (#[trigger] a[i]).1 == min_y(a);
        assert(a.contains(a[ka]));
        assert(a.to_multiset().count(a[ka]) > 0);
        assert(b.to_multiset().count(a[ka]) > 0);
        assert(b.contains(a[ka]));
        let la = choose|j: int| 0 <= j < b.len() && b[j] == a[ka];
        assert(min_y(b) <= min_y(a));
        let kb = choose|i: int| 0 <= i < b.len() && (#[trigger] b[i]).1 == min_y(b);
        assert(b.contains(b[kb]));
        assert(b.to_multiset().count(b[kb]) > 0);
        assert(a.to_multiset().count(b[kb]) > 0);
        assert(a.contains(b[kb]));
        let lb = choose|j: int| 0 <= j < a.len() && a[j] == b[kb];
        assert(min_y(a) <= min_y(b));
    }
}

/// Mapping a function over sequences with equal multisets of elements gives
/// sequences with equal multisets of images.
pub proof fn lemma_map_values_multiset<A, B>(a: Seq<A>, b: Seq<A>, f: spec_fn(A) -> B)
    requires
        a.to_multiset() == b.to_multiset(),
    ensures
        a.map_values(f).to_multiset() == b.map_values(f).to_multiset(),
    decreases a.len(),
{
    broadcast use vstd::multiset::group_multiset_axioms;

    assert(a.len() == a.to_multiset().len());
    assert(b.len() == b.to_multiset().len());
    if a.len() == 0 {
        assert(a.map_values(f) =~= b.map_values(f));
    } else {
        let x = a[0];
        assert(a.contains(x));
        assert(a.to_multiset().count(x) > 0);
        assert(b.to_multiset().count(x) > 0);
        assert(b.contains(x));
        let i = choose|i: int| 0 <= i < b.len() && b[i] == x;
        assert(a.remove(0).to_multiset() == a.to_multiset().remove(x));
        assert(b.remove(i).to_multiset() == b.to_multiset().remove(x));
        lemma_map_values_multiset(a.remove(0), b.remove(i), f);
        a.remove_ensures(0);
        b.remove_ensures(i);
        assert(a.remove(0).map_values(f) =~= a.map_values(f).remove(0));
        assert(b.remove(i).map_values(f) =~= b.map_values(f).remove(i));
        let ma = a.map_values(f).to_multiset();
        let mb = b.map_values(f).to_multiset();
        assert(a.map_values(f).remove(0).to_multiset() == ma.remove(f(x))) by {
            assert(a.map_values(f)[0] == f(x));
        }
        assert(b.map_values(f).remove(i).to_multiset() == mb.remove(f(x))) by {
            assert(b.map_values(f)[i] == f(x));
        }
        assert(ma.remove(f(x)) == mb.remove(f(x)));
        assert(a.map_values(f).contains(f(x))) by {
            assert(a.map_values(f)[0] == f(x));
        }
        assert(b.map_values(f).contains(f(x))) by {
            assert(b.map_values(f)[i] == f(x));
        }
        assert(ma.count(f(x)) > 0);
        assert(mb.count(f(x)) > 0);
        assert forall|y: B| ma.count(y) == mb.count(y) by {
            if y == f(x) {
                assert(ma.remove(f(x)).count(y) == ma.count(y) - 1);
                assert(mb.remove(f(x)).count(y) == mb.count(y) - 1);
            } else {
                assert(ma.remove(f(x)).count(y) == ma.count(y));
                assert(mb.remove(f(x)).count(y) == mb.count(y));
            }
        }
        assert(ma =~= mb);
    }
}

/// Translating moves the least x and least y by the offset.
pub proof fn lemma_min_translate(s: Seq<(int, int)>, dx: int, dy: int)
    requires
        s.len() > 0,
    ensures
        min_x(translate_pts(s, dx, dy)) == min_x(s) + dx,
        min_y(translate_pts(s, dx, dy)) == min_y(s) + dy,
    decreases s.len(),
{
    let t = translate_pts(s, dx, dy);
    assert(t[0] == (s[0].0 + dx, s[0].1 + dy));
    if s.len() > 1 {
        lemma_min_translate(s.drop_first(), dx, dy);
        assert(t.drop_first() =~= translate_pts(s.drop_first(), dx, dy));
    }
}

/// The fixed canonical form of the empty point sequence is itself.
pub proof fn lemma_fixed_canon_empty(s: Seq<(int, int)>)
    requires
        s.len() == 0,
    ensures
        fixed_canon(s) == s,
{
    lemma_lex_leq_total_ordering();
    assert(translate_pts(s, 0, 0) =~= s);
    s.lemma_sort_by_ensures(lex_leq_fn());
    assert(fixed_canon(s).to_multiset() == s.to_multiset());
    assert(s.len() == s.to_multiset().len());
    assert(fixed_canon(s).len() == fixed_canon(s).to_multiset().len());
    assert(fixed_canon(s) =~= s);
}

/// The fixed canonical form does not depend on where the shape sits on the
/// grid: translating first changes nothing.
pub proof fn lemma_fixed_canon_translate(s: Seq<(int, int)>, dx: int, dy: int)
    ensures
        fixed_canon(translate_pts(s, dx, dy)) == fixed_canon(s),
{
    let t = translate_pts(s, dx, dy);
    if s.len() == 0 {
        assert(t =~= s);
    } else {
        lemma_min_translate(s, dx, dy);
        assert(translate_pts(t, -min_x(t), -min_y(t)) =~= translate_pts(s, -min_x(s), -min_y(s)));
    }
}

/// The fixed canonical form does not depend on the order in which the cells
/// are listed: sequences with the same multiset of points canonize alike.
pub proof fn lemma_fixed_canon_multiset(a: Seq<(int, int)>, b: Seq<(int, int)>)
    requires
        a.to_multiset() == b.to_multiset(),
    ensures
        fixed_canon(a) == fixed_canon(b),
{
    lemma_lex_leq_total_ordering();
    lemma_min_multiset(a, b);
    let sh = |c: (int, int)| (c.0 - min_x(a), c.1 - min_y(a));
    lemma_map_values_multiset(a, b, sh);
    assert(translate_pts(a, -min_x(a), -min_y(a)) =~= a.map_values(sh));
    assert(translate_pts(b, -min_x(b), -min_y(b)) =~= b.map_values(sh));
    let ta = translate_pts(a, -min_x(a), -min_y(a));
    let tb = translate_pts(b, -min_x(b), -min_y(b));
    ta.lemma_sort_by_ensures(lex_leq_fn());
    tb.lemma_sort_by_ensures(lex_leq_fn());
    assert(fixed_canon(a).to_multiset() == fixed_canon(b).to_multiset());
    lemma_sorted_unique(fixed_canon(a), fixed_canon(b), lex_leq_fn());
}

/// Canonizing a second time changes nothing.
pub proof fn lemma_canonize_fixed_idempotent(s: Seq<(int, int)>)
    ensures
        fixed_canon(fixed_canon(s)) == fixed_canon(s),
{
    lemma_lex_leq_total_ordering();
    if s.len() == 0 {
        lemma_fixed_canon_empty(s);
    } else {
        let t = translate_pts(s, -min_x(s), -min_y(s));
        let f = fixed_canon(s);
        t.lemma_sort_by_ensures(lex_leq_fn());
        assert(f.to_multiset() == t.to_multiset());
        assert(t.len() == t.to_multiset().len());
        assert(f.len() == f.to_multiset().len());
        lemma_min_multiset(f, t);
        lemma_min_translate(s, -min_x(s), -min_y(s));
        assert(min_x(f) == 0 && min_y(f) == 0);
        assert(translate_pts(f, 0, 0) =~= f);
        assert(fixed_canon(f) == f.sort_by(lex_leq_fn()));
        f.lemma_sort_by_ensures(lex_leq_fn());
        lemma_sorted_unique(fixed_canon(f), f, lex_leq_fn());
    }
}

/// The fixed canonical form starts at the origin and lists its cells in
/// ascending lexicographic order; distinct cells stay distinct and the order
/// is then strict.
pub proof fn lemma_canonize_fixed_normalized(s: Seq<(int, int)>)
    ensures
        s.len() > 0 ==> min_x(fixed_canon(s)) == 0 && min_y(fixed_canon(s)) == 0,
        sorted_by(fixed_canon(s), lex_leq_fn()),
        s.no_duplicates() ==> fixed_canon(s).no_duplicates(),
        s.no_duplicates() ==> forall|i: int, j: int|
            0 <= i < j < fixed_canon(s).len() ==> lex_lt(
                #[trigger] fixed_canon(s)[i],
                #[trigger] fixed_canon(s)[j],
            ),
{
    lemma_lex_leq_total_ordering();
    let t = translate_pts(s, -min_x(s), -min_y(s));
    let f = fixed_canon(s);
    t.lemma_sort_by_ensures(lex_leq_fn());
    if s.len() > 0 {
        lemma_min_multiset(f, t);
        lemma_min_translate(s, -min_x(s), -min_y(s));
    }
    if s.no_duplicates() {
        assert(t.no_duplicates()) by {
            assert forall|i: int, j: int| 0 <= i < j < t.len() implies t[i] != t[j] by {
                assert(s[i] != s[j]);
                assert(t[i] == (s[i].0 - min_x(s), s[i].1 - min_y(s)));
                assert(t[j] == (s[j].0 - min_x(s), s[j].1 - min_y(s)));
            }
        }
        t.lemma_multiset_has_no_duplicates();
        f.lemma_multiset_has_no_duplicates_conv();
        assert(f.no_duplicates());
        assert forall|i: int, j: int| 0 <= i < j < f.len() implies lex_lt(
            #[trigger] f[i],
            #[trigger] f[j],
        ) by {
            assert(lex_leq_fn()(f[i], f[j]));
            assert(f[i] != f[j]);
        }
    }
}

/// A statement of `fixed_canon` equality survives rotating both shapes.
pub proof fn lemma_fixed_canon_propagate_rotate(a: Seq<(int, int)>, b: Seq<(int, int)>)
    requires
        fixed_canon(a) == fixed_canon(b),
    ensures
        fixed_canon(rotate_pts(a)) == fixed_canon(rotate_pts(b)),
{
    lemma_lex_leq_total_ordering();
    if a.len() == 0 || b.len() == 0 {
        lemma_lengths_from_canon(a, b);
        assert(rotate_pts(a) =~= rotate_pts(b));
    } else {
        let ta = translate_pts(a, -min_x(a), -min_y(a));
        let tb = translate_pts(b, -min_x(b), -min_y(b));
        ta.lemma_sort_by_ensures(lex_leq_fn());
        tb.lemma_sort_by_ensures(lex_leq_fn());
        assert(ta.to_multiset() == tb.to_multiset());
        lemma_map_values_multiset(ta, tb, |c: (int, int)| rotate_pt(c));
        assert(rotate_pts(ta).to_multiset() == rotate_pts(tb).to_multiset());
        assert(rotate_pts(ta) =~= translate_pts(rotate_pts(a), min_y(a), -min_x(a)));
        assert(rotate_pts(tb) =~= translate_pts(rotate_pts(b), min_y(b), -min_x(b)));
        lemma_fixed_canon_multiset(
            translate_pts(rotate_pts(a), min_y(a), -min_x(a)),
            translate_pts(rotate_pts(b), min_y(b), -min_x(b)),
        );
        lemma_fixed_canon_translate(rotate_pts(a), min_y(a), -min_x(a));
        lemma_fixed_canon_translate(rotate_pts(b), min_y(b), -min_x(b));
    }
}

/// A statement of `fixed_canon` equality survives transposing both shapes.
pub proof fn lemma_fixed_canon_propagate_transpose(a: Seq<(int, int)>, b: Seq<(int, int)>)
    requires
        fixed_canon(a) == fixed_canon(b),
    ensures
        fixed_canon(transpose_pts(a)) == fixed_canon(transpose_pts(b)),
{
    lemma_lex_leq_total_ordering();
    if a.len() == 0 || b.len() == 0 {
        lemma_lengths_from_canon(a, b);
        assert(transpose_pts(a) =~= transpose_pts(b));
    } else {
        let ta = translate_pts(a, -min_x(a), -min_y(a));
        let tb = translate_pts(b, -min_x(b), -min_y(b));
        ta.lemma_sort_by_ensures(lex_leq_fn());
        tb.lemma_sort_by_ensures(lex_leq_fn());
        assert(ta.to_multiset() == tb.to_multiset());
        lemma_map_values_multiset(ta, tb, |c: (int, int)| transpose_pt(c));
        assert(transpose_pts(ta).to_multiset() == transpose_pts(tb).to_multiset());
        assert(transpose_pts(ta) =~= translate_pts(transpose_pts(a), -min_y(a), -min_x(a)));
        assert(transpose_pts(tb) =~= translate_pts(transpose_pts(b), -min_y(b), -min_x(b)));
        lemma_fixed_canon_multiset(
            translate_pts(transpose_pts(a), -min_y(a), -min_x(a)),
            translate_pts(transpose_pts(b), -min_y(b), -min_x(b)),
        );
        lemma_fixed_canon_translate(transpose_pts(a), -min_y(a), -min_x(a));
        lemma_fixed_canon_translate(transpose_pts(b), -min_y(b), -min_x(b));
    }
}

/// Shapes with equal fixed canonical forms have equally many cells.
proof fn lemma_lengths_from_canon(a: Seq<(int, int)>, b: Seq<(int, int)>)
    requires
        fixed_canon(a) == fixed_canon(b),
    ensures
        a.len() == b.len(),
{
    lemma_lex_leq_total_ordering();
    let ta = translate_pts(a, -min_x(a), -min_y(a));
    let tb = translate_pts(b, -min_x(b), -min_y(b));
    ta.lemma_sort_by_ensures(lex_leq_fn());
    tb.lemma_sort_by_ensures(lex_leq_fn());
    assert(ta.len() == ta.to_multiset().len());
    assert(tb.len() == tb.to_multiset().len());
    assert(fixed_canon(a).len() == fixed_canon(a).to_multiset().len());
    assert(fixed_canon(b).len() == fixed_canon(b).to_multiset().len());
}

/// Rotating every cell four times is the identity on point sequences.
pub proof fn lemma_rotate_four_identity(s: Seq<(int, int)>)
    ensures
        rotate_pts(rotate_pts(rotate_pts(rotate_pts(s)))) == s,
{
    let r1 = rotate_pts(s);
    let r2 = rotate_pts(r1);
    let r3 = rotate_pts(r2);
    let r4 = rotate_pts(r3);
    assert forall|i: int| 0 <= i < s.len() implies #[trigger] r4[i] == s[i] by {
        assert(r1[i] == rotate_pt(s[i]));
        assert(r2[i] == rotate_pt(r1[i]));
        assert(r3[i] == rotate_pt(r2[i]));
        assert(r4[i] == rotate_pt(r3[i]));
    }
    assert(r4 =~= s);
}

/// Rotating a canonical form through all four quarters and re-canonizing
/// gives back the same canonical form.
pub proof fn lemma_canonize_fixed_rotation_closure(s: Seq<(int, int)>)
    ensures
        fixed_canon(rotate_pts(rotate_pts(rotate_pts(rotate_pts(fixed_canon(s)))))) == fixed_canon(
            s,
        ),
{
    lemma_rotate_four_identity(fixed_canon(s));
    lemma_canonize_fixed_idempotent(s);
}

/// A statement of `fixed_canon` equality also survives undoing one rotation.
pub proof fn lemma_fixed_canon_cancel_rotate(a: Seq<(int, int)>, b: Seq<(int, int)>)
    requires
        fixed_canon(rotate_pts(a)) == fixed_canon(rotate_pts(b)),
    ensures
        fixed_canon(a) == fixed_canon(b),
{
    lemma_fixed_canon_propagate_rotate(rotate_pts(a), rotate_pts(b));
    lemma_fixed_canon_propagate_rotate(rotate_pts(rotate_pts(a)), rotate_pts(rotate_pts(b)));
    lemma_fixed_canon_propagate_rotate(
        rotate_pts(rotate_pts(rotate_pts(a))),
        rotate_pts(rotate_pts(rotate_pts(b))),
    );
    lemma_rotate_four_identity(a);
    lemma_rotate_four_identity(b);
}

impl Polyomino {
    /// The fixed canonical form of this shape: least x and least y brought to
    /// 0, cells in ascending lexicographic order.
    pub fn canonize_fixed(&self) -> (r: Polyomino)
        requires
            span_ok(self@),
        ensures
            r@ == fixed_canon(self@),
    {
        proof {
            lemma_lex_leq_total_ordering();
        }
        let n = self.0.len();
        if n == 0 {
            proof {
                assert(self@.len() == 0);
                assert(min_x(self@) == 0 && min_y(self@) == 0);
                assert(translate_pts(self@, 0, 0) =~= self@);
                self@.lemma_sort_by_ensures(lex_leq_fn());
                assert(fixed_canon(self@).to_multiset() == self@.to_multiset());
                assert(self@.to_multiset().len() == 0);
                assert(fixed_canon(self@).len() == 0);
                assert(fixed_canon(self@) =~= pts(Seq::<Coord>::empty()));
            }
            let r = Polyomino(Vec::new());
            proof {
                assert(r.0@ =~= Seq::<Coord>::empty());
            }
            return r;
        }
        let mut mx: i32 = self.0[0].0;
        let mut my: i32 = self.0[0].1;
        proof {
            assert(self@[0] == self.0@[0]@);
        }
        let mut i: usize = 1;
        while i < n
            invariant
                1 <= i <= n,
                exists|j: int| 0 <= j < i && (#[trigger] self@[j]).0 == mx as int,
                exists|j: int| 0 <= j < i && (#[trigger] self@[j]).1 == my as int,
                forall|j: int| 0 <= j < i ==> mx as int <= (#[trigger] self@[j]).0,
                forall|j: int| 0 <= j < i ==> my as int <= (#[trigger] self@[j]).1,
            decreases n - i,
        {
            proof {
                assert(self@[i as int] == self.0@[i as int]@);
            }
            let cx = self.0[i].0;
            let cy = self.0[i].1;
            if cx < mx {
                mx = cx;
            }
            if cy < my {
                my = cy;
            }
            proof {
                assert(self@[i as int].0 == cx as int && self@[i as int].1 == cy as int);
            }
            i = i + 1;
        }
        proof {
            lemma_min_x_props(self@);
            lemma_min_y_props(self@);
            let ax = choose|j: int| 0 <= j < self@.len() && (#[trigger] self@[j]).0 == min_x(self@);
            let bx = choose|j: int| 0 <= j < n && (#[trigger] self@[j]).0 == mx as int;
            assert(mx as int == min_x(self@));
            let ay = choose|j: int| 0 <= j < self@.len() && (#[trigger] self@[j]).1 == min_y(self@);
            let by = choose|j: int| 0 <= j < n && (#[trigger] self@[j]).1 == my as int;
            assert(my as int == min_y(self@));
        }
        let ghost target = translate_pts(self@, -min_x(self@), -min_y(self@));
        let mut t: Vec<Coord> = Vec::new();
        let mut j: usize = 0;
        while j < n
            invariant
                0 <= j <= n,
                t@.len() == j,
                forall|l: int| 0 <= l < j ==> (#[trigger] t@[l])@ == target[l],
            decreases n - j,
        {
            proof {
                assert(self@[j as int] == self.0@[j as int]@);
                let jj = j as int;
                let wx = choose|l: int|
                    0 <= l < self@.len() && (#[trigger] self@[l]).0 == min_x(self@);
                assert(self@[jj].0 - self@[wx].0 <= i32::MAX as int);
                let wy = choose|l: int|
                    0 <= l < self@.len() && (#[trigger] self@[l]).1 == min_y(self@);
                assert(self@[jj].1 - self@[wy].1 <= i32::MAX as int);
                assert(target[jj] == (self@[jj].0 - min_x(self@), self@[jj].1 - min_y(self@)));
            }
            let cx = self.0[j].0;
            let cy = self.0[j].1;
            t.push(Coord(cx - mx, cy - my));
            j = j + 1;
        }
        proof {
            assert(pts(t@) =~= target);
        }
        let mut out: Vec<Coord> = Vec::new();
        let mut l: usize = 0;
        while l < n
            invariant
                0 <= l <= n,
                n == t@.len(),
                sorted_by(pts(out@), lex_leq_fn()),
                out@.len() == l,
                pts(out@).to_multiset() == pts(t@).take(l as int).to_multiset(),
            decreases n - l,
        {
            let c = t[l];
            proof {
                assert(pts(t@).take(l + 1) =~= pts(t@).take(l as int).push(pts(t@)[l as int]));
                assert(pts(t@)[l as int] == c@);
            }
            sorted_insert(&mut out, c);
            l = l + 1;
        }
        proof {
            assert(pts(t@).take(n as int) =~= pts(t@));
            target.lemma_sort_by_ensures(lex_leq_fn());
            assert(pts(out@).to_multiset() == fixed_canon(self@).to_multiset());
            lemma_sorted_unique(pts(out@), fixed_canon(self@), lex_leq_fn());
            assert(pts(out@) == fixed_canon(self@));
        }
        Polyomino(out)
    }

    /// The image of this shape under a quarter rotation of every cell,
    /// brought to fixed canonical form.
    pub fn rotate(&self) -> (r: Polyomino)
        requires
            span_ok(self@),
            neg_ok(self@),
        ensures
            r@ == fixed_canon(rotate_pts(self@)),
    {
        let raw = self.rotate_raw();
        raw.canonize_fixed()
    }

    /// The image of this shape under reflection of every cell across the main
    /// diagonal, brought to fixed canonical form.
    pub fn transpose(&self) -> (r: Polyomino)
        requires
            span_ok(self@),
        ensures
            r@ == fixed_canon(transpose_pts(self@)),
    {
        let raw = self.transpose_raw();
        raw.canonize_fixed()
    }

    /// Every cell turned a quarter about the origin, without canonization.
    pub(crate) fn rotate_raw(&self) -> (r: Polyomino)
        requires
            neg_ok(self@),
        ensures
            r@ == rotate_pts(self@),
            span_ok(self@) ==> span_ok(r@),
            neg_ok(r@),
    {
        let n = self.0.len();
        let mut v: Vec<Coord> = Vec::new();
        let mut i: usize = 0;
        while i < n
            invariant
                0 <= i <= n,
                v@.len() == i,
                forall|j: int| 0 <= j < i ==> (#[trigger] v@[j])@ == rotate_pt(self@[j]),
            decreases n - i,
        {
            proof {
                assert(self@[i as int] == self.0@[i as int]@);
            }
            let c = self.0[i];
            v.push(Coord(-c.1, c.0));
            i = i + 1;
        }
        let r = Polyomino(v);
        proof {
            assert forall|j: int| 0 <= j < r@.len() implies #[trigger] r@[j] == rotate_pt(
                self@[j],
            ) by {
                assert(r@[j] == v@[j]@);
            }
            assert(r@ =~= rotate_pts(self@));
            assert forall|j: int|
                0 <= j < r@.len() implies (#[trigger] r@[j]).0 > i32::MIN as int && r@[j].1
                > i32::MIN as int by {
                assert(r@[j] == rotate_pt(self@[j]));
                assert(self@[j].1 <= i32::MAX as int);
            }
            if span_ok(self@) {
                assert forall|i2: int, j2: int|
                    #![trigger r@[i2], r@[j2]]
                    0 <= i2 < r@.len() && 0 <= j2 < r@.len() implies r@[i2].0 - r@[j2].0
                    <= i32::MAX as int && r@[i2].1 - r@[j2].1 <= i32::MAX as int by {
                    assert(r@[i2] == rotate_pt(self@[i2]));
                    assert(r@[j2] == rotate_pt(self@[j2]));
                    assert(self@[j2].1 - self@[i2].1 <= i32::MAX as int);
                    assert(self@[i2].0 - self@[j2].0 <= i32::MAX as int);
                }
            }
        }
        r
    }

    /// Every cell reflected across the main diagonal, without canonization.
    pub(crate) fn transpose_raw(&self) -> (r: Polyomino)
        ensures
            r@ == transpose_pts(self@),
            span_ok(self@) ==> span_ok(r@),
            neg_ok(self@) ==> neg_ok(r@),
    {
        let n = self.0.len();
        let mut v: Vec<Coord> = Vec::new();
        let mut i: usize = 0;
        while i < n
            invariant
                0 <= i <= n,
                v@.len() == i,
                forall|j: int| 0 <= j < i ==> (#[trigger] v@[j])@ == transpose_pt(self@[j]),
            decreases n - i,
        {
            proof {
                assert(self@[i as int] == self.0@[i as int]@);
            }
            let c = self.0[i];
            v.push(Coord(c.1, c.0));
            i = i + 1;
        }
        let r = Polyomino(v);
        proof {
            assert forall|j: int| 0 <= j < r@.len() implies #[trigger] r@[j] == transpose_pt(
                self@[j],
            ) by {
                assert(r@[j] == v@[j]@);
            }
            assert(r@ =~= transpose_pts(self@));
            if span_ok(self@) {
                assert forall|i2: int, j2: int|
                    #![trigger r@[i2], r@[j2]]
                    0 <= i2 < r@.len() && 0 <= j2 < r@.len() implies r@[i2].0 - r@[j2].0
                    <= i32::MAX as int && r@[i2].1 - r@[j2].1 <= i32::MAX as int by {
                    assert(r@[i2] == transpose_pt(self@[i2]));
                    assert(r@[j2] == transpose_pt(self@[j2]));
                    assert(self@[i2].1 - self@[j2].1 <= i32::MAX as int);
                    assert(self@[i2].0 - self@[j2].0 <= i32::MAX as int);
                }
            }
            if neg_ok(self@) {
                assert forall|j: int|
                    0 <= j < r@.len() implies (#[trigger] r@[j]).0 > i32::MIN as int && r@[j].1
                    > i32::MIN as int by {
                    assert(r@[j] == transpose_pt(self@[j]));
                }
            }
        }
        r
    }
}

} // verus!
