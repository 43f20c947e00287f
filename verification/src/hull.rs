//! Convex hull of a component's pixels (Andrew's monotone chain), computed
//! exactly on integer coordinates.

use vstd::prelude::*;

verus! {

/// A point with integer coordinates.
pub type Pt = (i64, i64);

/// Lexicographic order: by `x`, then by `y`.
pub open spec fn lex_lt(a: Pt, b: Pt) -> bool {
    a.0 < b.0 || (a.0 == b.0 && a.1 < b.1)
}

/// Twice the signed area of the triangle `o`, `a`, `b`: positive when `b`
/// lies to the left of the ray from `o` through `a`.
pub open spec fn cross(o: Pt, a: Pt, b: Pt) -> int {
    (a.0 - o.0) * (b.1 - o.1) - (a.1 - o.1) * (b.0 - o.0)
}

/// The magnitude of a difference of two `i64` values.
fn magnitude(v: i128) -> (m: u128)
    requires
        -0xffff_ffff_ffff_ffff <= v <= 0xffff_ffff_ffff_ffff,
    ensures
        m == (if v < 0 {
            -v
        } else {
            v as int
        }),
        m <= 0xffff_ffff_ffff_ffff,
{
    if v < 0 {
        (-v) as u128
    } else {
        v as u128
    }
}

/// A product of two values of the given magnitudes and signs, by its sign
/// and magnitude.
proof fn lemma_signed_product(x: int, y: int, mx: int, my: int)
    requires
        mx == (if x < 0 {
            -x
        } else {
            x
        }),
        my == (if y < 0 {
            -y
        } else {
            y
        }),
    ensures
        x * y == (if (x < 0) != (y < 0) {
            -(mx * my)
        } else {
            mx * my
        }),
        mx * my >= 0,
{
    if x < 0 && y < 0 {
        assert(x * y == (-x) * (-y)) by (nonlinear_arith);
    } else if x < 0 {
        assert(x * y == -((-x) * y)) by (nonlinear_arith);
    } else if y < 0 {
        assert(x * y == -(x * (-y))) by (nonlinear_arith);
    }
    assert(mx * my >= 0) by (nonlinear_arith)
        requires
            mx >= 0,
            my >= 0,
    ;
}

/// Whether `b` lies on the right of the ray from `o` through `a`, or on its
/// line: exact for all `i64` coordinates, the two products compared by sign
/// and 128-bit magnitude.
fn cross_sign_nonpositive(o: Pt, a: Pt, b: Pt) -> (r: bool)
    ensures
        r == (cross(o, a, b) <= 0),
{
    let ax = a.0 as i128 - o.0 as i128;
    let ay = a.1 as i128 - o.1 as i128;
    let bx = b.0 as i128 - o.0 as i128;
    let by = b.1 as i128 - o.1 as i128;
    let max: u128 = 0xffff_ffff_ffff_ffff;
    let max_ax = magnitude(ax);
    let max_by = magnitude(by);
    let may = magnitude(ay);
    let mbx = magnitude(bx);
    assert(max_ax * max_by <= max * max) by (nonlinear_arith)
        requires
            max_ax <= max,
            max_by <= max,
    ;
    assert(may * mbx <= max * max) by (nonlinear_arith)
        requires
            may <= max,
            mbx <= max,
    ;
    let p1 = max_ax * max_by;
    let p2 = may * mbx;
    let n1 = (ax < 0) != (by < 0);
    let n2 = (ay < 0) != (bx < 0);
    proof {
        lemma_signed_product(ax as int, by as int, max_ax as int, max_by as int);
        lemma_signed_product(ay as int, bx as int, may as int, mbx as int);
    }
    if n1 && !n2 {
        true
    } else if !n1 && n2 {
        p1 == 0 && p2 == 0
    } else if !n1 {
        p1 <= p2
    } else {
        p2 <= p1
    }
}

/// Cross product of two integer vectors.
spec fn vcross(x0: int, x1: int, y0: int, y1: int) -> int {
    x0 * y1 - x1 * y0
}

/// For vectors in the half-plane of lexicographically positive directions,
/// "does not turn clockwise" is transitive.
proof fn lemma_half_plane(x0: int, x1: int, y0: int, y1: int, z0: int, z1: int)
    requires
        x0 > 0 || (x0 == 0 && x1 > 0),
        y0 > 0 || (y0 == 0 && y1 > 0),
        z0 > 0 || (z0 == 0 && z1 > 0),
        vcross(x0, x1, y0, y1) >= 0,
        vcross(y0, y1, z0, z1) >= 0,
    ensures
        vcross(x0, x1, z0, z1) >= 0,
{
    let xy = vcross(x0, x1, y0, y1);
    let yz = vcross(y0, y1, z0, z1);
    let xz = vcross(x0, x1, z0, z1);
    assert(xz * y0 == xy * z0 + yz * x0) by (nonlinear_arith)
        requires
            xy == x0 * y1 - x1 * y0,
            yz == y0 * z1 - y1 * z0,
            xz == x0 * z1 - x1 * z0,
    ;
    if y0 > 0 {
        assert(xy * z0 >= 0) by (nonlinear_arith)
            requires
                xy >= 0,
                z0 >= 0,
        ;
        assert(yz * x0 >= 0) by (nonlinear_arith)
            requires
                yz >= 0,
                x0 >= 0,
        ;
        assert(xz >= 0) by (nonlinear_arith)
            requires
                xz * y0 >= 0,
                y0 > 0,
        ;
    } else {
        assert(yz == -y1 * z0) by (nonlinear_arith)
            requires
                y0 == 0,
                yz == y0 * z1 - y1 * z0,
        ;
        assert(z0 <= 0) by (nonlinear_arith)
            requires
                -y1 * z0 >= 0,
                y1 > 0,
        ;
        assert(xz == x0 * z1) by (nonlinear_arith)
            requires
                z0 == 0,
                xz == x0 * z1 - x1 * z0,
        ;
        assert(xz >= 0) by (nonlinear_arith)
            requires
                xz == x0 * z1,
                x0 >= 0,
                z1 > 0,
        ;
    }
}

/// A vector pointing forward in the chosen direction: lexicographically
/// positive when `up`, negative otherwise.
spec fn dirpos(v0: int, v1: int, up: bool) -> bool {
    if up {
        v0 > 0 || (v0 == 0 && v1 > 0)
    } else {
        v0 < 0 || (v0 == 0 && v1 < 0)
    }
}

proof fn lemma_half_plane_dir(x0: int, x1: int, y0: int, y1: int, z0: int, z1: int, up: bool)
    requires
        dirpos(x0, x1, up),
        dirpos(y0, y1, up),
        dirpos(z0, z1, up),
        vcross(x0, x1, y0, y1) >= 0,
        vcross(y0, y1, z0, z1) >= 0,
    ensures
        vcross(x0, x1, z0, z1) >= 0,
{
    if up {
        lemma_half_plane(x0, x1, y0, y1, z0, z1);
    } else {
        assert(vcross(-x0, -x1, -y0, -y1) == vcross(x0, x1, y0, y1)) by (nonlinear_arith);
        assert(vcross(-y0, -y1, -z0, -z1) == vcross(y0, y1, z0, z1)) by (nonlinear_arith);
        assert(vcross(-x0, -x1, -z0, -z1) == vcross(x0, x1, z0, z1)) by (nonlinear_arith);
        lemma_half_plane(-x0, -x1, -y0, -y1, -z0, -z1);
    }
}

/// `b` comes after `a` in the chosen direction.
pub open spec fn ahead(a: Pt, b: Pt, up: bool) -> bool {
    if up {
        lex_lt(a, b)
    } else {
        lex_lt(b, a)
    }
}

/// A point behind `c`, on the inner side of the edge `a`-`c`, is on the
/// inner side of the edge `c`-`p` when the chain turns left at `c`.
proof fn lemma_behind_stays_inside(a: Pt, c: Pt, p: Pt, q: Pt, up: bool)
    requires
        ahead(a, c, up),
        ahead(c, p, up),
        ahead(q, c, up),
        cross(a, c, q) >= 0,
        cross(a, c, p) >= 0,
    ensures
        cross(c, p, q) >= 0,
{
    let qa0 = c.0 - q.0;
    let qa1 = c.1 - q.1;
    let aa0 = c.0 - a.0;
    let aa1 = c.1 - a.1;
    let pp0 = p.0 - c.0;
    let pp1 = p.1 - c.1;
    assert(cross(a, c, q) == vcross(qa0, qa1, aa0, aa1)) by (nonlinear_arith)
        requires
            qa0 == c.0 - q.0,
            qa1 == c.1 - q.1,
            aa0 == c.0 - a.0,
            aa1 == c.1 - a.1,
    ;
    assert(cross(a, c, p) == vcross(aa0, aa1, pp0, pp1)) by (nonlinear_arith)
        requires
            pp0 == p.0 - c.0,
            pp1 == p.1 - c.1,
            aa0 == c.0 - a.0,
            aa1 == c.1 - a.1,
    ;
    assert(cross(c, p, q) == vcross(qa0, qa1, pp0, pp1)) by (nonlinear_arith)
        requires
            qa0 == c.0 - q.0,
            qa1 == c.1 - q.1,
            pp0 == p.0 - c.0,
            pp1 == p.1 - c.1,
    ;
    lemma_half_plane_dir(qa0, qa1, aa0, aa1, pp0, pp1, up);
}

/// A point between `a` and `c`, on the inner side of `a`-`c`, stays on the
/// inner side of `a`-`p` when `c` is dropped for not turning left.
proof fn lemma_between_stays_inside(a: Pt, c: Pt, p: Pt, q: Pt, up: bool)
    requires
        ahead(a, q, up),
        ahead(a, c, up),
        ahead(a, p, up),
        cross(a, c, q) >= 0,
        cross(a, c, p) <= 0,
    ensures
        cross(a, p, q) >= 0,
{
    let s0 = c.0 - a.0;
    let s1 = c.1 - a.1;
    let v0 = p.0 - a.0;
    let v1 = p.1 - a.1;
    let w0 = q.0 - a.0;
    let w1 = q.1 - a.1;
    assert(cross(a, c, q) == vcross(s0, s1, w0, w1)) by (nonlinear_arith)
        requires
            s0 == c.0 - a.0,
            s1 == c.1 - a.1,
            w0 == q.0 - a.0,
            w1 == q.1 - a.1,
    ;
    assert(-cross(a, c, p) == vcross(v0, v1, s0, s1)) by (nonlinear_arith)
        requires
            s0 == c.0 - a.0,
            s1 == c.1 - a.1,
            v0 == p.0 - a.0,
            v1 == p.1 - a.1,
    ;
    assert(cross(a, p, q) == vcross(v0, v1, w0, w1)) by (nonlinear_arith)
        requires
            v0 == p.0 - a.0,
            v1 == p.1 - a.1,
            w0 == q.0 - a.0,
            w1 == q.1 - a.1,
    ;
    lemma_half_plane_dir(v0, v1, s0, s1, w0, w1, up);
}

/// Moving the pivot back along an edge: how the side of `q` against `a`-`p`
/// follows from its sides against `c`-`p` and `a`-`c`.
proof fn lemma_pivot_identity(a: Pt, c: Pt, p: Pt, q: Pt)
    ensures
        cross(a, p, q) == cross(c, p, q) - cross(a, c, p) + cross(a, c, q),
        cross(a, p, c) == -cross(a, c, p),
        cross(c, p, p) == 0,
        cross(c, p, c) == 0,
{
    assert(cross(a, p, q) == cross(c, p, q) - cross(a, c, p) + cross(a, c, q)) by (nonlinear_arith);
    assert(cross(a, p, c) == -cross(a, c, p)) by (nonlinear_arith);
    assert(cross(c, p, p) == 0) by (nonlinear_arith);
    assert(cross(c, p, c) == 0) by (nonlinear_arith);
}

/// On a chain that turns left at `b`, a point on the inner side of the next
/// edge `b`-`c` and ahead of it is on the inner side of `a`-`b` too.
proof fn lemma_back_along_chain(a: Pt, b: Pt, c: Pt, p: Pt, up: bool)
    requires
        ahead(a, b, up),
        ahead(b, c, up),
        ahead(b, p, up),
        cross(a, b, c) >= 0,
        cross(b, c, p) >= 0,
    ensures
        cross(a, b, p) >= 0,
{
    let x0 = b.0 - a.0;
    let x1 = b.1 - a.1;
    let y0 = c.0 - b.0;
    let y1 = c.1 - b.1;
    let z0 = p.0 - b.0;
    let z1 = p.1 - b.1;
    assert(cross(a, b, c) == vcross(x0, x1, y0, y1)) by (nonlinear_arith)
        requires
            x0 == b.0 - a.0,
            x1 == b.1 - a.1,
            y0 == c.0 - b.0,
            y1 == c.1 - b.1,
    ;
    assert(cross(b, c, p) == vcross(y0, y1, z0, z1)) by (nonlinear_arith)
        requires
            y0 == c.0 - b.0,
            y1 == c.1 - b.1,
            z0 == p.0 - b.0,
            z1 == p.1 - b.1,
    ;
    assert(cross(a, b, p) == vcross(x0, x1, z0, z1)) by (nonlinear_arith)
        requires
            x0 == b.0 - a.0,
            x1 == b.1 - a.1,
            z0 == p.0 - b.0,
            z1 == p.1 - b.1,
    ;
    lemma_half_plane_dir(x0, x1, y0, y1, z0, z1, up);
}

/// Every point comes after the ones before it, in the chosen direction.
pub open spec fn monotone(s: Seq<Pt>, up: bool) -> bool {
    forall|i: int, j: int| 0 <= i < j < s.len() ==> ahead(#[trigger] s[i], #[trigger] s[j], up)
}

/// The chain turns strictly left at its vertex `t + 1`.
pub open spec fn turn_at(c: Seq<Pt>, t: int) -> bool {
    cross(c[t], c[t + 1], c[t + 2]) > 0
}

/// `q` lies on the inner (left) side of the chain's edge `t`, or on it.
pub open spec fn edge_holds(c: Seq<Pt>, t: int, q: Pt) -> bool {
    cross(c[t], c[t + 1], q) >= 0
}

/// `c` is the half hull of the first `k` points of `s`: a subsequence
/// (positions `ix`) from the first point, turning left at every vertex, with
/// every one of those points on the inner side of every edge.
spec fn chain_ok(s: Seq<Pt>, up: bool, c: Seq<Pt>, ix: Seq<int>, k: int) -> bool {
    &&& c.len() == ix.len()
    &&& c.len() >= 1
    &&& k <= s.len()
    &&& forall|t: int| 0 <= t < c.len() ==> 0 <= #[trigger] ix[t] < k && c[t] == s[ix[t]]
    &&& forall|t1: int, t2: int| 0 <= t1 < t2 < c.len() ==> #[trigger] ix[t1] < #[trigger] ix[t2]
    &&& ix[0] == 0
    &&& forall|t: int| 0 <= t < c.len() - 2 ==> #[trigger] turn_at(c, t)
    &&& forall|t: int, j: int|
        0 <= t < c.len() - 1 && 0 <= j < k ==> #[trigger] edge_holds(c, t, s[j])
}

proof fn lemma_new_point_supported(s: Seq<Pt>, up: bool, c: Seq<Pt>, ix: Seq<int>, k: int, t: int)
    requires
        chain_ok(s, up, c, ix, k),
        monotone(s, up),
        k < s.len(),
        c.len() >= 2,
        cross(c[c.len() - 2], c[c.len() - 1], s[k]) > 0,
        0 <= t <= c.len() - 2,
    ensures
        edge_holds(c, t, s[k]),
    decreases c.len() - t,
{
    if t < c.len() - 2 {
        lemma_new_point_supported(s, up, c, ix, k, t + 1);
        assert(turn_at(c, t));
        assert(ix[t] < ix[t + 1]);
        assert(ix[t + 1] < ix[t + 2]);
        assert(ahead(s[ix[t]], s[ix[t + 1]], up));
        assert(ahead(s[ix[t + 1]], s[ix[t + 2]], up));
        assert(ahead(s[ix[t + 1]], s[k], up));
        lemma_back_along_chain(c[t], c[t + 1], c[t + 2], s[k], up);
    }
}

/// The half hull of a sequence of points that advances in one direction:
/// the lower hull for ascending points, the upper hull for descending ones.
fn half_chain(s: &Vec<Pt>, up: bool) -> (res: (Vec<Pt>, Ghost<Seq<int>>))
    requires
        s@.len() >= 1,
        monotone(s@, up),
    ensures
        chain_ok(s@, up, res.0@, res.1@, s@.len() as int),
        res.0@.last() == s@.last(),
        res.1@.last() == s@.len() - 1,
{
    let n = s.len();
    let mut c: Vec<Pt> = Vec::new();
    c.push(s[0]);
    let ghost mut ix: Seq<int> = seq![0int];
    let mut k: usize = 1;
    while k < n
        invariant
            n == s@.len(),
            1 <= k <= n,
            monotone(s@, up),
            chain_ok(s@, up, c@, ix, k as int),
            c@.last() == s@[k - 1],
            ix.last() == k - 1,
        decreases n - k,
    {
        let p = s[k];
        let ghost c0 = c@;
        let ghost ix0 = ix;
        proof {
            assert forall|j: int| 0 <= j < k && ahead(c@.last(), #[trigger] s@[j], up) implies cross(
                c@.last(),
                p,
                s@[j],
            ) >= 0 by {
                if j < k - 1 {
                    assert(ahead(s@[j], s@[k - 1], up));
                }
            }
        }
        while c.len() >= 2 && cross_sign_nonpositive(c[c.len() - 2], c[c.len() - 1], p)
            invariant
                n == s@.len(),
                1 <= k < n,
                p == s@[k as int],
                monotone(s@, up),
                chain_ok(s@, up, c@, ix, k as int),
                forall|j: int|
                    0 <= j < k && ahead(c@.last(), #[trigger] s@[j], up) ==> cross(
                        c@.last(),
                        p,
                        s@[j],
                    ) >= 0,
            decreases c@.len(),
        {
            let ghost cl = c@.last();
            let ghost a = c@[c@.len() - 2];
            let ghost cprev = c@;
            let ghost ixprev = ix;
            c.pop();
            proof {
                ix = ix.drop_last();
                let len = cprev.len() as int;
                assert(c@ == cprev.drop_last());
                assert(cross(a, cl, p) <= 0);
                assert(ix[len - 2] < ixprev[len - 1]);
                assert(ahead(a, cl, up));
                assert(ahead(a, p, up));
                assert forall|j: int| 0 <= j < k && ahead(c@.last(), #[trigger] s@[j], up) implies cross(
                    c@.last(),
                    p,
                    s@[j],
                ) >= 0 by {
                    let q = s@[j];
                    lemma_pivot_identity(a, cl, p, q);
                    assert(edge_holds(cprev, len - 2, s@[j]));
                    if q == cl {
                    } else if ahead(cl, q, up) {
                    } else {
                        lemma_between_stays_inside(a, cl, p, q, up);
                    }
                }
                assert forall|t: int| 0 <= t < c@.len() - 2 implies #[trigger] turn_at(c@, t) by {
                    assert(turn_at(cprev, t));
                }
                assert forall|t: int, j: int|
                    0 <= t < c@.len() - 1 && 0 <= j < k implies #[trigger] edge_holds(c@, t, s@[j]) by {
                    assert(edge_holds(cprev, t, s@[j]));
                }
            }
        }
        let ghost cb = c@;
        let ghost ixb = ix;
        proof {
            let len = cb.len() as int;
            let cl = cb.last();
            assert(0 <= ixb[len - 1] < k);
            if len >= 2 {
                assert(cross(cb[len - 2], cl, p) > 0);
                lemma_new_point_supported(s@, up, cb, ixb, k as int, 0);
                assert forall|t: int| 0 <= t <= len - 2 implies #[trigger] edge_holds(cb, t, p) by {
                    lemma_new_point_supported(s@, up, cb, ixb, k as int, t);
                }
            }
            assert forall|j: int| 0 <= j < k implies cross(cl, p, #[trigger] s@[j]) >= 0 by {
                let q = s@[j];
                lemma_pivot_identity(cl, cl, p, q);
                if q == cl {
                } else if ahead(cl, q, up) {
                } else {
                    if len == 1 {
                        assert(cl == s@[0]);
                        if j > 0 {
                            assert(ahead(s@[0], s@[j], up));
                        }
                    } else {
                        let a = cb[len - 2];
                        assert(ixb[len - 2] < ixb[len - 1]);
                        assert(ahead(a, cl, up));
                        assert(edge_holds(cb, len - 2, q));
                        assert(ahead(cl, p, up));
                        lemma_behind_stays_inside(a, cl, p, q, up);
                    }
                }
            }
        }
        c.push(p);
        proof {
            ix = ix.push(k as int);
            let len = cb.len() as int;
            assert(c@ == cb.push(p));
            assert forall|t: int| 0 <= t < c@.len() - 2 implies #[trigger] turn_at(c@, t) by {
                if t < len - 2 {
                    assert(turn_at(cb, t));
                }
            }
            assert forall|t: int, j: int|
                0 <= t < c@.len() - 1 && 0 <= j < k + 1 implies #[trigger] edge_holds(c@, t, s@[j]) by {
                if t < len - 1 {
                    if j < k {
                        assert(edge_holds(cb, t, s@[j]));
                    } else {
                        assert(edge_holds(cb, t, p));
                    }
                } else {
                    lemma_pivot_identity(cb.last(), cb.last(), p, p);
                }
            }
            assert forall|t1: int, t2: int| 0 <= t1 < t2 < c@.len() implies #[trigger] ix[t1]
                < #[trigger] ix[t2] by {
                if t2 < len {
                    assert(ixb[t1] < ixb[t2]);
                }
            }
        }
        k = k + 1;
    }
    (c, Ghost(ix))
}


/// Sorted ascending without repeats.
pub open spec fn strictly_sorted(s: Seq<Pt>) -> bool {
    forall|i: int, j: int| 0 <= i < j < s.len() ==> lex_lt(#[trigger] s[i], #[trigger] s[j])
}

/// `p` comes before `q` lexicographically.
fn lex_less(p: Pt, q: Pt) -> (r: bool)
    ensures
        r == lex_lt(p, q),
{
    p.0 < q.0 || (p.0 == q.0 && p.1 < q.1)
}

proof fn lemma_contains_push(s: Seq<Pt>, x: Pt, q: Pt)
    ensures
        s.push(x).contains(q) <==> (s.contains(q) || q == x),
{
    if s.push(x).contains(q) {
        let t = choose|t: int| 0 <= t < s.len() + 1 && s.push(x)[t] == q;
        if t < s.len() {
            assert(s[t] == q);
        }
    }
    if s.contains(q) {
        let t = choose|t: int| 0 <= t < s.len() && s[t] == q;
        assert(s.push(x)[t] == q);
    }
    if q == x {
        assert(s.push(x)[s.len() as int] == q);
    }
}

proof fn lemma_take_next(s: Seq<Pt>, i: int)
    requires
        0 <= i < s.len(),
    ensures
        s.take(i + 1) == s.take(i).push(s[i]),
{
    assert(s.take(i + 1) =~= s.take(i).push(s[i]));
}

/// The union of two sorted runs without repeats, sorted without repeats.
fn merge_union(a: &Vec<Pt>, b: &Vec<Pt>) -> (out: Vec<Pt>)
    requires
        strictly_sorted(a@),
        strictly_sorted(b@),
    ensures
        strictly_sorted(out@),
        forall|q: Pt| out@.contains(q) <==> (a@.contains(q) || b@.contains(q)),
{
    let mut out: Vec<Pt> = Vec::new();
    let mut i: usize = 0;
    let mut j: usize = 0;
    while i < a.len() || j < b.len()
        invariant
            i <= a@.len(),
            j <= b@.len(),
            strictly_sorted(a@),
            strictly_sorted(b@),
            strictly_sorted(out@),
            forall|q: Pt| out@.contains(q) <==> (a@.take(i as int).contains(q) || b@.take(j as int).contains(q)),
            out@.len() > 0 && i < a@.len() ==> lex_lt(out@.last(), a@[i as int]),
            out@.len() > 0 && j < b@.len() ==> lex_lt(out@.last(), b@[j as int]),
        decreases a@.len() - i + b@.len() - j,
    {
        let ghost o0 = out@;
        let ghost i0 = i as int;
        let ghost j0 = j as int;
        let take_a = if i < a.len() && j < b.len() {
            !lex_less(b[j], a[i])
        } else {
            i < a.len()
        };
        let take_b = if i < a.len() && j < b.len() {
            !lex_less(a[i], b[j])
        } else {
            j < b.len()
        };
        let x = if take_a {
            a[i]
        } else {
            b[j]
        };
        out.push(x);
        if take_a {
            i = i + 1;
        }
        if take_b {
            j = j + 1;
        }
        proof {
            assert(out@ == o0.push(x));
            assert forall|q: Pt| out@.contains(q) <==> (a@.take(i as int).contains(q) || b@.take(
                j as int,
            ).contains(q)) by {
                lemma_contains_push(o0, x, q);
                if take_a {
                    lemma_take_next(a@, i0);
                    lemma_contains_push(a@.take(i0), a@[i0], q);
                }
                if take_b {
                    lemma_take_next(b@, j0);
                    lemma_contains_push(b@.take(j0), b@[j0], q);
                }
            }
            assert forall|p: int, r: int| 0 <= p < r < out@.len() implies lex_lt(
                #[trigger] out@[p],
                #[trigger] out@[r],
            ) by {
                if r == out@.len() - 1 && p < r - 1 {
                    assert(lex_lt(o0[p], o0[r - 1]));
                }
            }
            if i < a@.len() {
                if take_a {
                    assert(lex_lt(a@[i0], a@[i as int]));
                }
            }
            if j < b@.len() {
                if take_b {
                    assert(lex_lt(b@[j0], b@[j as int]));
                }
            }
        }
    }
    proof {
        assert(a@.take(a@.len() as int) =~= a@);
        assert(b@.take(b@.len() as int) =~= b@);
    }
    out
}

/// The points of `v[lo..hi]`, sorted without repeats (a merge sort that
/// drops a repeat wherever two runs meet on it).
fn sorted_points(v: &Vec<Pt>, lo: usize, hi: usize) -> (out: Vec<Pt>)
    requires
        lo <= hi <= v@.len(),
    ensures
        strictly_sorted(out@),
        forall|q: Pt| out@.contains(q) <==> v@.subrange(lo as int, hi as int).contains(q),
    decreases hi - lo,
{
    if hi - lo == 0 {
        let out: Vec<Pt> = Vec::new();
        proof {
            assert(v@.subrange(lo as int, hi as int) =~= Seq::<Pt>::empty());
        }
        out
    } else if hi - lo == 1 {
        let mut out: Vec<Pt> = Vec::new();
        out.push(v[lo]);
        proof {
            assert(v@.subrange(lo as int, hi as int) =~= out@);
        }
        out
    } else {
        let mid = lo + (hi - lo) / 2;
        let a = sorted_points(v, lo, mid);
        let b = sorted_points(v, mid, hi);
        proof {
            let whole = v@.subrange(lo as int, hi as int);
            let left = v@.subrange(lo as int, mid as int);
            let right = v@.subrange(mid as int, hi as int);
            assert(whole =~= left + right);
            assert forall|q: Pt| whole.contains(q) <==> (left.contains(q) || right.contains(q)) by {
                if whole.contains(q) {
                    let t = choose|t: int| 0 <= t < whole.len() && whole[t] == q;
                    if t < left.len() {
                        assert(left[t] == q);
                    } else {
                        assert(right[t - left.len()] == q);
                    }
                }
                if left.contains(q) {
                    let t = choose|t: int| 0 <= t < left.len() && left[t] == q;
                    assert(whole[t] == q);
                }
                if right.contains(q) {
                    let t = choose|t: int| 0 <= t < right.len() && right[t] == q;
                    assert(whole[t + left.len()] == q);
                }
            }
        }
        merge_union(&a, &b)
    }
}

/// The same points, last first.
fn reversed(s: &Vec<Pt>) -> (r: Vec<Pt>)
    ensures
        r@.len() == s@.len(),
        forall|i: int| 0 <= i < s@.len() ==> #[trigger] r@[i] == s@[s@.len() - 1 - i],
{
    let mut r: Vec<Pt> = Vec::new();
    let mut i: usize = s.len();
    while i > 0
        invariant
            i <= s@.len(),
            r@.len() == s@.len() - i,
            forall|t: int| 0 <= t < r@.len() ==> #[trigger] r@[t] == s@[s@.len() - 1 - t],
        decreases i,
    {
        i = i - 1;
        r.push(s[i]);
    }
    r
}

/// Two parallel vectors pointing in opposite directions see any third
/// vector on opposite sides.
proof fn lemma_opposite_parallel_up(u0: int, u1: int, w0: int, w1: int, v0: int, v1: int)
    requires
        dirpos(u0, u1, true),
        dirpos(w0, w1, false),
        vcross(u0, u1, w0, w1) == 0,
    ensures
        vcross(u0, u1, v0, v1) > 0 ==> vcross(w0, w1, v0, v1) < 0,
        vcross(u0, u1, v0, v1) < 0 ==> vcross(w0, w1, v0, v1) > 0,
        vcross(u0, u1, v0, v1) == 0 ==> vcross(w0, w1, v0, v1) == 0,
{
    let uv = vcross(u0, u1, v0, v1);
    let wv = vcross(w0, w1, v0, v1);
    if u0 > 0 {
        assert(w0 != 0) by (nonlinear_arith)
            requires
                u0 > 0,
                u0 * w1 - u1 * w0 == 0,
                w0 < 0 || (w0 == 0 && w1 < 0),
        ;
        assert(u0 * wv == w0 * uv) by (nonlinear_arith)
            requires
                u0 * w1 - u1 * w0 == 0,
                uv == u0 * v1 - u1 * v0,
                wv == w0 * v1 - w1 * v0,
        ;
        assert(uv > 0 ==> wv < 0) by (nonlinear_arith)
            requires
                u0 > 0,
                w0 < 0,
                u0 * wv == w0 * uv,
        ;
        assert(uv < 0 ==> wv > 0) by (nonlinear_arith)
            requires
                u0 > 0,
                w0 < 0,
                u0 * wv == w0 * uv,
        ;
        assert(uv == 0 ==> wv == 0) by (nonlinear_arith)
            requires
                u0 > 0,
                u0 * wv == w0 * uv,
        ;
    } else {
        assert(w0 == 0) by (nonlinear_arith)
            requires
                u0 == 0,
                u1 > 0,
                u0 * w1 - u1 * w0 == 0,
        ;
        assert(uv == -u1 * v0 && wv == -w1 * v0) by (nonlinear_arith)
            requires
                u0 == 0,
                w0 == 0,
                uv == u0 * v1 - u1 * v0,
                wv == w0 * v1 - w1 * v0,
        ;
        assert(uv > 0 ==> wv < 0) by (nonlinear_arith)
            requires
                u1 > 0,
                w1 < 0,
                uv == -u1 * v0,
                wv == -w1 * v0,
        ;
        assert(uv < 0 ==> wv > 0) by (nonlinear_arith)
            requires
                u1 > 0,
                w1 < 0,
                uv == -u1 * v0,
                wv == -w1 * v0,
        ;
        assert(uv == 0 ==> wv == 0) by (nonlinear_arith)
            requires
                u1 > 0,
                uv == -u1 * v0,
                wv == -w1 * v0,
        ;
    }
}

proof fn lemma_opposite_parallel(u0: int, u1: int, w0: int, w1: int, v0: int, v1: int, up: bool)
    requires
        dirpos(u0, u1, up),
        dirpos(w0, w1, !up),
        vcross(u0, u1, w0, w1) == 0,
    ensures
        vcross(u0, u1, v0, v1) > 0 ==> vcross(w0, w1, v0, v1) < 0,
        vcross(u0, u1, v0, v1) < 0 ==> vcross(w0, w1, v0, v1) > 0,
        vcross(u0, u1, v0, v1) == 0 ==> vcross(w0, w1, v0, v1) == 0,
{
    if up {
        lemma_opposite_parallel_up(u0, u1, w0, w1, v0, v1);
    } else {
        assert(vcross(-u0, -u1, -w0, -w1) == vcross(u0, u1, w0, w1)) by (nonlinear_arith);
        assert(vcross(-u0, -u1, v0, v1) == -vcross(u0, u1, v0, v1)) by (nonlinear_arith);
        assert(vcross(-w0, -w1, v0, v1) == -vcross(w0, w1, v0, v1)) by (nonlinear_arith);
        lemma_opposite_parallel_up(-u0, -u1, -w0, -w1, v0, v1);
    }
}

/// Where a hull chain meets the chain running back, the two edges at the
/// meeting point `s` either turn, or every point lies on the line through
/// them.
proof fn lemma_junction(p: Pt, s: Pt, b: Pt, q: Pt, up: bool)
    requires
        ahead(p, s, up),
        ahead(s, b, !up),
        cross(p, s, b) == 0,
        cross(p, s, q) >= 0,
        cross(s, b, q) >= 0,
    ensures
        cross(p, s, q) == 0,
{
    let u0 = s.0 - p.0;
    let u1 = s.1 - p.1;
    let w0 = b.0 - s.0;
    let w1 = b.1 - s.1;
    let v0 = q.0 - s.0;
    let v1 = q.1 - s.1;
    assert(cross(p, s, b) == vcross(u0, u1, w0, w1)) by (nonlinear_arith)
        requires
            u0 == s.0 - p.0,
            u1 == s.1 - p.1,
            w0 == b.0 - s.0,
            w1 == b.1 - s.1,
    ;
    assert(cross(p, s, q) == vcross(u0, u1, v0, v1)) by (nonlinear_arith)
        requires
            u0 == s.0 - p.0,
            u1 == s.1 - p.1,
            v0 == q.0 - s.0,
            v1 == q.1 - s.1,
    ;
    assert(cross(s, b, q) == vcross(w0, w1, v0, v1)) by (nonlinear_arith)
        requires
            w0 == b.0 - s.0,
            w1 == b.1 - s.1,
            v0 == q.0 - s.0,
            v1 == q.1 - s.1,
    ;
    lemma_opposite_parallel(u0, u1, w0, w1, v0, v1, up);
}

/// Two vectors parallel to the same nonzero vector are parallel.
proof fn lemma_parallel_pair(u0: int, u1: int, p0: int, p1: int, q0: int, q1: int)
    requires
        u0 != 0 || u1 != 0,
        vcross(u0, u1, p0, p1) == 0,
        vcross(u0, u1, q0, q1) == 0,
    ensures
        vcross(p0, p1, q0, q1) == 0,
{
    let pq = vcross(p0, p1, q0, q1);
    assert(u0 * pq == 0 && u1 * pq == 0) by (nonlinear_arith)
        requires
            u0 * p1 - u1 * p0 == 0,
            u0 * q1 - u1 * q0 == 0,
            pq == p0 * q1 - p1 * q0,
    ;
    assert(pq == 0) by (nonlinear_arith)
        requires
            u0 != 0 || u1 != 0,
            u0 * pq == 0,
            u1 * pq == 0,
    ;
}

/// Three points on the line through two distinct points are collinear.
proof fn lemma_collinear3(a: Pt, b: Pt, x: Pt, y: Pt, z: Pt)
    requires
        a != b,
        cross(a, b, x) == 0,
        cross(a, b, y) == 0,
        cross(a, b, z) == 0,
    ensures
        cross(x, y, z) == 0,
{
    let u0 = b.0 - a.0;
    let u1 = b.1 - a.1;
    let x0 = x.0 - a.0;
    let x1 = x.1 - a.1;
    let y0 = y.0 - a.0;
    let y1 = y.1 - a.1;
    let z0 = z.0 - a.0;
    let z1 = z.1 - a.1;
    assert(cross(a, b, x) == vcross(u0, u1, x0, x1) && cross(a, b, y) == vcross(u0, u1, y0, y1)
        && cross(a, b, z) == vcross(u0, u1, z0, z1)) by (nonlinear_arith)
        requires
            u0 == b.0 - a.0,
            u1 == b.1 - a.1,
            x0 == x.0 - a.0,
            x1 == x.1 - a.1,
            y0 == y.0 - a.0,
            y1 == y.1 - a.1,
            z0 == z.0 - a.0,
            z1 == z.1 - a.1,
    ;
    lemma_parallel_pair(u0, u1, x0, x1, y0, y1);
    lemma_parallel_pair(u0, u1, x0, x1, z0, z1);
    lemma_parallel_pair(u0, u1, y0, y1, z0, z1);
    assert(cross(x, y, z) == (y0 - x0) * (z1 - x1) - (y1 - x1) * (z0 - x0));
    lemma_cross_expand(x0, x1, y0, y1, z0, z1);
}

proof fn lemma_cross_expand(x0: int, x1: int, y0: int, y1: int, z0: int, z1: int)
    by (nonlinear_arith)
    ensures
        (y0 - x0) * (z1 - x1) - (y1 - x1) * (z0 - x0) == vcross(y0, y1, z0, z1) + vcross(
            x0,
            x1,
            y0,
            y1,
        ) - vcross(x0, x1, z0, z1),
{
}

/// At a vertex `q` where the lower chain turns strictly, a point `c` ahead of
/// `q` that both edges at `q` and the edge `c`-`q` of the upper chain would
/// hold on their inner side lies outside the next lower edge: so `q` cannot
/// also be a vertex of the upper chain between its ends.
proof fn lemma_no_shared_vertex(a: Pt, q: Pt, b: Pt, c: Pt)
    requires
        lex_lt(a, q),
        lex_lt(q, b),
        lex_lt(q, c),
        cross(a, q, b) > 0,
        cross(a, q, c) >= 0,
        cross(c, q, a) >= 0,
    ensures
        cross(q, b, c) < 0,
{
    let a0 = a.0 - q.0;
    let a1 = a.1 - q.1;
    let b0 = b.0 - q.0;
    let b1 = b.1 - q.1;
    let c0 = c.0 - q.0;
    let c1 = c.1 - q.1;
    assert(cross(a, q, c) == -vcross(a0, a1, c0, c1) && cross(c, q, a) == vcross(a0, a1, c0, c1)
        && cross(a, q, b) == -vcross(a0, a1, b0, b1) && cross(q, b, c) == vcross(b0, b1, c0, c1))
        by (nonlinear_arith)
        requires
            a0 == a.0 - q.0,
            a1 == a.1 - q.1,
            b0 == b.0 - q.0,
            b1 == b.1 - q.1,
            c0 == c.0 - q.0,
            c1 == c.1 - q.1,
    ;
    assert(vcross(c0, c1, a0, a1) == -vcross(a0, a1, c0, c1)) by (nonlinear_arith);
    assert(vcross(c0, c1, b0, b1) == -vcross(b0, b1, c0, c1)) by (nonlinear_arith);
    lemma_opposite_parallel(c0, c1, a0, a1, b0, b1, true);
}


/// The vertex at position `i` of a closed polygon, for `i` up to twice its
/// length: positions past the end wrap around to the start.
pub open spec fn cyc(h: Seq<Pt>, i: int) -> Pt {
    if i < h.len() {
        h[i]
    } else {
        h[i - h.len()]
    }
}

/// `q` lies on the inner (left) side of the polygon's edge from vertex `i`,
/// or on it.
pub open spec fn hull_edge_ok(h: Seq<Pt>, i: int, q: Pt) -> bool {
    cross(h[i], cyc(h, i + 1), q) >= 0
}

/// The polygon turns strictly left at the vertex after `i`.
pub open spec fn hull_turn(h: Seq<Pt>, i: int) -> bool {
    cross(h[i], cyc(h, i + 1), cyc(h, i + 2)) > 0
}

/// `h` is the convex hull of `pts`: distinct points of `pts`, from the
/// lexicographically smallest one, counter-clockwise, turning strictly left
/// at every vertex of a polygon of three or more, with every point of `pts`
/// on the inner side of (or on) every edge. With one vertex, every point is
/// that vertex; with two, the edges both ways put every point on their line,
/// and the second vertex is the lexicographically largest point.
pub open spec fn is_convex_hull(pts: Seq<Pt>, h: Seq<Pt>) -> bool {
    &&& (h.len() == 0 <==> pts.len() == 0)
    &&& forall|i: int| 0 <= i < h.len() ==> pts.contains(#[trigger] h[i])
    &&& forall|i: int, j: int| 0 <= i < j < h.len() ==> #[trigger] h[i] != #[trigger] h[j]
    &&& forall|k: int| 0 <= k < pts.len() && h.len() > 0 ==> !lex_lt(#[trigger] pts[k], h[0])
    &&& h.len() == 1 ==> forall|k: int| 0 <= k < pts.len() ==> #[trigger] pts[k] == h[0]
    &&& h.len() == 2 ==> forall|k: int| 0 <= k < pts.len() ==> !lex_lt(h[1], #[trigger] pts[k])
    &&& forall|i: int, k: int|
        0 <= i < h.len() && 0 <= k < pts.len() ==> #[trigger] hull_edge_ok(h, i, pts[k])
    &&& h.len() >= 3 ==> forall|i: int| 0 <= i < h.len() ==> #[trigger] hull_turn(h, i)
}

/// The same points, by membership.
pub open spec fn same_points(a: Seq<Pt>, b: Seq<Pt>) -> bool {
    forall|q: Pt| a.contains(q) <==> b.contains(q)
}

proof fn lemma_small_hull(pts: Seq<Pt>, s: Seq<Pt>)
    requires
        strictly_sorted(s),
        same_points(pts, s),
        s.len() < 3,
    ensures
        is_convex_hull(pts, s),
{
    if pts.len() > 0 {
        assert(pts.contains(pts[0]));
    }
    if s.len() > 0 {
        assert(s.contains(s[0]));
    }
    assert forall|k: int| 0 <= k < pts.len() implies s.contains(#[trigger] pts[k]) by {
        assert(pts.contains(pts[k]));
    }
    assert forall|i: int| 0 <= i < s.len() implies pts.contains(#[trigger] s[i]) by {
        assert(s.contains(s[i]));
    }
    assert forall|k: int| 0 <= k < pts.len() && s.len() > 0 implies !lex_lt(#[trigger] pts[k], s[0]) by {
        assert(s.contains(pts[k]));
        let t = choose|t: int| 0 <= t < s.len() && s[t] == pts[k];
        if t > 0 {
            assert(lex_lt(s[0], s[t]));
        }
    }
    if s.len() == 1 {
        assert forall|k: int| 0 <= k < pts.len() implies #[trigger] pts[k] == s[0] by {
            assert(s.contains(pts[k]));
        }
    }
    if s.len() == 2 {
        assert forall|k: int| 0 <= k < pts.len() implies !lex_lt(s[1], #[trigger] pts[k]) by {
            assert(s.contains(pts[k]));
            let t = choose|t: int| 0 <= t < s.len() && s[t] == pts[k];
            if t == 0 {
                assert(lex_lt(s[0], s[1]));
            }
        }
    }
    assert forall|i: int, k: int| 0 <= i < s.len() && 0 <= k < pts.len() implies #[trigger] hull_edge_ok(
        s,
        i,
        pts[k],
    ) by {
        assert(s.contains(pts[k]));
        let t = choose|t: int| 0 <= t < s.len() && s[t] == pts[k];
        lemma_pivot_identity(s[i], s[i], cyc(s, i + 1), pts[k]);
    }
}

/// The pieces of the hull: `s` the distinct sorted points, `r` the same
/// reversed, `lo` the lower chain over `s` (positions `il`), `hi` the upper
/// chain over `r` (positions `iu`).
spec fn hull_parts(
    s: Seq<Pt>,
    r: Seq<Pt>,
    lo: Seq<Pt>,
    il: Seq<int>,
    hi: Seq<Pt>,
    iu: Seq<int>,
) -> bool {
    &&& strictly_sorted(s)
    &&& s.len() >= 3
    &&& r.len() == s.len()
    &&& forall|i: int| 0 <= i < s.len() ==> #[trigger] r[i] == s[s.len() - 1 - i]
    &&& chain_ok(s, true, lo, il, s.len() as int)
    &&& il.last() == s.len() - 1
    &&& chain_ok(r, false, hi, iu, s.len() as int)
    &&& iu.last() == s.len() - 1
}

proof fn lemma_parts_facts(
    s: Seq<Pt>,
    r: Seq<Pt>,
    lo: Seq<Pt>,
    il: Seq<int>,
    hi: Seq<Pt>,
    iu: Seq<int>,
)
    requires
        hull_parts(s, r, lo, il, hi, iu),
    ensures
        lo.len() >= 2,
        hi.len() >= 2,
        lo[0] == s[0],
        lo[lo.len() - 1] == s[s.len() - 1],
        hi[0] == s[s.len() - 1],
        hi[hi.len() - 1] == s[0],
        forall|t: int| 0 <= t < lo.len() ==> 0 <= #[trigger] il[t] < s.len() && lo[t] == s[il[t]],
        forall|t: int|
            0 <= t < hi.len() ==> 0 <= #[trigger] iu[t] < s.len() && hi[t] == s[s.len() - 1 - iu[t]],
        forall|t1: int, t2: int| 0 <= t1 < t2 < lo.len() ==> lex_lt(#[trigger] lo[t1], #[trigger] lo[t2]),
        forall|t1: int, t2: int| 0 <= t1 < t2 < hi.len() ==> lex_lt(#[trigger] hi[t2], #[trigger] hi[t1]),
        forall|t: int, j: int| 0 <= t < lo.len() - 1 && 0 <= j < s.len() ==> #[trigger] edge_holds(lo, t, s[j]),
        forall|t: int, j: int| 0 <= t < hi.len() - 1 && 0 <= j < s.len() ==> #[trigger] edge_holds(hi, t, s[j]),
        forall|t: int| 0 <= t < lo.len() - 2 ==> #[trigger] turn_at(lo, t),
        forall|t: int| 0 <= t < hi.len() - 2 ==> #[trigger] turn_at(hi, t),
{
    let m = s.len() as int;
    assert(il[0] == 0);
    assert(lo.len() >= 2) by {
        if lo.len() == 1 {
            assert(il.last() == il[0]);
        }
    }
    assert(hi.len() >= 2) by {
        if hi.len() == 1 {
            assert(iu.last() == iu[0]);
        }
    }
    assert(lo[lo.len() - 1] == s[il[lo.len() - 1]]);
    assert(hi[0] == r[iu[0]]);
    assert(r[0] == s[m - 1]);
    assert(hi[hi.len() - 1] == r[iu[hi.len() - 1]]);
    assert(r[m - 1] == s[0]);
    assert forall|t: int| 0 <= t < hi.len() implies 0 <= #[trigger] iu[t] < s.len() && hi[t] == s[s.len()
        - 1 - iu[t]] by {
        assert(r[iu[t]] == s[m - 1 - iu[t]]);
    }
    assert forall|t1: int, t2: int| 0 <= t1 < t2 < lo.len() implies lex_lt(
        #[trigger] lo[t1],
        #[trigger] lo[t2],
    ) by {
        assert(il[t1] < il[t2]);
        assert(lex_lt(s[il[t1]], s[il[t2]]));
    }
    assert forall|t1: int, t2: int| 0 <= t1 < t2 < hi.len() implies lex_lt(
        #[trigger] hi[t2],
        #[trigger] hi[t1],
    ) by {
        assert(iu[t1] < iu[t2]);
        assert(r[iu[t1]] == s[m - 1 - iu[t1]]);
        assert(r[iu[t2]] == s[m - 1 - iu[t2]]);
        assert(lex_lt(s[m - 1 - iu[t2]], s[m - 1 - iu[t1]]));
    }
    assert forall|t: int, j: int| 0 <= t < hi.len() - 1 && 0 <= j < s.len() implies #[trigger] edge_holds(
        hi,
        t,
        s[j],
    ) by {
        assert(r[m - 1 - j] == s[j]);
        assert(edge_holds(hi, t, r[m - 1 - j]));
    }
}


proof fn lemma_joined_positions(lo: Seq<Pt>, hi: Seq<Pt>, h: Seq<Pt>)
    requires
        lo.len() >= 2,
        hi.len() >= 2,
        h == lo.drop_last() + hi.drop_last(),
    ensures
        h.len() == lo.len() + hi.len() - 2,
        forall|i: int| 0 <= i < lo.len() - 1 ==> #[trigger] h[i] == lo[i],
        forall|i: int| lo.len() - 1 <= i < h.len() ==> #[trigger] h[i] == hi[i - (lo.len() - 1)],
{
}

/// If every sorted point lay on the line through two distinct points, no
/// chain could turn: so some point lies off that line.
proof fn lemma_some_point_off_line(
    s: Seq<Pt>,
    r: Seq<Pt>,
    lo: Seq<Pt>,
    il: Seq<int>,
    hi: Seq<Pt>,
    iu: Seq<int>,
    a: Pt,
    b: Pt,
)
    requires
        hull_parts(s, r, lo, il, hi, iu),
        lo.len() >= 3 || hi.len() >= 3,
        a != b,
    ensures
        exists|j: int| 0 <= j < s.len() && cross(a, b, #[trigger] s[j]) != 0,
{
    lemma_parts_facts(s, r, lo, il, hi, iu);
    let m = s.len() as int;
    if forall|j: int| 0 <= j < s.len() ==> cross(a, b, #[trigger] s[j]) == 0 {
        if lo.len() >= 3 {
            assert(turn_at(lo, 0));
            assert(lo[0] == s[il[0]] && lo[1] == s[il[1]] && lo[2] == s[il[2]]);
            lemma_collinear3(a, b, s[il[0]], s[il[1]], s[il[2]]);
        } else {
            assert(turn_at(hi, 0));
            assert(hi[0] == s[m - 1 - iu[0]] && hi[1] == s[m - 1 - iu[1]] && hi[2] == s[m - 1
                - iu[2]]);
            lemma_collinear3(a, b, s[m - 1 - iu[0]], s[m - 1 - iu[1]], s[m - 1 - iu[2]]);
        }
    }
}

proof fn lemma_joined_edges(
    pts: Seq<Pt>,
    s: Seq<Pt>,
    r: Seq<Pt>,
    lo: Seq<Pt>,
    il: Seq<int>,
    hi: Seq<Pt>,
    iu: Seq<int>,
    h: Seq<Pt>,
)
    requires
        hull_parts(s, r, lo, il, hi, iu),
        same_points(pts, s),
        h == lo.drop_last() + hi.drop_last(),
    ensures
        forall|i: int, k: int|
            0 <= i < h.len() && 0 <= k < pts.len() ==> #[trigger] hull_edge_ok(h, i, pts[k]),
{
    lemma_parts_facts(s, r, lo, il, hi, iu);
    lemma_joined_positions(lo, hi, h);
    let ll = lo.len() as int;
    let n = h.len() as int;
    assert forall|i: int, k: int| 0 <= i < h.len() && 0 <= k < pts.len() implies #[trigger] hull_edge_ok(
        h,
        i,
        pts[k],
    ) by {
        assert(pts.contains(pts[k]));
        assert(s.contains(pts[k]));
        let j = choose|j: int| 0 <= j < s.len() && s[j] == pts[k];
        if i < ll - 1 {
            if i + 1 < ll - 1 {
                assert(h[i + 1] == lo[i + 1]);
            } else {
                assert(h[i + 1] == hi[0]);
            }
            assert(edge_holds(lo, i, s[j]));
        } else {
            let t = i - (ll - 1);
            if i + 1 < n {
                assert(h[i + 1] == hi[t + 1]);
            } else {
                assert(h[0] == lo[0]);
            }
            assert(edge_holds(hi, t, s[j]));
        }
    }
}

proof fn lemma_joined_turns(
    s: Seq<Pt>,
    r: Seq<Pt>,
    lo: Seq<Pt>,
    il: Seq<int>,
    hi: Seq<Pt>,
    iu: Seq<int>,
    h: Seq<Pt>,
)
    requires
        hull_parts(s, r, lo, il, hi, iu),
        h == lo.drop_last() + hi.drop_last(),
        h.len() >= 3,
    ensures
        forall|i: int| 0 <= i < h.len() ==> #[trigger] hull_turn(h, i),
{
    lemma_parts_facts(s, r, lo, il, hi, iu);
    lemma_joined_positions(lo, hi, h);
    let ll = lo.len() as int;
    let ul = hi.len() as int;
    let n = h.len() as int;
    let m = s.len() as int;
    assert(lo.len() >= 3 || hi.len() >= 3);
    // Where the lower chain hands over to the upper one.
    assert(hull_turn(h, ll - 2)) by {
        let p = lo[ll - 2];
        let q = lo[ll - 1];
        let b = hi[1];
        assert(h[ll - 2] == p);
        assert(h[ll - 1] == hi[0]);
        if ll < n {
            assert(h[ll] == hi[1]);
        } else {
            assert(h[0] == lo[0]);
        }
        assert(cyc(h, ll) == b);
        assert(b == s[m - 1 - iu[1]]);
        assert(edge_holds(lo, ll - 2, s[m - 1 - iu[1]]));
        assert(lex_lt(p, q));
        assert(lex_lt(b, hi[0]));
        if cross(p, q, b) == 0 {
            assert forall|j: int| 0 <= j < s.len() implies cross(p, q, #[trigger] s[j]) == 0 by {
                assert(edge_holds(lo, ll - 2, s[j]));
                assert(edge_holds(hi, 0, s[j]));
                lemma_junction(p, q, b, s[j], true);
            }
            lemma_some_point_off_line(s, r, lo, il, hi, iu, p, q);
        }
    }
    // Where the upper chain closes the polygon at the first point.
    assert(hull_turn(h, n - 1)) by {
        let p = hi[ul - 2];
        let q = hi[ul - 1];
        let b = lo[1];
        assert(h[n - 1] == p);
        assert(h[0] == lo[0]);
        if ll >= 3 {
            assert(h[1] == lo[1]);
        } else {
            assert(h[1] == hi[0]);
        }
        assert(cyc(h, n + 1) == b);
        assert(b == s[il[1]]);
        assert(edge_holds(hi, ul - 2, s[il[1]]));
        assert(lex_lt(q, p));
        assert(lex_lt(lo[0], b));
        if cross(p, q, b) == 0 {
            assert forall|j: int| 0 <= j < s.len() implies cross(p, q, #[trigger] s[j]) == 0 by {
                assert(edge_holds(hi, ul - 2, s[j]));
                assert(edge_holds(lo, 0, s[j]));
                lemma_junction(p, q, b, s[j], false);
            }
            lemma_some_point_off_line(s, r, lo, il, hi, iu, p, q);
        }
    }
    assert forall|i: int| 0 <= i < h.len() implies #[trigger] hull_turn(h, i) by {
        if i < ll - 2 {
            assert(h[i + 1] == lo[i + 1]);
            if i + 2 < ll - 1 {
                assert(h[i + 2] == lo[i + 2]);
            } else {
                assert(h[i + 2] == hi[0]);
            }
            assert(turn_at(lo, i));
        } else if ll - 1 <= i < n - 1 {
            let t = i - (ll - 1);
            assert(h[i] == hi[t]);
            assert(h[i + 1] == hi[t + 1]);
            if i + 2 < n {
                assert(h[i + 2] == hi[t + 2]);
            } else {
                assert(h[0] == lo[0]);
            }
            assert(turn_at(hi, t));
        }
    }
}

proof fn lemma_joined_distinct(
    s: Seq<Pt>,
    r: Seq<Pt>,
    lo: Seq<Pt>,
    il: Seq<int>,
    hi: Seq<Pt>,
    iu: Seq<int>,
    h: Seq<Pt>,
)
    requires
        hull_parts(s, r, lo, il, hi, iu),
        h == lo.drop_last() + hi.drop_last(),
    ensures
        forall|i: int, j: int| 0 <= i < j < h.len() ==> #[trigger] h[i] != #[trigger] h[j],
{
    lemma_parts_facts(s, r, lo, il, hi, iu);
    lemma_joined_positions(lo, hi, h);
    let ll = lo.len() as int;
    let ul = hi.len() as int;
    let m = s.len() as int;
    assert forall|i: int, j: int| 0 <= i < j < h.len() implies #[trigger] h[i] != #[trigger] h[j] by {
        if j < ll - 1 {
            assert(lex_lt(lo[i], lo[j]));
        } else if i >= ll - 1 {
            assert(lex_lt(hi[j - (ll - 1)], hi[i - (ll - 1)]));
        } else {
            let jp = j - (ll - 1);
            assert(h[j] == hi[jp]);
            assert(h[i] == lo[i]);
            if i == 0 {
                assert(iu[jp] < iu[ul - 1]);
                assert(hi[jp] == s[m - 1 - iu[jp]]);
                assert(lex_lt(s[0], s[m - 1 - iu[jp]]));
            } else if jp == 0 {
                assert(il[i] < il[ll - 1]);
                assert(lex_lt(s[il[i]], s[m - 1]));
            } else if lo[i] == hi[jp] {
                let q = lo[i];
                let a = lo[i - 1];
                let b = lo[i + 1];
                let c = hi[jp - 1];
                assert(lex_lt(a, q));
                assert(lex_lt(q, b));
                assert(lex_lt(q, c));
                assert(turn_at(lo, i - 1));
                assert(c == s[m - 1 - iu[jp - 1]]);
                assert(a == s[il[i - 1]]);
                assert(edge_holds(lo, i - 1, s[m - 1 - iu[jp - 1]]));
                assert(edge_holds(lo, i, s[m - 1 - iu[jp - 1]]));
                assert(edge_holds(hi, jp - 1, s[il[i - 1]]));
                lemma_no_shared_vertex(a, q, b, c);
            }
        }
    }
}


proof fn lemma_joined_hull(
    pts: Seq<Pt>,
    s: Seq<Pt>,
    r: Seq<Pt>,
    lo: Seq<Pt>,
    il: Seq<int>,
    hi: Seq<Pt>,
    iu: Seq<int>,
    h: Seq<Pt>,
)
    requires
        hull_parts(s, r, lo, il, hi, iu),
        same_points(pts, s),
        h == lo.drop_last() + hi.drop_last(),
    ensures
        is_convex_hull(pts, h),
{
    lemma_parts_facts(s, r, lo, il, hi, iu);
    lemma_joined_positions(lo, hi, h);
    lemma_joined_edges(pts, s, r, lo, il, hi, iu, h);
    lemma_joined_distinct(s, r, lo, il, hi, iu, h);
    if h.len() >= 3 {
        lemma_joined_turns(s, r, lo, il, hi, iu, h);
    }
    let ll = lo.len() as int;
    let m = s.len() as int;
    assert(s.contains(s[0]));
    assert(pts.contains(s[0]));
    assert forall|i: int| 0 <= i < h.len() implies pts.contains(#[trigger] h[i]) by {
        if i < ll - 1 {
            assert(s.contains(s[il[i]]));
        } else {
            let t = i - (ll - 1);
            assert(s.contains(s[m - 1 - iu[t]]));
        }
    }
    assert forall|k: int| 0 <= k < pts.len() && h.len() > 0 implies !lex_lt(#[trigger] pts[k], h[0]) by {
        assert(pts.contains(pts[k]));
        assert(s.contains(pts[k]));
        let t = choose|t: int| 0 <= t < s.len() && s[t] == pts[k];
        if t > 0 {
            assert(lex_lt(s[0], s[t]));
        }
    }
    if h.len() == 2 {
        assert(h[1] == hi[0]);
        assert forall|k: int| 0 <= k < pts.len() implies !lex_lt(h[1], #[trigger] pts[k]) by {
            assert(pts.contains(pts[k]));
            assert(s.contains(pts[k]));
            let t = choose|t: int| 0 <= t < s.len() && s[t] == pts[k];
            if t < m - 1 {
                assert(lex_lt(s[t], s[m - 1]));
            }
        }
    }
}

/// The convex hull of a set of pixel positions (Andrew's monotone chain):
/// the points are sorted, repeats dropped, and the lower and upper chains
/// joined. Fewer than three distinct points come back sorted.
pub fn convex_hull(points: &Vec<Pt>) -> (h: Vec<Pt>)
    ensures
        is_convex_hull(points@, h@),
{
    let s = sorted_points(points, 0, points.len());
    proof {
        assert(points@.subrange(0, points@.len() as int) =~= points@);
    }
    if s.len() < 3 {
        proof {
            lemma_small_hull(points@, s@);
        }
        return s;
    }
    let (mut lower, Ghost(il)) = half_chain(&s, true);
    let r = reversed(&s);
    proof {
        let m = s@.len() as int;
        assert forall|i: int, j: int| 0 <= i < j < r@.len() implies ahead(
            #[trigger] r@[i],
            #[trigger] r@[j],
            false,
        ) by {
            assert(lex_lt(s@[m - 1 - j], s@[m - 1 - i]));
        }
    }
    let (mut upper, Ghost(iu)) = half_chain(&r, false);
    let ghost lo = lower@;
    let ghost hi = upper@;
    lower.pop();
    upper.pop();
    lower.append(&mut upper);
    proof {
        assert(hull_parts(s@, r@, lo, il, hi, iu));
        assert(lower@ == lo.drop_last() + hi.drop_last());
        lemma_joined_hull(points@, s@, r@, lo, il, hi, iu, lower@);
    }
    lower
}

} // verus!
