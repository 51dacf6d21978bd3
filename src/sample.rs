//! Points of the plane with integer coordinates, as sample items for the tree.
use crate::heap::{heap_contents, heap_new};
use crate::metric::Metric;
use crate::topk::{accounted, heap_valid, is_knn, knn_at, nearest_from_queue, offer};
use crate::vptree::random_index;
use vstd::prelude::*;

verus! {

/// A point with an identity: two points are the same when their ids agree.
#[derive(Clone, Copy, Debug)]
pub struct Point {
    pub id: i32,
    pub x: i32,
    pub y: i32,
}

/// The squared Euclidean distance between two points.
pub open spec fn sq_dist(a: Point, b: Point) -> nat {
    ((a.x - b.x) * (a.x - b.x) + (a.y - b.y) * (a.y - b.y)) as nat
}

/// `r` is the square root of `v` rounded up.
pub open spec fn is_ceil_sqrt(v: nat, r: nat) -> bool {
    v <= r * r && (r == 0 || (r - 1) * (r - 1) < v)
}

/// The square root of `v` rounded up.
pub open spec fn ceil_sqrt(v: nat) -> nat {
    choose|r: nat| is_ceil_sqrt(v, r)
}

/// One unit of Euclidean length in the fixed-point distances of points.
pub const UNIT: u64 = 0x1_0000;

/// The Euclidean distance between two points in fixed point, `UNIT` to one
/// unit of length, rounded up.
pub open spec fn point_dist(a: Point, b: Point) -> nat {
    ceil_sqrt((sq_dist(a, b) * (UNIT * UNIT)) as nat)
}

proof fn lemma_square_monotone(p: int, q: int)
    requires
        0 <= p <= q,
    ensures
        p * p <= q * q,
{
    assert(p * p <= q * q) by (nonlinear_arith)
        requires
            0 <= p <= q,
    ;
}

/// Every natural number has a rounded-up square root, and only one.
proof fn lemma_ceil_sqrt(v: nat)
    ensures
        is_ceil_sqrt(v, ceil_sqrt(v)),
        forall|r: nat| is_ceil_sqrt(v, r) ==> r == ceil_sqrt(v),
    decreases v,
{
    let w: nat = if v == 0 {
        0
    } else {
        lemma_ceil_sqrt((v - 1) as nat);
        let r = ceil_sqrt((v - 1) as nat);
        if v <= r * r {
            r
        } else {
            r + 1
        }
    };
    if v > 0 {
        let r = ceil_sqrt((v - 1) as nat);
        if v > r * r {
            assert((w - 1) * (w - 1) == r * r);
            assert(w * w == r * r + 2 * r + 1) by (nonlinear_arith)
                requires
                    w == r + 1,
            ;
        }
    }
    assert(is_ceil_sqrt(v, w));
    assert forall|r1: nat, r2: nat| is_ceil_sqrt(v, r1) && is_ceil_sqrt(v, r2) implies r1 == r2 by {
        if r1 < r2 {
            lemma_square_monotone(r1 as int, r2 - 1);
        } else if r2 < r1 {
            lemma_square_monotone(r2 as int, r1 - 1);
        }
    }
}

/// Cauchy-Schwarz in the plane.
proof fn lemma_cauchy_schwarz(u1: int, u2: int, w1: int, w2: int)
    ensures
        (u1 * w1 + u2 * w2) * (u1 * w1 + u2 * w2) <= (u1 * u1 + u2 * u2) * (w1 * w1 + w2 * w2),
{
    let p = u1 * w1;
    let q = u2 * w2;
    let r = u1 * w2;
    let s = u2 * w1;
    assert((u1 * u1 + u2 * u2) * (w1 * w1 + w2 * w2) == (u1 * u1) * (w1 * w1) + (u1 * u1) * (w2
        * w2) + (u2 * u2) * (w1 * w1) + (u2 * u2) * (w2 * w2)) by (nonlinear_arith);
    assert((u1 * u1) * (w1 * w1) == p * p) by (nonlinear_arith)
        requires
            p == u1 * w1,
    ;
    assert((u2 * u2) * (w2 * w2) == q * q) by (nonlinear_arith)
        requires
            q == u2 * w2,
    ;
    assert((u1 * u1) * (w2 * w2) == r * r) by (nonlinear_arith)
        requires
            r == u1 * w2,
    ;
    assert((u2 * u2) * (w1 * w1) == s * s) by (nonlinear_arith)
        requires
            s == u2 * w1,
    ;
    assert(p * q == r * s) by (nonlinear_arith)
        requires
            p == u1 * w1,
            q == u2 * w2,
            r == u1 * w2,
            s == u2 * w1,
    ;
    assert((p + q) * (p + q) <= p * p + q * q + r * r + s * s) by (nonlinear_arith)
        requires
            p * q == r * s,
    ;
}

/// A square no greater than another has a base no greater, for bases that
/// are not negative.
proof fn lemma_root_monotone(p: int, q: int)
    requires
        q >= 0,
        p * p <= q * q,
    ensures
        p <= q,
{
    if p > q {
        assert(p * p > q * q) by (nonlinear_arith)
            requires
                p > q,
                q >= 0,
        ;
    }
}

/// The rounded-up fixed-point Euclidean distance meets the triangle
/// inequality.
proof fn lemma_point_triangle(a: Point, b: Point, c: Point)
    ensures
        point_dist(a, c) <= point_dist(a, b) + point_dist(b, c),
{
    let u1 = a.x - b.x;
    let u2 = a.y - b.y;
    let w1 = b.x - c.x;
    let w2 = b.y - c.y;
    let d1 = u1 * u1 + u2 * u2;
    let d2 = w1 * w1 + w2 * w2;
    let d3 = (u1 + w1) * (u1 + w1) + (u2 + w2) * (u2 + w2);
    assert(d1 >= 0 && d2 >= 0 && d3 >= 0) by (nonlinear_arith)
        requires
            d1 == u1 * u1 + u2 * u2,
            d2 == w1 * w1 + w2 * w2,
            d3 == (u1 + w1) * (u1 + w1) + (u2 + w2) * (u2 + w2),
    ;
    assert(a.x - c.x == u1 + w1 && a.y - c.y == u2 + w2);
    assert(sq_dist(a, b) == d1);
    assert(sq_dist(b, c) == d2);
    assert(sq_dist(a, c) == d3);
    let sc: int = (UNIT * UNIT) as int;
    let e1 = d1 * sc;
    let e2 = d2 * sc;
    let e3 = d3 * sc;
    assert(e1 >= 0 && e2 >= 0 && e3 >= 0) by (nonlinear_arith)
        requires
            e1 == d1 * sc,
            e2 == d2 * sc,
            e3 == d3 * sc,
            d1 >= 0,
            d2 >= 0,
            d3 >= 0,
            sc >= 0,
    ;
    lemma_ceil_sqrt(e1 as nat);
    lemma_ceil_sqrt(e2 as nat);
    lemma_ceil_sqrt(e3 as nat);
    let c1 = point_dist(a, b) as int;
    let c2 = point_dist(b, c) as int;
    let c3 = point_dist(a, c) as int;
    let dot = u1 * w1 + u2 * w2;
    assert(d3 == d1 + d2 + 2 * dot) by (nonlinear_arith)
        requires
            d1 == u1 * u1 + u2 * u2,
            d2 == w1 * w1 + w2 * w2,
            d3 == (u1 + w1) * (u1 + w1) + (u2 + w2) * (u2 + w2),
            dot == u1 * w1 + u2 * w2,
    ;
    lemma_cauchy_schwarz(u1, u2, w1, w2);
    let dots = dot * sc;
    assert(e3 == e1 + e2 + 2 * dots) by (nonlinear_arith)
        requires
            d3 == d1 + d2 + 2 * dot,
            e1 == d1 * sc,
            e2 == d2 * sc,
            e3 == d3 * sc,
            dots == dot * sc,
    ;
    assert(dots * dots <= e1 * e2) by (nonlinear_arith)
        requires
            dot * dot <= d1 * d2,
            e1 == d1 * sc,
            e2 == d2 * sc,
            dots == dot * sc,
    ;
    assert(e1 * e2 <= (c1 * c1) * (c2 * c2)) by (nonlinear_arith)
        requires
            0 <= e1 <= c1 * c1,
            0 <= e2 <= c2 * c2,
    ;
    assert((c1 * c1) * (c2 * c2) == (c1 * c2) * (c1 * c2)) by (nonlinear_arith);
    assert(c1 * c2 >= 0) by (nonlinear_arith)
        requires
            c1 >= 0,
            c2 >= 0,
    ;
    lemma_root_monotone(dots, c1 * c2);
    assert(e3 <= (c1 + c2) * (c1 + c2)) by (nonlinear_arith)
        requires
            e3 == e1 + e2 + 2 * dots,
            e1 <= c1 * c1,
            e2 <= c2 * c2,
            dots <= c1 * c2,
    ;
    if c3 > c1 + c2 {
        lemma_square_monotone(c1 + c2, c3 - 1);
    }
}

/// The square root of `v` rounded up, by bisection.
fn ceil_sqrt_exec(v: u128) -> (r: u64)
    requires
        v <= 0x4_0000_0000_0000_0000_0000_0000,
    ensures
        is_ceil_sqrt(v as nat, r as nat),
{
    let mut lo: u128 = 0;
    let mut hi: u128 = 0x2_0000_0000_0000;
    assert(hi * hi == 0x4_0000_0000_0000_0000_0000_0000) by (nonlinear_arith)
        requires
            hi == 0x2_0000_0000_0000,
    ;
    while lo < hi
        invariant
            lo <= hi <= 0x2_0000_0000_0000,
            v <= hi * hi,
            lo == 0 || (lo - 1) * (lo - 1) < v,
        decreases hi - lo,
    {
        let mid = lo + (hi - lo) / 2;
        assert(mid * mid <= 0x4_0000_0000_0000_0000_0000_0000) by (nonlinear_arith)
            requires
                mid <= 0x2_0000_0000_0000,
        ;
        if mid * mid >= v {
            hi = mid;
        } else {
            lo = mid + 1;
        }
    }
    lo as u64
}

impl Metric for Point {
    open spec fn dist_spec(a: Point, b: Point) -> nat {
        point_dist(a, b)
    }

    open spec fn same_spec(a: Point, b: Point) -> bool {
        a.id == b.id
    }

    /// The Euclidean distance in fixed point, rounded up.
    fn distance(a: &Point, b: &Point) -> (r: u64) {
        let dx = (a.x as i64) - (b.x as i64);
        let dy = (a.y as i64) - (b.y as i64);
        assert(dx * dx <= 0xffff_fffe_0000_0001 && dx * dx >= 0) by (nonlinear_arith)
            requires
                -0xffff_ffff <= dx <= 0xffff_ffff,
        ;
        assert(dy * dy <= 0xffff_fffe_0000_0001 && dy * dy >= 0) by (nonlinear_arith)
            requires
                -0xffff_ffff <= dy <= 0xffff_ffff,
        ;
        let sx = (dx as i128) * (dx as i128);
        let sy = (dy as i128) * (dy as i128);
        let v = (sx + sy) as u128;
        assert(v * 0x1_0000_0000 <= 0x4_0000_0000_0000_0000_0000_0000) by (nonlinear_arith)
            requires
                v <= 0x1_ffff_fffc_0000_0002,
        ;
        let r = ceil_sqrt_exec(v * ((UNIT * UNIT) as u128));
        proof {
            assert(v as nat == sq_dist(*a, *b));
            lemma_ceil_sqrt((sq_dist(*a, *b) * (UNIT * UNIT)) as nat);
        }
        r
    }

    fn same(a: &Point, b: &Point) -> (r: bool) {
        a.id == b.id
    }

    proof fn lemma_metric(a: Point, b: Point, c: Point) {
        assert((a.x - b.x) * (a.x - b.x) == (b.x - a.x) * (b.x - a.x)) by (nonlinear_arith);
        assert((a.y - b.y) * (a.y - b.y) == (b.y - a.y) * (b.y - a.y)) by (nonlinear_arith);
        assert(sq_dist(a, b) == sq_dist(b, a));
        assert(point_dist(a, b) == point_dist(b, a));
        lemma_point_triangle(a, b, c);
    }
}

impl PartialEq for Point {
    fn eq(&self, other: &Point) -> (r: bool) {
        self.id == other.id
    }
}

impl vstd::std_specs::cmp::PartialEqSpecImpl for Point {
    open spec fn obeys_eq_spec() -> bool {
        true
    }

    open spec fn eq_spec(&self, other: &Point) -> bool {
        self.id == other.id
    }
}

impl Eq for Point {

}

/// `n` points with ids `0..n` and coordinates drawn uniformly from `[0, 1000)`.
pub fn generate_data(n: i32) -> (r: Vec<Point>)
    ensures
        r@.len() == if n > 0 {
            n as int
        } else {
            0
        },
        forall|i: int|
            0 <= i < r@.len() ==> {
                &&& #[trigger] r@[i].id == i
                &&& 0 <= r@[i].x < 1000
                &&& 0 <= r@[i].y < 1000
            },
{
    let mut r: Vec<Point> = Vec::new();
    let mut id: i32 = 0;
    while id < n
        invariant
            0 <= id,
            n > 0 ==> id <= n,
            n <= 0 ==> id == 0,
            r@.len() == id,
            forall|i: int|
                0 <= i < r@.len() ==> {
                    &&& #[trigger] r@[i].id == i
                    &&& 0 <= r@[i].x < 1000
                    &&& 0 <= r@[i].y < 1000
                },
        decreases n - id,
    {
        let x = random_index(0, 1000) as i32;
        let y = random_index(0, 1000) as i32;
        r.push(Point { id, x, y });
        id = id + 1;
    }
    r
}

/// The `k` points of `d` nearest to `p`, leaving `p` itself out, by a scan of
/// every point.
pub fn bf_knn(d: &Vec<Point>, p: &Point, k: usize) -> (r: Vec<(Point, u64)>)
    ensures
        r@.len() <= k,
        forall|q: int|
            0 <= q < r@.len() ==> {
                &&& d@.contains(#[trigger] r@[q].0)
                &&& r@[q].0.id != p.id
                &&& r@[q].1 as nat == point_dist(r@[q].0, *p)
            },
        forall|q1: int, q2: int| 0 <= q1 < q2 < r@.len() ==> r@[q1].1 <= r@[q2].1,
        is_knn(d@, *p, k as int, r@),
{
    if k == 0 {
        let r: Vec<(Point, u64)> = Vec::new();
        proof {
            assert(knn_at(d@, *p, 0, r@, Seq::<int>::empty()));
        }
        return r;
    }
    let mut heap = heap_new();
    for i in 0..d.len()
        invariant
            k > 0,
            heap_valid(d@, *p, k as int, heap_contents(heap)),
            forall|x: (u64, usize)| #[trigger] heap_contents(heap).count(x) > 0 ==> x.1 < i,
            forall|j: int| 0 <= j < i ==> #[trigger] accounted(d@, *p, k as int, heap_contents(heap), j),
    {
        let dist = Point::distance(&d[i], p);
        offer(d, &mut heap, p, k, i, dist);
    }
    nearest_from_queue(d, p, k, heap)
}

} // verus!
