use vstd::arithmetic::mul::{lemma_mul_inequality, lemma_mul_is_commutative};
use vstd::math::{max, min};
use vstd::prelude::*;

verus! {

/// Fixed-point denominator standing for 1.0: UV coordinates and downsample
/// factors are integers in units of `1 / UNIT_DENOM`.
pub const UNIT_DENOM: u32 = 10000;

/// Pixel x derived from a fixed-point U coordinate: `u * width / UNIT_DENOM`
/// rounded to the nearest integer, saturating at `u32::MAX`. U values above
/// `UNIT_DENOM` are accepted and simply land outside the image; the caller
/// clamps during cropping.
pub open spec fn spec_pixel_x(u: u32, width: u32) -> u32 {
    let x = ((u as int) * (width as int) + (UNIT_DENOM as int) / 2) / (UNIT_DENOM as int);
    if x > u32::MAX as int {
        u32::MAX
    } else {
        x as u32
    }
}

/// Pixel y derived from a fixed-point V coordinate. The V axis points up from
/// a bottom-left origin while pixel rows grow downward from a top-left origin,
/// so y is derived from `1 - v`; V values above `UNIT_DENOM` land on row 0.
pub open spec fn spec_pixel_y(v: u32, height: u32) -> u32 {
    if v >= UNIT_DENOM {
        0u32
    } else {
        ((((UNIT_DENOM - v) as int) * (height as int) + (UNIT_DENOM as int) / 2)
            / (UNIT_DENOM as int)) as u32
    }
}

/// One UV pair converted to pixel coordinates.
pub open spec fn spec_uv_to_pixel(uv: (u32, u32), width: u32, height: u32) -> (u32, u32) {
    (spec_pixel_x(uv.0, width), spec_pixel_y(uv.1, height))
}

/// Converts fixed-point UV coordinates (bottom-left origin) into pixel
/// coordinates (top-left origin) of an image of the given dimensions.
pub fn uv_to_pixel_coords(uv_coords: &Vec<(u32, u32)>, width: u32, height: u32) -> (r: Vec<
    (u32, u32),
>)
    ensures
        r@.len() == uv_coords@.len(),
        forall|i: int|
            0 <= i < r@.len() ==> r@[i] == spec_uv_to_pixel(uv_coords@[i], width, height),
{
    let mut r: Vec<(u32, u32)> = Vec::new();
    let mut i: usize = 0;
    while i < uv_coords.len()
        invariant
            i <= uv_coords@.len(),
            r@.len() == i,
            forall|k: int|
                0 <= k < i ==> r@[k] == spec_uv_to_pixel(uv_coords@[k], width, height),
        decreases uv_coords@.len() - i,
    {
        let (u, v) = uv_coords[i];
        r.push((pixel_x(u, width), pixel_y(v, height)));
        i = i + 1;
    }
    r
}

fn pixel_x(u: u32, width: u32) -> (r: u32)
    ensures
        r == spec_pixel_x(u, width),
{
    proof {
        lemma_mul_inequality(u as int, u32::MAX as int, width as int);
        lemma_mul_is_commutative(u32::MAX as int, width as int);
        lemma_mul_inequality(width as int, u32::MAX as int, u32::MAX as int);
    }
    let x = ((u as u64) * (width as u64) + (UNIT_DENOM as u64) / 2) / (UNIT_DENOM as u64);
    if x > u32::MAX as u64 {
        u32::MAX
    } else {
        x as u32
    }
}

fn pixel_y(v: u32, height: u32) -> (r: u32)
    ensures
        r == spec_pixel_y(v, height),
{
    if v >= UNIT_DENOM {
        0
    } else {
        proof {
            lemma_mul_inequality((UNIT_DENOM - v) as int, UNIT_DENOM as int, height as int);
        }
        let y = (((UNIT_DENOM - v) as u64) * (height as u64) + (UNIT_DENOM as u64) / 2) / (
        UNIT_DENOM as u64);
        y as u32
    }
}

/// The axis-aligned bounding box `(min_x, min_y, max_x, max_y)` of a non-empty
/// point sequence.
pub open spec fn spec_bbox(points: Seq<(u32, u32)>) -> (int, int, int, int)
    recommends
        points.len() >= 1,
    decreases points.len(),
{
    if points.len() <= 1 {
        (points[0].0 as int, points[0].1 as int, points[0].0 as int, points[0].1 as int)
    } else {
        let rest = spec_bbox(points.drop_last());
        let p = points.last();
        (
            min(rest.0, p.0 as int),
            min(rest.1, p.1 as int),
            max(rest.2, p.0 as int),
            max(rest.3, p.1 as int),
        )
    }
}

/// Computes the bounding box `(min_x, min_y, max_x, max_y)` of a non-empty
/// point set. Callers must guarantee at least one point.
pub fn calc_bbox(points: &Vec<(u32, u32)>) -> (r: (u32, u32, u32, u32))
    requires
        points@.len() >= 1,
    ensures
        (r.0 as int, r.1 as int, r.2 as int, r.3 as int) == spec_bbox(points@),
{
    let (x0, y0) = points[0];
    let mut r: (u32, u32, u32, u32) = (x0, y0, x0, y0);
    let mut i: usize = 1;
    proof {
        assert(points@.subrange(0, 1) =~= seq![points@[0]]);
    }
    while i < points.len()
        invariant
            1 <= i <= points@.len(),
            (r.0 as int, r.1 as int, r.2 as int, r.3 as int) == spec_bbox(
                points@.subrange(0, i as int),
            ),
        decreases points@.len() - i,
    {
        let (x, y) = points[i];
        proof {
            assert(points@.subrange(0, i + 1).drop_last() =~= points@.subrange(0, i as int));
        }
        r = (
            if x < r.0 {
                x
            } else {
                r.0
            },
            if y < r.1 {
                y
            } else {
                r.1
            },
            if x > r.2 {
                x
            } else {
                r.2
            },
            if y > r.3 {
                y
            } else {
                r.3
            },
        );
        i = i + 1;
    }
    proof {
        assert(points@.subrange(0, points@.len() as int) =~= points@);
    }
    r
}

/// A box covers every point of a sequence.
pub open spec fn bbox_covers(b: (int, int, int, int), points: Seq<(u32, u32)>) -> bool {
    forall|i: int| 0 <= i < points.len() ==> bbox_contains_point(b, #[trigger] points[i])
}

/// Each side of the bounding box is attained by some point; the returned
/// tuple holds one witness index per side.
proof fn lemma_bbox_attained(points: Seq<(u32, u32)>) -> (w: (int, int, int, int))
    requires
        points.len() >= 1,
    ensures
        0 <= w.0 < points.len() && spec_bbox(points).0 == points[w.0].0,
        0 <= w.1 < points.len() && spec_bbox(points).1 == points[w.1].1,
        0 <= w.2 < points.len() && spec_bbox(points).2 == points[w.2].0,
        0 <= w.3 < points.len() && spec_bbox(points).3 == points[w.3].1,
    decreases points.len(),
{
    if points.len() <= 1 {
        (0, 0, 0, 0)
    } else {
        let prev = points.drop_last();
        let pw = lemma_bbox_attained(prev);
        assert(forall|i: int| 0 <= i < prev.len() ==> #[trigger] prev[i] == points[i]);
        let b = spec_bbox(points);
        let last = points.len() - 1;
        let w0: int = if b.0 == points[last].0 as int {
            last
        } else {
            pw.0
        };
        let w1: int = if b.1 == points[last].1 as int {
            last
        } else {
            pw.1
        };
        let w2: int = if b.2 == points[last].0 as int {
            last
        } else {
            pw.2
        };
        let w3: int = if b.3 == points[last].1 as int {
            last
        } else {
            pw.3
        };
        (w0, w1, w2, w3)
    }
}

/// The bounding box of a non-empty point set covers every point, and it is
/// the least box that does: any other covering box contains it.
pub proof fn lemma_bbox_bounds(points: Seq<(u32, u32)>)
    requires
        points.len() >= 1,
    ensures
        bbox_covers(spec_bbox(points), points),
        forall|c: (int, int, int, int)|
            #[trigger] bbox_covers(c, points) ==> bbox_contains(c, spec_bbox(points)),
    decreases points.len(),
{
    let b = spec_bbox(points);
    if points.len() <= 1 {
        assert(bbox_contains_point(b, points[0]));
    } else {
        let prev = points.drop_last();
        lemma_bbox_bounds(prev);
        assert(forall|i: int| 0 <= i < prev.len() ==> #[trigger] prev[i] == points[i]);
        assert forall|i: int| 0 <= i < points.len() implies bbox_contains_point(
            b,
            #[trigger] points[i],
        ) by {
            if i < points.len() - 1 {
                assert(bbox_contains_point(spec_bbox(prev), prev[i]));
            }
        }
    }
    let w = lemma_bbox_attained(points);
    assert forall|c: (int, int, int, int)| #[trigger]
        bbox_covers(c, points) implies bbox_contains(c, b) by {
        assert(bbox_contains_point(c, points[w.0]));
        assert(bbox_contains_point(c, points[w.1]));
        assert(bbox_contains_point(c, points[w.2]));
        assert(bbox_contains_point(c, points[w.3]));
    }
}

/// Closed-interval intersection of two boxes in `(min_x, min_y, max_x, max_y)`
/// form; boxes that merely touch along an edge count as intersecting.
pub open spec fn bbox_intersects(a: (int, int, int, int), b: (int, int, int, int)) -> bool {
    !(a.2 < b.0 || b.2 < a.0 || a.3 < b.1 || b.3 < a.1)
}

/// The smallest box covering both arguments.
pub open spec fn bbox_union(a: (int, int, int, int), b: (int, int, int, int)) -> (
    int,
    int,
    int,
    int,
) {
    (min(a.0, b.0), min(a.1, b.1), max(a.2, b.2), max(a.3, b.3))
}

/// `outer` covers `inner`.
pub open spec fn bbox_contains(outer: (int, int, int, int), inner: (int, int, int, int)) -> bool {
    outer.0 <= inner.0 && outer.1 <= inner.1 && inner.2 <= outer.2 && inner.3 <= outer.3
}

/// A point lies within a box, both bounds inclusive.
pub open spec fn bbox_contains_point(b: (int, int, int, int), p: (u32, u32)) -> bool {
    b.0 <= p.0 as int && p.0 as int <= b.2 && b.1 <= p.1 as int && p.1 as int <= b.3
}

/// The union of a seed box with a sequence of boxes, folded in order.
pub open spec fn fold_bbox_union(
    seed: (int, int, int, int),
    boxes: Seq<(int, int, int, int)>,
) -> (int, int, int, int)
    decreases boxes.len(),
{
    if boxes.len() == 0 {
        seed
    } else {
        bbox_union(fold_bbox_union(seed, boxes.drop_last()), boxes.last())
    }
}

/// `c` covers every box of the sequence.
pub open spec fn bbox_covers_all(
    c: (int, int, int, int),
    boxes: Seq<(int, int, int, int)>,
) -> bool {
    forall|i: int| 0 <= i < boxes.len() ==> bbox_contains(c, #[trigger] boxes[i])
}

/// A folded union covers its seed and every box, and it is the least box
/// that does.
pub proof fn lemma_fold_union_bounds(seed: (int, int, int, int), boxes: Seq<(int, int, int, int)>)
    ensures
        bbox_contains(fold_bbox_union(seed, boxes), seed),
        bbox_covers_all(fold_bbox_union(seed, boxes), boxes),
        forall|c: (int, int, int, int)|
            bbox_contains(c, seed) && #[trigger] bbox_covers_all(c, boxes) ==> bbox_contains(
                c,
                fold_bbox_union(seed, boxes),
            ),
    decreases boxes.len(),
{
    let f = fold_bbox_union(seed, boxes);
    if boxes.len() > 0 {
        let prev = boxes.drop_last();
        lemma_fold_union_bounds(seed, prev);
        assert(forall|i: int| 0 <= i < prev.len() ==> #[trigger] prev[i] == boxes[i]);
        assert forall|i: int| 0 <= i < boxes.len() implies bbox_contains(
            f,
            #[trigger] boxes[i],
        ) by {
            if i < boxes.len() - 1 {
                assert(bbox_contains(fold_bbox_union(seed, prev), prev[i]));
            }
        }
        assert forall|c: (int, int, int, int)|
            bbox_contains(c, seed) && #[trigger] bbox_covers_all(c, boxes) implies bbox_contains(
            c,
            f,
        ) by {
            assert forall|i: int| 0 <= i < prev.len() implies bbox_contains(
                c,
                #[trigger] prev[i],
            ) by {
                assert(bbox_contains(c, boxes[i]));
            }
            assert(bbox_covers_all(c, prev));
            assert(bbox_contains(c, fold_bbox_union(seed, prev)));
            assert(bbox_contains(c, boxes.last()));
        }
    }
}

/// Folding box unions does not depend on the order of the boxes: two
/// sequences holding the same boxes fold to the same result. Since each
/// coalescing step grows a crop region by exactly one such union, repeated
/// coalescing over the same polygons yields one region whatever the merge
/// order.
pub proof fn lemma_fold_union_permutation(
    seed: (int, int, int, int),
    s: Seq<(int, int, int, int)>,
    t: Seq<(int, int, int, int)>,
)
    requires
        s.to_multiset() == t.to_multiset(),
    ensures
        fold_bbox_union(seed, s) == fold_bbox_union(seed, t),
{
    let fs = fold_bbox_union(seed, s);
    let ft = fold_bbox_union(seed, t);
    lemma_fold_union_bounds(seed, s);
    lemma_fold_union_bounds(seed, t);
    s.to_multiset_ensures();
    t.to_multiset_ensures();
    assert forall|i: int| 0 <= i < t.len() implies bbox_contains(fs, #[trigger] t[i]) by {
        assert(t.contains(t[i]));
        assert(t.to_multiset().count(t[i]) > 0);
        assert(s.to_multiset().count(t[i]) > 0);
        assert(s.contains(t[i]));
        let j = choose|j: int| 0 <= j < s.len() && s[j] == t[i];
        assert(bbox_contains(fs, s[j]));
    }
    assert(bbox_covers_all(fs, t));
    assert(bbox_contains(fs, ft));
    assert forall|i: int| 0 <= i < s.len() implies bbox_contains(ft, #[trigger] s[i]) by {
        assert(s.contains(s[i]));
        assert(s.to_multiset().count(s[i]) > 0);
        assert(t.to_multiset().count(s[i]) > 0);
        assert(t.contains(s[i]));
        let j = choose|j: int| 0 <= j < t.len() && t[j] == s[i];
        assert(bbox_contains(ft, t[j]));
    }
    assert(bbox_covers_all(ft, s));
    assert(bbox_contains(ft, fs));
}

/// A vertex in doubled coordinates. Containment queries run in a grid scaled
/// by two: pixel centers become odd integers, so a query point never shares a
/// row or column with a polygon vertex and no degenerate ray cases arise.
pub open spec fn doubled(q: (u32, u32)) -> (int, int) {
    (2 * q.0 as int, 2 * q.1 as int)
}

/// A horizontal ray cast from `p` towards +x crosses the upward edge
/// `lo -> hi`: `p` lies strictly between the edge's two y levels and strictly
/// left of the edge line.
pub open spec fn upward_edge_crosses(lo: (int, int), hi: (int, int), p: (int, int)) -> bool {
    lo.1 < p.1 && p.1 < hi.1 && (hi.0 - lo.0) * (p.1 - lo.1) - (p.0 - lo.0) * (hi.1 - lo.1) > 0
}

/// The ray from `p` crosses the edge between `a` and `b`, whichever way the
/// edge is directed.
pub open spec fn edge_crosses(a: (int, int), b: (int, int), p: (int, int)) -> bool {
    if a.1 < b.1 {
        upward_edge_crosses(a, b, p)
    } else {
        upward_edge_crosses(b, a, p)
    }
}

/// How many of the polygon's first `n` edges the ray from `p` crosses; edge
/// `i` runs from vertex `i` to vertex `i + 1`, wrapping at the end.
pub open spec fn crossings(poly: Seq<(u32, u32)>, p: (int, int), n: int) -> int
    recommends
        poly.len() >= 1,
        n <= poly.len(),
    decreases n,
{
    if n <= 0 {
        0
    } else {
        let a = doubled(poly[n - 1]);
        let b = doubled(
            poly[if n == poly.len() {
                0int
            } else {
                n
            }],
        );
        crossings(poly, p, n - 1) + if edge_crosses(a, b, p) {
            1int
        } else {
            0int
        }
    }
}

/// Even-odd rule: the point `p`, given in doubled coordinates, lies inside
/// the polygon iff a horizontal ray from it crosses an odd number of edges.
pub open spec fn spec_point_in_polygon(poly: Seq<(u32, u32)>, p: (int, int)) -> bool {
    crossings(poly, p, poly.len() as int) % 2 == 1
}

/// `p` lies inside at least one of the polygons.
pub open spec fn spec_in_any_polygon(polys: Seq<Seq<(u32, u32)>>, p: (int, int)) -> bool {
    exists|k: int| 0 <= k < polys.len() && #[trigger] spec_point_in_polygon(polys[k], p)
}

/// Doubled coordinates stay below this bound.
pub const DOUBLED_MAX: u64 = 0x1_FFFF_FFFF;

fn edge_crosses_exec(a: (u32, u32), b: (u32, u32), px2: u64, py2: u64) -> (r: bool)
    requires
        px2 <= DOUBLED_MAX,
        py2 <= DOUBLED_MAX,
    ensures
        r == edge_crosses(doubled(a), doubled(b), (px2 as int, py2 as int)),
{
    let ax: i128 = 2 * (a.0 as i128);
    let ay: i128 = 2 * (a.1 as i128);
    let bx: i128 = 2 * (b.0 as i128);
    let by: i128 = 2 * (b.1 as i128);
    let px: i128 = px2 as i128;
    let py: i128 = py2 as i128;
    let (lox, loy, hix, hiy) = if ay < by {
        (ax, ay, bx, by)
    } else {
        (bx, by, ax, ay)
    };
    if !(loy < py && py < hiy) {
        return false;
    }
    let dx = hix - lox;
    let ty = py - loy;
    let qx = px - lox;
    let dy = hiy - loy;
    proof {
        let bound: int = 0x4_0000_0000;
        assert(-bound * bound <= (dx as int) * (ty as int) <= bound * bound && -bound * bound <= (
        qx as int) * (dy as int) <= bound * bound) by (nonlinear_arith)
            requires
                -bound <= dx as int <= bound,
                -bound <= ty as int <= bound,
                -bound <= qx as int <= bound,
                -bound <= dy as int <= bound,
        ;
    }
    dx * ty - qx * dy > 0
}

/// Even-odd point-in-polygon test. `px2` and `py2` are doubled coordinates: a
/// pixel center `(x + 1/2, y + 1/2)` is passed as `(2 x + 1, 2 y + 1)`.
pub fn point_in_polygon(poly: &Vec<(u32, u32)>, px2: u64, py2: u64) -> (r: bool)
    requires
        poly@.len() >= 1,
        px2 <= DOUBLED_MAX,
        py2 <= DOUBLED_MAX,
    ensures
        r == spec_point_in_polygon(poly@, (px2 as int, py2 as int)),
{
    let ghost p: (int, int) = (px2 as int, py2 as int);
    let n = poly.len();
    let mut count: usize = 0;
    let mut i: usize = 0;
    while i < n
        invariant
            n == poly@.len(),
            0 <= i <= n,
            count <= i,
            count as int == crossings(poly@, p, i as int),
            p == (px2 as int, py2 as int),
            px2 <= DOUBLED_MAX,
            py2 <= DOUBLED_MAX,
        decreases n - i,
    {
        let a = poly[i];
        let b = poly[if i + 1 == n {
            0
        } else {
            i + 1
        }];
        if edge_crosses_exec(a, b, px2, py2) {
            count = count + 1;
        }
        i = i + 1;
    }
    count % 2 == 1
}

/// Tests the point against every polygon in turn.
pub fn point_in_any_polygon(polys: &Vec<Vec<(u32, u32)>>, px2: u64, py2: u64) -> (r: bool)
    requires
        forall|k: int| 0 <= k < polys@.len() ==> #[trigger] polys@[k]@.len() >= 1,
        px2 <= DOUBLED_MAX,
        py2 <= DOUBLED_MAX,
    ensures
        r == spec_in_any_polygon(polys@.map_values(|v: Vec<(u32, u32)>| v@), (
        px2 as int,
        py2 as int,
        )),
{
    let ghost pv = polys@.map_values(|v: Vec<(u32, u32)>| v@);
    let ghost p: (int, int) = (px2 as int, py2 as int);
    let mut i: usize = 0;
    while i < polys.len()
        invariant
            0 <= i <= polys@.len(),
            pv == polys@.map_values(|v: Vec<(u32, u32)>| v@),
            p == (px2 as int, py2 as int),
            px2 <= DOUBLED_MAX,
            py2 <= DOUBLED_MAX,
            forall|k: int| 0 <= k < polys@.len() ==> #[trigger] polys@[k]@.len() >= 1,
            forall|k: int| 0 <= k < i ==> !#[trigger] spec_point_in_polygon(pv[k], p),
        decreases polys@.len() - i,
    {
        if point_in_polygon(&polys[i], px2, py2) {
            assert(spec_point_in_polygon(pv[i as int], p));
            return true;
        }
        i = i + 1;
    }
    false
}

} // verus!
