use vstd::prelude::*;
use crate::point::{
    add_spec, cross_spec, dot_spec, is_isqrt, isqrt, on_segment_spec, sub_spec, within, Point2D,
    Segment, MAX_VERTICES, OFFSET_LIMIT, VERTEX_LIMIT,
};
use itertools::Itertools;

verus! {

/// How an edge of the stationary polygon A and an edge of the moving polygon B touch.
#[derive(Clone, Copy, Debug, PartialEq, Eq, Structural)]
pub enum TouchingType {
    /// The two edges start at the same point.
    A,
    /// B's edge starts on A's edge.
    B,
    /// A's edge starts on B's edge.
    C,
}

/// A touching, anchored at a vertex of A and a vertex of B.
#[derive(Clone, Copy, Debug, PartialEq, Eq, Structural)]
pub struct Touching {
    pub tt: TouchingType,
    pub a: usize,
    pub b: usize,
}

/// The polygon whose adjacency produced a candidate translation.
#[derive(Clone, Copy, Debug, PartialEq, Eq, Structural)]
pub enum PolygonSource {
    A,
    B,
}

/// A candidate translation of B, with the vertex indices it visits.
#[derive(Clone, Copy, Debug, PartialEq, Eq, Structural)]
pub struct Vector {
    pub point: Point2D,
    pub start: usize,
    pub end: usize,
    pub source: PolygonSource,
}

/// Bound on the magnitude of a world-frame coordinate.
pub open spec fn world_limit() -> int {
    VERTEX_LIMIT + OFFSET_LIMIT
}

/// Bound on the magnitude of a candidate translation coordinate.
pub open spec fn vector_limit() -> int {
    2 * world_limit()
}

pub open spec fn all_within(s: Seq<Point2D>, bound: int) -> bool {
    forall|i: int| 0 <= i < s.len() ==> #[trigger] within(s[i], bound)
}

/// The touching recorded for edge `i` of A and edge `j` of B, if any.
pub open spec fn touching_of(aw: Seq<Point2D>, bw: Seq<Point2D>, i: int, j: int) -> Option<Touching> {
    let ie = (i + 1) % (aw.len() as int);
    let je = (j + 1) % (bw.len() as int);
    if aw[i] == bw[j] {
        Some(Touching { tt: TouchingType::A, a: i as usize, b: j as usize })
    } else if on_segment_spec(bw[j], aw[i], aw[ie]) {
        Some(Touching { tt: TouchingType::B, a: ie as usize, b: j as usize })
    } else if on_segment_spec(aw[i], bw[j], bw[je]) {
        Some(Touching { tt: TouchingType::C, a: i as usize, b: je as usize })
    } else {
        None
    }
}

/// The touchings of the first `k` edge pairs, A's edge index outermost.
pub open spec fn touchings_upto(aw: Seq<Point2D>, bw: Seq<Point2D>, k: int) -> Seq<Touching>
    decreases k,
{
    if k <= 0 {
        seq![]
    } else {
        let prev = touchings_upto(aw, bw, k - 1);
        match touching_of(aw, bw, (k - 1) / (bw.len() as int), (k - 1) % (bw.len() as int)) {
            Some(t) => prev.push(t),
            None => prev,
        }
    }
}

/// All touchings between A's and B's edges, in world coordinates.
pub open spec fn touchings_spec(aw: Seq<Point2D>, bw: Seq<Point2D>) -> Seq<Touching> {
    touchings_upto(aw, bw, (aw.len() * bw.len()) as int)
}

/// Relies on itertools::Itertools::cartesian_product over two index ranges: every pair
/// once, the first range outermost, the second innermost.
#[verifier::external_body]
fn index_pairs(n: usize, m: usize) -> (r: Vec<(usize, usize)>)
    requires
        n * m <= usize::MAX,
    ensures
        r@.len() == n * m,
        forall|k: int| 0 <= k < n * m ==> #[trigger] r@[k] == ((k / m as int) as usize, (k % m as int) as usize),
{
    (0..n).cartesian_product(0..m).collect()
}

/// Classifies how edge `(a_start, a_end)` of A and edge `(b_start, b_end)` of B touch.
pub fn touching_type(a_start: Point2D, a_end: Point2D, b_start: Point2D, b_end: Point2D) -> (r: Option<TouchingType>)
    requires
        within(a_start, world_limit()),
        within(a_end, world_limit()),
        within(b_start, world_limit()),
        within(b_end, world_limit()),
    ensures
        r == (if a_start == b_start {
            Some(TouchingType::A)
        } else if on_segment_spec(b_start, a_start, a_end) {
            Some(TouchingType::B)
        } else if on_segment_spec(a_start, b_start, b_end) {
            Some(TouchingType::C)
        } else {
            None::<TouchingType>
        }),
{
    if a_start == b_start {
        Some(TouchingType::A)
    } else if b_start.on_segment(&Segment::new(a_start, a_end)) {
        Some(TouchingType::B)
    } else if a_start.on_segment(&Segment::new(b_start, b_end)) {
        Some(TouchingType::C)
    } else {
        None
    }
}

/// The index after `i` on a cycle of `n` vertices.
pub fn next_index(i: usize, n: usize) -> (r: usize)
    requires
        i < n,
    ensures
        r == (i + 1) % (n as int),
{
    if i + 1 == n {
        proof {
            vstd::arithmetic::div_mod::lemma_mod_self_0(n as int);
        }
        0
    } else {
        proof {
            vstd::arithmetic::div_mod::lemma_small_mod((i + 1) as nat, n as nat);
        }
        i + 1
    }
}

/// The index before `i` on a cycle of `n` vertices.
pub fn prev_index(i: usize, n: usize) -> (r: usize)
    requires
        i < n,
    ensures
        r == (if i == 0 { n - 1 } else { i - 1 }),
{
    if i == 0 {
        n - 1
    } else {
        i - 1
    }
}

/// Every touching between an edge of A and an edge of B, given both polygons' vertices in
/// world coordinates.
pub fn find_touchings(aw: &Vec<Point2D>, bw: &Vec<Point2D>) -> (r: Vec<Touching>)
    requires
        1 <= aw@.len() <= MAX_VERTICES,
        1 <= bw@.len() <= MAX_VERTICES,
        all_within(aw@, world_limit()),
        all_within(bw@, world_limit()),
    ensures
        r@ == touchings_spec(aw@, bw@),
{
    let n = aw.len();
    let m = bw.len();
    assert(n * m <= MAX_VERTICES * MAX_VERTICES) by (nonlinear_arith)
        requires
            n <= MAX_VERTICES,
            m <= MAX_VERTICES,
    ;
    let pairs = index_pairs(n, m);
    let mut out: Vec<Touching> = Vec::new();
    let mut k: usize = 0;
    while k < pairs.len()
        invariant
            n == aw@.len(),
            m == bw@.len(),
            1 <= n <= MAX_VERTICES,
            1 <= m <= MAX_VERTICES,
            all_within(aw@, world_limit()),
            all_within(bw@, world_limit()),
            pairs@.len() == n * m,
            forall|q: int| 0 <= q < n * m ==> #[trigger] pairs@[q] == ((q / m as int) as usize, (q % m as int) as usize),
            0 <= k <= n * m,
            out@ == touchings_upto(aw@, bw@, k as int),
        decreases n * m - k,
    {
        let (i, j) = pairs[k];
        assert((k as int) / (m as int) < n) by (nonlinear_arith)
            requires
                0 <= k < n * m,
                1 <= m,
        ;
        let ie = next_index(i, n);
        let je = next_index(j, m);
        let tt = touching_type(aw[i], aw[ie], bw[j], bw[je]);
        match tt {
            Some(TouchingType::A) => out.push(Touching { tt: TouchingType::A, a: i, b: j }),
            Some(TouchingType::B) => out.push(Touching { tt: TouchingType::B, a: ie, b: j }),
            Some(TouchingType::C) => out.push(Touching { tt: TouchingType::C, a: i, b: je }),
            None => {},
        }
        k = k + 1;
    }
    out
}

pub open spec fn prev_spec(i: int, n: int) -> int {
    if i == 0 { n - 1 } else { i - 1 }
}

pub open spec fn next_spec(i: int, n: int) -> int {
    if i == n - 1 { 0 } else { i + 1 }
}

pub open spec fn vector_spec(point: Point2D, start: int, end: int, source: PolygonSource) -> Vector {
    Vector { point, start: start as usize, end: end as usize, source }
}

/// The candidate translations that touching `t` generates.
pub open spec fn touching_vectors_spec(aw: Seq<Point2D>, bw: Seq<Point2D>, t: Touching) -> Seq<Vector> {
    let n = aw.len() as int;
    let m = bw.len() as int;
    let a = t.a as int;
    let b = t.b as int;
    let pa = prev_spec(a, n);
    let na = next_spec(a, n);
    let pb = prev_spec(b, m);
    let nb = next_spec(b, m);
    match t.tt {
        TouchingType::A => seq![
            vector_spec(sub_spec(aw[pa], aw[a]), a, pa, PolygonSource::A),
            vector_spec(sub_spec(aw[na], aw[a]), a, na, PolygonSource::A),
            vector_spec(sub_spec(bw[b], bw[pb]), pb, b, PolygonSource::B),
            vector_spec(sub_spec(bw[b], bw[nb]), nb, b, PolygonSource::B),
        ],
        TouchingType::B => seq![
            vector_spec(sub_spec(aw[a], bw[b]), pa, a, PolygonSource::A),
            vector_spec(sub_spec(aw[pa], bw[b]), a, pa, PolygonSource::A),
        ],
        TouchingType::C => seq![
            vector_spec(sub_spec(aw[a], bw[b]), pb, b, PolygonSource::B),
            vector_spec(sub_spec(aw[a], bw[pb]), b, pb, PolygonSource::B),
        ],
    }
}

/// The candidate translations of the first `k` touchings, in order.
pub open spec fn vectors_upto(aw: Seq<Point2D>, bw: Seq<Point2D>, ts: Seq<Touching>, k: int) -> Seq<Vector>
    decreases k,
{
    if k <= 0 {
        seq![]
    } else {
        vectors_upto(aw, bw, ts, k - 1) + touching_vectors_spec(aw, bw, ts[k - 1])
    }
}

/// A candidate's indices are vertices of the polygon it is tagged with.
pub open spec fn vector_indices_ok(v: Vector, n: int, m: int) -> bool {
    match v.source {
        PolygonSource::A => v.start < n && v.end < n,
        PolygonSource::B => v.start < m && v.end < m,
    }
}

pub open spec fn touching_ok(t: Touching, n: int, m: int) -> bool {
    t.a < n && t.b < m
}

/// The candidate translations generated by touching `t`.
pub fn touching_vectors(aw: &Vec<Point2D>, bw: &Vec<Point2D>, t: Touching) -> (r: Vec<Vector>)
    requires
        1 <= aw@.len(),
        1 <= bw@.len(),
        touching_ok(t, aw@.len() as int, bw@.len() as int),
        all_within(aw@, world_limit()),
        all_within(bw@, world_limit()),
    ensures
        r@ == touching_vectors_spec(aw@, bw@, t),
{
    let n = aw.len();
    let m = bw.len();
    let a = t.a;
    let b = t.b;
    let pa = prev_index(a, n);
    let pb = prev_index(b, m);
    assert(within(aw@[a as int], world_limit()) && within(aw@[pa as int], world_limit()));
    assert(within(bw@[b as int], world_limit()) && within(bw@[pb as int], world_limit()));
    match t.tt {
        TouchingType::A => {
            let na = if a == n - 1 { 0 } else { a + 1 };
            let nb = if b == m - 1 { 0 } else { b + 1 };
            assert(within(aw@[na as int], world_limit()) && within(bw@[nb as int], world_limit()));
            let r = vec![
                Vector { point: aw[pa].sub(aw[a]), start: a, end: pa, source: PolygonSource::A },
                Vector { point: aw[na].sub(aw[a]), start: a, end: na, source: PolygonSource::A },
                Vector { point: bw[b].sub(bw[pb]), start: pb, end: b, source: PolygonSource::B },
                Vector { point: bw[b].sub(bw[nb]), start: nb, end: b, source: PolygonSource::B },
            ];
            assert(r@ =~= touching_vectors_spec(aw@, bw@, t));
            r
        },
        TouchingType::B => {
            let r = vec![
                Vector { point: aw[a].sub(bw[b]), start: pa, end: a, source: PolygonSource::A },
                Vector { point: aw[pa].sub(bw[b]), start: a, end: pa, source: PolygonSource::A },
            ];
            assert(r@ =~= touching_vectors_spec(aw@, bw@, t));
            r
        },
        TouchingType::C => {
            let r = vec![
                Vector { point: aw[a].sub(bw[b]), start: pb, end: b, source: PolygonSource::B },
                Vector { point: aw[a].sub(bw[pb]), start: b, end: pb, source: PolygonSource::B },
            ];
            assert(r@ =~= touching_vectors_spec(aw@, bw@, t));
            r
        },
    }
}

proof fn lemma_touchings_ok(aw: Seq<Point2D>, bw: Seq<Point2D>, k: int)
    requires
        1 <= aw.len() <= MAX_VERTICES,
        1 <= bw.len() <= MAX_VERTICES,
        k <= aw.len() * bw.len(),
    ensures
        forall|q: int|
            0 <= q < touchings_upto(aw, bw, k).len() ==> touching_ok(
                #[trigger] touchings_upto(aw, bw, k)[q],
                aw.len() as int,
                bw.len() as int,
            ),
    decreases k,
{
    if k > 0 {
        lemma_touchings_ok(aw, bw, k - 1);
        let m = bw.len() as int;
        let n = aw.len() as int;
        let i = (k - 1) / m;
        let j = (k - 1) % m;
        assert(0 <= i < n) by (nonlinear_arith)
            requires
                0 <= k - 1 < n * m,
                1 <= m,
                i == (k - 1) / m,
        ;
        assert(0 <= j < m);
        assert(0 <= (i + 1) % n < n) by (nonlinear_arith)
            requires
                1 <= n,
        ;
        assert(0 <= (j + 1) % m < m) by (nonlinear_arith)
            requires
                1 <= m,
        ;
        let prev = touchings_upto(aw, bw, k - 1);
        match touching_of(aw, bw, i, j) {
            Some(t) => {
                assert(touching_ok(t, n, m));
                assert(touchings_upto(aw, bw, k) == prev.push(t));
                assert forall|q: int| 0 <= q < prev.len() + 1 implies touching_ok(
                    #[trigger] prev.push(t)[q],
                    n,
                    m,
                ) by {
                    if q < prev.len() {
                        assert(prev.push(t)[q] == prev[q]);
                    }
                }
            },
            None => {},
        }
    }
}

proof fn lemma_vectors_bounded(aw: Seq<Point2D>, bw: Seq<Point2D>, ts: Seq<Touching>, k: int)
    requires
        1 <= aw.len(),
        1 <= bw.len(),
        0 <= k <= ts.len(),
        forall|q: int| 0 <= q < ts.len() ==> touching_ok(#[trigger] ts[q], aw.len() as int, bw.len() as int),
        all_within(aw, world_limit()),
        all_within(bw, world_limit()),
    ensures
        forall|q: int|
            0 <= q < vectors_upto(aw, bw, ts, k).len() ==> within(
                (#[trigger] vectors_upto(aw, bw, ts, k)[q]).point,
                vector_limit(),
            ) && vector_indices_ok(vectors_upto(aw, bw, ts, k)[q], aw.len() as int, bw.len() as int),
    decreases k,
{
    if k > 0 {
        lemma_vectors_bounded(aw, bw, ts, k - 1);
        let t = ts[k - 1];
        assert(touching_ok(t, aw.len() as int, bw.len() as int));
        let n = aw.len() as int;
        let m = bw.len() as int;
        let a = t.a as int;
        let b = t.b as int;
        assert(within(aw[a], world_limit()));
        assert(within(bw[b], world_limit()));
        assert(within(aw[prev_spec(a, n)], world_limit()));
        assert(within(aw[next_spec(a, n)], world_limit()));
        assert(within(bw[prev_spec(b, m)], world_limit()));
        assert(within(bw[next_spec(b, m)], world_limit()));
    }
}

/// Every candidate translation generated by the touchings `ts`; marks the A vertex that
/// anchors each touching.
pub fn candidate_vectors(aw: &Vec<Point2D>, bw: &Vec<Point2D>, ts: &Vec<Touching>, a_marked: &mut Vec<bool>) -> (r: Vec<Vector>)
    requires
        1 <= aw@.len(),
        1 <= bw@.len(),
        forall|q: int| 0 <= q < ts@.len() ==> touching_ok(#[trigger] ts@[q], aw@.len() as int, bw@.len() as int),
        all_within(aw@, world_limit()),
        all_within(bw@, world_limit()),
        old(a_marked)@.len() == aw@.len(),
    ensures
        r@ == vectors_upto(aw@, bw@, ts@, ts@.len() as int),
        final(a_marked)@.len() == old(a_marked)@.len(),
        forall|i: int| 0 <= i < aw@.len() ==> #[trigger] final(a_marked)@[i] == (old(a_marked)@[i] || exists|q: int| 0 <= q < ts@.len() && ts@[q].a == i),
{
    let mut out: Vec<Vector> = Vec::new();
    let mut k: usize = 0;
    while k < ts.len()
        invariant
            1 <= aw@.len(),
            1 <= bw@.len(),
            forall|q: int| 0 <= q < ts@.len() ==> touching_ok(#[trigger] ts@[q], aw@.len() as int, bw@.len() as int),
            all_within(aw@, world_limit()),
            all_within(bw@, world_limit()),
            a_marked@.len() == aw@.len(),
            0 <= k <= ts@.len(),
            out@ == vectors_upto(aw@, bw@, ts@, k as int),
            forall|i: int| 0 <= i < aw@.len() ==> #[trigger] a_marked@[i] == (old(a_marked)@[i] || exists|q: int| 0 <= q < k && ts@[q].a == i),
        decreases ts@.len() - k,
    {
        let t = ts[k];
        assert(touching_ok(ts@[k as int], aw@.len() as int, bw@.len() as int));
        a_marked.set(t.a, true);
        let mut more = touching_vectors(aw, bw, t);
        out.append(&mut more);
        k = k + 1;
        assert forall|i: int| 0 <= i < aw@.len() implies #[trigger] a_marked@[i] == (old(a_marked)@[i] || exists|q: int| 0 <= q < k && ts@[q].a == i) by {
            if i == t.a as int {
                assert(ts@[k - 1].a == i);
            } else {
                if exists|q: int| 0 <= q < k && ts@[q].a == i {
                    let q = choose|q: int| 0 <= q < k && ts@[q].a == i;
                    assert(q < k - 1);
                }
            }
        }
    }
    out
}

/// The length of `v`, rounded down to an integer.
pub open spec fn length_spec(v: Point2D) -> int {
    choose|r: int| is_isqrt(dot_spec(v, v), r)
}

proof fn lemma_isqrt_unique(n: int, r1: int, r2: int)
    requires
        is_isqrt(n, r1),
        is_isqrt(n, r2),
    ensures
        r1 == r2,
{
    if r1 < r2 {
        assert((r1 + 1) * (r1 + 1) <= r2 * r2) by (nonlinear_arith)
            requires
                0 <= r1 + 1 <= r2,
        ;
    } else if r2 < r1 {
        assert((r2 + 1) * (r2 + 1) <= r1 * r1) by (nonlinear_arith)
            requires
                0 <= r2 + 1 <= r1,
        ;
    }
}

proof fn lemma_square_bound(c: int)
    requires
        -vector_limit() <= c <= vector_limit(),
    ensures
        0 <= c * c <= 0x1000_0000_0000_0000_0000_0000,
{
    assert(0 <= c * c <= 0x1000_0000_0000_0000_0000_0000) by (nonlinear_arith)
        requires
            -0x4000_0000_0000 <= c <= 0x4000_0000_0000,
    ;
}

/// The length of `v`, rounded down.
pub fn vector_length(v: Point2D) -> (r: i64)
    requires
        within(v, vector_limit()),
    ensures
        r == length_spec(v),
        is_isqrt(dot_spec(v, v), r as int),
        0 <= r <= 0x1_0000_0000_0000,
{
    proof {
        lemma_square_bound(v.x as int);
        lemma_square_bound(v.y as int);
    }
    let n = v.dot(&v);
    let r = isqrt(n as u128);
    proof {
        lemma_isqrt_unique(dot_spec(v, v), r as int, length_spec(v));
        let ri = r as int;
        assert(ri <= 0x1_0000_0000_0000) by (nonlinear_arith)
            requires
                0 <= ri,
                ri * ri <= 0x2000_0000_0000_0000_0000_0000,
        ;
    }
    r as i64
}

/// The distance by which candidate `v` may slide, given the slide distance reported for its
/// direction: a report that is absent, or whose square exceeds `v`'s squared length, gives
/// `v`'s own length.
pub open spec fn slide_length(v: Point2D, reported: Option<i64>) -> int {
    match reported {
        None => length_spec(v),
        Some(d) => if d * d > dot_spec(v, v) {
            length_spec(v)
        } else {
            d as int
        },
    }
}

/// Computes [`slide_length`].
pub fn clamp_distance(v: Point2D, reported: Option<i64>) -> (r: i64)
    requires
        within(v, vector_limit()),
    ensures
        r == slide_length(v, reported),
{
    let len = vector_length(v);
    match reported {
        None => len,
        Some(d) => {
            proof {
                lemma_square_bound(v.x as int);
                lemma_square_bound(v.y as int);
                let di = d as int;
                assert(0 <= di * di <= 0x4000_0000_0000_0000_0000_0000_0000_0000) by (nonlinear_arith)
                    requires
                        i64::MIN <= di <= i64::MAX,
                ;
            }
            let dd = d as i128 * d as i128;
            if dd > v.dot(&v) {
                len
            } else {
                d
            }
        },
    }
}

/// `v` points straight back along `prev`.
pub open spec fn turns_back(prev: Option<Point2D>, v: Point2D) -> bool {
    match prev {
        Some(p) => dot_spec(p, v) < 0 && cross_spec(p, v) == 0,
        None => false,
    }
}

/// A candidate that the selector considers: non-zero, and not reversing the previous move.
pub open spec fn eligible(prev: Option<Point2D>, v: Point2D) -> bool {
    !(v.x == 0 && v.y == 0) && !turns_back(prev, v)
}

/// Computes [`eligible`].
pub fn is_eligible(prev: Option<Point2D>, v: Point2D) -> (r: bool)
    requires
        within(v, vector_limit()),
        match prev {
            Some(p) => within(p, vector_limit()),
            None => true,
        },
    ensures
        r == eligible(prev, v),
{
    if v.is_zero() {
        return false;
    }
    match prev {
        Some(p) => !(p.dot(&v) < 0 && p.cross(&v) == 0),
        None => true,
    }
}

pub open spec fn best_length(b: Option<(int, int)>) -> int {
    match b {
        Some((_, d)) => d,
        None => 0,
    }
}

/// The winner among the first `k` candidates: the eligible one with the largest slide length,
/// the first such on ties, and only if that length is positive.
pub open spec fn best_upto(vs: Seq<Vector>, prev: Option<Point2D>, reported: Seq<Option<i64>>, k: int) -> Option<(int, int)>
    decreases k,
{
    if k <= 0 {
        None
    } else {
        let b = best_upto(vs, prev, reported, k - 1);
        let v = vs[k - 1].point;
        if !eligible(prev, v) {
            b
        } else {
            let d = slide_length(v, reported[k - 1]);
            if d > best_length(b) {
                Some((k - 1, d))
            } else {
                b
            }
        }
    }
}

/// Picks the translation to apply among `vs`, given the slide distance reported for each:
/// returns its index and how far it may slide.
pub fn best_candidate(vs: &Vec<Vector>, prev: Option<Point2D>, reported: &Vec<Option<i64>>) -> (r: Option<(usize, i64)>)
    requires
        vs@.len() == reported@.len(),
        forall|q: int| 0 <= q < vs@.len() ==> within((#[trigger] vs@[q]).point, vector_limit()),
        match prev {
            Some(p) => within(p, vector_limit()),
            None => true,
        },
    ensures
        match r {
            Some((k, d)) => best_upto(vs@, prev, reported@, vs@.len() as int) == Some((k as int, d as int)),
            None => best_upto(vs@, prev, reported@, vs@.len() as int).is_none(),
        },
{
    let mut best: Option<(usize, i64)> = None;
    let mut k: usize = 0;
    while k < vs.len()
        invariant
            vs@.len() == reported@.len(),
            forall|q: int| 0 <= q < vs@.len() ==> within((#[trigger] vs@[q]).point, vector_limit()),
            match prev {
                Some(p) => within(p, vector_limit()),
                None => true,
            },
            0 <= k <= vs@.len(),
            match best {
                Some((i, d)) => best_upto(vs@, prev, reported@, k as int) == Some((i as int, d as int)),
                None => best_upto(vs@, prev, reported@, k as int).is_none(),
            },
        decreases vs@.len() - k,
    {
        let v = vs[k].point;
        assert(within(vs@[k as int].point, vector_limit()));
        if is_eligible(prev, v) {
            let d = clamp_distance(v, reported[k]);
            let cur: i64 = match best {
                Some((_, bd)) => bd,
                None => 0,
            };
            if d > cur {
                best = Some((k, d));
            }
        }
        k = k + 1;
    }
    best
}

/// The selection rule: the chosen candidate is eligible and slides a positive distance, no
/// eligible candidate slides farther, and none before it slides as far; where nothing is
/// chosen, no eligible candidate slides a positive distance.
pub proof fn lemma_best_is_first_longest(vs: Seq<Vector>, prev: Option<Point2D>, reported: Seq<Option<i64>>, k: int)
    requires
        0 <= k <= vs.len(),
    ensures
        match best_upto(vs, prev, reported, k) {
            Some((i, d)) => 0 <= i < k && eligible(prev, vs[i].point) && d == slide_length(vs[i].point, reported[i])
                && d > 0 && (forall|q: int|
                0 <= q < k && eligible(prev, vs[q].point) ==> #[trigger] slide_length(vs[q].point, reported[q]) <= d)
                && (forall|q: int|
                0 <= q < i && eligible(prev, vs[q].point) ==> #[trigger] slide_length(vs[q].point, reported[q]) < d),
            None => forall|q: int|
                0 <= q < k && eligible(prev, vs[q].point) ==> #[trigger] slide_length(vs[q].point, reported[q]) <= 0,
        },
    decreases k,
{
    if k > 0 {
        lemma_best_is_first_longest(vs, prev, reported, k - 1);
    }
}

/// `c * d / len`, rounded toward zero.
pub open spec fn scale_coord(c: int, d: int, len: int) -> int {
    if c >= 0 {
        (c * d) / len
    } else {
        -((-c * d) / len)
    }
}

/// `v` shortened to length `d` when `d` is below its length, else `v` unchanged.
pub open spec fn trim_spec(v: Point2D, d: int) -> Point2D {
    let len = length_spec(v);
    if d < len {
        Point2D { x: scale_coord(v.x as int, d, len) as i64, y: scale_coord(v.y as int, d, len) as i64 }
    } else {
        v
    }
}

proof fn lemma_scale_bound(c: int, d: int, len: int)
    requires
        0 <= c,
        0 < d < len,
    ensures
        0 <= (c * d) / len <= c,
{
    assert(c * d <= c * len) by (nonlinear_arith)
        requires
            0 <= c,
            d < len,
    ;
    assert(0 <= c * d) by (nonlinear_arith)
        requires
            0 <= c,
            0 < d,
    ;
    vstd::arithmetic::div_mod::lemma_div_is_ordered(c * d, c * len, len);
    vstd::arithmetic::div_mod::lemma_div_by_multiple(c, len);
    vstd::arithmetic::div_mod::lemma_div_pos_is_pos(c * d, len);
}

fn scale(c: i64, d: i64, len: i64) -> (r: i64)
    requires
        -vector_limit() <= c <= vector_limit(),
        0 < d < len <= 0x1_0000_0000_0000,
    ensures
        r == scale_coord(c as int, d as int, len as int),
        -vector_limit() <= r <= vector_limit(),
{
    let a: i128 = if c >= 0 { c as i128 } else { -(c as i128) };
    proof {
        let ai = a as int;
        assert(0 <= ai * d <= 0x1_0000_0000_0000_0000_0000_0000) by (nonlinear_arith)
            requires
                0 <= ai <= 0x4000_0000_0000,
                0 < d <= 0x1_0000_0000_0000,
        ;
        lemma_scale_bound(ai, d as int, len as int);
    }
    let q = a * d as i128 / len as i128;
    if c >= 0 {
        q as i64
    } else {
        -(q as i64)
    }
}

/// Shortens `v` to length `d` (coordinates rounded toward zero) when `d` is below `v`'s
/// length.
pub fn trim(v: Point2D, d: i64) -> (r: Point2D)
    requires
        within(v, vector_limit()),
        0 < d,
    ensures
        r == trim_spec(v, d as int),
        within(r, vector_limit()),
{
    let len = vector_length(v);
    if d < len {
        Point2D { x: scale(v.x, d, len), y: scale(v.y, d, len) }
    } else {
        v
    }
}

/// `t` keeps every mark of `s`, over the same vertices.
pub open spec fn marks_grow(s: Seq<bool>, t: Seq<bool>) -> bool {
    s.len() == t.len() && forall|i: int| 0 <= i < s.len() && #[trigger] s[i] ==> t[i]
}

/// The number of unmarked vertices.
pub open spec fn unmarked(s: Seq<bool>) -> nat
    decreases s.len(),
{
    if s.len() == 0 {
        0
    } else {
        unmarked(s.drop_last()) + if s.last() { 0nat } else { 1nat }
    }
}

proof fn lemma_unmarked_shrinks(s: Seq<bool>, t: Seq<bool>)
    requires
        marks_grow(s, t),
    ensures
        unmarked(t) <= unmarked(s),
        (exists|i: int| 0 <= i < s.len() && !s[i] && t[i]) ==> unmarked(t) < unmarked(s),
    decreases s.len(),
{
    if s.len() > 0 {
        let s0 = s.drop_last();
        let t0 = t.drop_last();
        assert forall|i: int| 0 <= i < s0.len() && #[trigger] s0[i] implies t0[i] by {
            assert(s[i]);
        }
        lemma_unmarked_shrinks(s0, t0);
        if exists|i: int| 0 <= i < s.len() && !s[i] && t[i] {
            let i = choose|i: int| 0 <= i < s.len() && !s[i] && t[i];
            if i < s.len() - 1 {
                assert(!s0[i] && t0[i]);
            }
        }
    }
}

/// Whether `p` is a vertex of one of the boundaries in `nfp`.
pub open spec fn in_nfp_spec(p: Point2D, nfp: Seq<Vec<Point2D>>) -> bool {
    exists|i: int| 0 <= i < nfp.len() && (#[trigger] nfp[i])@.contains(p)
}

/// Whether `p` is one of the points of `s`.
pub fn contains_point(s: &Vec<Point2D>, p: Point2D) -> (r: bool)
    ensures
        r == s@.contains(p),
{
    let mut k: usize = 0;
    while k < s.len()
        invariant
            0 <= k <= s@.len(),
            forall|q: int| 0 <= q < k ==> s@[q] != p,
        decreases s@.len() - k,
    {
        if s[k] == p {
            assert(s@[k as int] == p);
            return true;
        }
        k = k + 1;
    }
    false
}

/// A polygon: vertices in its own frame, in boundary order, and an offset that carries them
/// into the world frame.
#[derive(Clone, Debug, PartialEq, Eq)]
pub struct Polygon {
    pub vertices: Vec<Point2D>,
    pub offset: Point2D,
}

impl Polygon {
    /// A polygon with the given vertices and no offset.
    pub fn new(vertices: Vec<Point2D>) -> (r: Polygon)
        ensures
            r.vertices@ == vertices@,
            r.offset == (Point2D { x: 0, y: 0 }),
    {
        Polygon { vertices, offset: Point2D::zero() }
    }

    pub fn length(&self) -> (r: usize)
        ensures
            r == self.vertices@.len(),
    {
        self.vertices.len()
    }

    pub fn local_vertex(&self, index: usize) -> (r: Point2D)
        requires
            index < self.vertices@.len(),
        ensures
            r == self.vertices@[index as int],
    {
        self.vertices[index]
    }

    pub fn offset(&self) -> (r: Point2D)
        ensures
            r == self.offset,
    {
        self.offset
    }

    pub fn set_offset(&mut self, offset: Point2D)
        ensures
            final(self).vertices@ == old(self).vertices@,
            final(self).offset == offset,
    {
        self.offset = offset;
    }

    /// A copy with the same vertices and offset.
    pub fn duplicate(&self) -> (r: Polygon)
        ensures
            r.vertices@ == self.vertices@,
            r.offset == self.offset,
    {
        Polygon { vertices: self.vertices.clone(), offset: self.offset }
    }

    /// The vertex at `index` in the world frame.
    pub fn get_vertex(&self, index: usize) -> (r: Point2D)
        requires
            index < self.vertices@.len(),
            within(self.vertices@[index as int], VERTEX_LIMIT as int),
            within(self.offset, OFFSET_LIMIT as int),
        ensures
            r == add_spec(self.vertices@[index as int], self.offset),
            within(r, world_limit()),
    {
        self.vertices[index].add(self.offset)
    }
}

/// Whether `p` is a vertex of a boundary already found.
pub fn in_nfp(p: &Point2D, nfp: &Vec<Vec<Point2D>>) -> (r: bool)
    ensures
        r == in_nfp_spec(*p, nfp@),
{
    let mut k: usize = 0;
    while k < nfp.len()
        invariant
            0 <= k <= nfp@.len(),
            forall|q: int| 0 <= q < k ==> !(#[trigger] nfp@[q])@.contains(*p),
        decreases nfp@.len() - k,
    {
        if contains_point(&nfp[k], *p) {
            return true;
        }
        k = k + 1;
    }
    false
}

/// The geometric predicates that the orbit consults, on polygons placed in the world frame.
/// Their answers belong to the implementor.
pub trait ComputeNoFitPolygon {
    /// Whether world point `p` lies inside `poly`; `None` where the test is ambiguous.
    fn in_polygon(&self, p: Point2D, poly: &Polygon) -> Option<bool>;

    /// Whether the boundaries of `a` and `b` cross or touch.
    fn intersects_polygon(&self, a: &Polygon, b: &Polygon) -> bool;

    /// How far `b` may move along `direction` before it first meets `a`; `None` where
    /// nothing stops it.
    fn slide_distance_on_polygon(&self, a: &Polygon, b: &Polygon, direction: Point2D) -> Option<i64>;

    /// The separating distance of `b` from `a` projected along `direction`; `None` where no
    /// projection exists.
    fn project_distance_on_polygon(&self, a: &Polygon, b: &Polygon, direction: Point2D) -> Option<i64>;
}

/// The polygon has between one and `MAX_VERTICES` vertices, each within `VERTEX_LIMIT`.
pub open spec fn shape_ok(p: &Polygon) -> bool {
    1 <= p.vertices@.len() <= MAX_VERTICES && all_within(p.vertices@, VERTEX_LIMIT as int)
}

/// The polygon's vertices in the world frame.
pub open spec fn world_vertices(p: &Polygon) -> Seq<Point2D> {
    Seq::new(p.vertices@.len(), |i: int| add_spec(p.vertices@[i], p.offset))
}

/// All of `p`'s vertices in the world frame.
pub fn world_of(p: &Polygon) -> (r: Vec<Point2D>)
    requires
        shape_ok(p),
        within(p.offset, OFFSET_LIMIT as int),
    ensures
        r@ == world_vertices(p),
        all_within(r@, world_limit()),
{
    let n = p.length();
    let mut out: Vec<Point2D> = Vec::new();
    let mut k: usize = 0;
    while k < n
        invariant
            shape_ok(p),
            within(p.offset, OFFSET_LIMIT as int),
            n == p.vertices@.len(),
            0 <= k <= n,
            out@ == world_vertices(p).take(k as int),
            all_within(out@, world_limit()),
        decreases n - k,
    {
        assert(within(p.vertices@[k as int], VERTEX_LIMIT as int));
        let v = p.get_vertex(k);
        out.push(v);
        k = k + 1;
        assert(out@ =~= world_vertices(p).take(k as int));
    }
    assert(out@ =~= world_vertices(p));
    out
}

/// A's inside test at each of B's vertices in the world frame, in order.
fn probe_answers<G: ComputeNoFitPolygon>(geo: &G, a: &Polygon, b: &Polygon) -> (r: Vec<Option<bool>>)
    requires
        shape_ok(b),
        within(b.offset, OFFSET_LIMIT as int),
    ensures
        r@.len() == b.vertices@.len(),
{
    let m = b.length();
    let mut out: Vec<Option<bool>> = Vec::new();
    let mut k: usize = 0;
    while k < m
        invariant
            shape_ok(b),
            within(b.offset, OFFSET_LIMIT as int),
            m == b.vertices@.len(),
            0 <= k <= m,
            out@.len() == k,
        decreases m - k,
    {
        assert(within(b.vertices@[k as int], VERTEX_LIMIT as int));
        let v = b.get_vertex(k);
        out.push(geo.in_polygon(v, a));
        k = k + 1;
    }
    out
}

/// The first answer among `answers`, if any.
pub open spec fn first_answer_spec(answers: Seq<Option<bool>>) -> Option<bool>
    decreases answers.len(),
{
    if answers.len() == 0 {
        None
    } else {
        match answers[0] {
            Some(c) => Some(c),
            None => first_answer_spec(answers.drop_first()),
        }
    }
}

/// The first answer among `answers`; `None` where none of the probes answered.
pub fn first_answer(answers: &Vec<Option<bool>>) -> (r: Option<bool>)
    ensures
        r == first_answer_spec(answers@),
{
    let mut k: usize = 0;
    assert(answers@.skip(0) =~= answers@);
    while k < answers.len()
        invariant
            0 <= k <= answers@.len(),
            first_answer_spec(answers@) == first_answer_spec(answers@.skip(k as int)),
        decreases answers@.len() - k,
    {
        assert(answers@.skip(k as int)[0] == answers@[k as int]);
        assert(answers@.skip(k as int).drop_first() =~= answers@.skip(k + 1));
        if let Some(c) = answers[k] {
            return Some(c);
        }
        k = k + 1;
    }
    assert(answers@.skip(k as int).len() == 0);
    None
}

/// Whether a probed offset is taken as a start: B's side of A is the requested one, the two
/// touch, and the offset is not on a boundary already found.
pub fn accept_start(answer: bool, inside: bool, touches: bool, seen: bool) -> (r: bool)
    ensures
        r == (answer == inside && touches && !seen),
{
    answer == inside && touches && !seen
}

/// The offset that puts B's own vertex `b_vertex` on the world point `a_vertex`, where it
/// lies within `OFFSET_LIMIT`.
pub fn place_offset(a_vertex: Point2D, b_vertex: Point2D) -> (r: Option<Point2D>)
    requires
        within(a_vertex, world_limit()),
        within(b_vertex, VERTEX_LIMIT as int),
    ensures
        r == (if within(sub_spec(a_vertex, b_vertex), OFFSET_LIMIT as int) {
            Some(sub_spec(a_vertex, b_vertex))
        } else {
            None::<Point2D>
        }),
{
    let off = a_vertex.sub(b_vertex);
    if within_offset_limit(off) {
        Some(off)
    } else {
        None
    }
}

/// The offset reached by sliding from `off` along `edge`, given the projected distances
/// along `edge` and against it.
pub open spec fn slide_offset_spec(off: Point2D, edge: Point2D, d1: Option<i64>, d2: Option<i64>) -> Option<Point2D> {
    match nearest_projection_spec(d1, d2) {
        Some(d) => if d > 0 && within(add_spec(off, trim_spec(edge, d as int)), OFFSET_LIMIT as int) {
            Some(add_spec(off, trim_spec(edge, d as int)))
        } else {
            None
        },
        None => None,
    }
}

/// Slides `off` along `edge` by the smaller of the projected distances, no farther than the
/// edge; `None` where no positive distance was reported or the result passes `OFFSET_LIMIT`.
pub fn slide_offset(off: Point2D, edge: Point2D, d1: Option<i64>, d2: Option<i64>) -> (r: Option<Point2D>)
    requires
        within(off, OFFSET_LIMIT as int),
        within(edge, vector_limit()),
    ensures
        r == slide_offset_spec(off, edge, d1, d2),
{
    match nearest_projection(d1, d2) {
        Some(d) => {
            if d > 0 {
                let step = trim(edge, d);
                let moved = Point2D { x: off.x + step.x, y: off.y + step.y };
                if within_offset_limit(moved) {
                    Some(moved)
                } else {
                    None
                }
            } else {
                None
            }
        },
        None => None,
    }
}

/// Edge `i` of the world-frame vertices `aw`, as a vector.
pub open spec fn edge_spec(aw: Seq<Point2D>, i: int) -> Point2D {
    sub_spec(aw[(i + 1) % (aw.len() as int)], aw[i])
}

/// `p` comes from probing an unmarked vertex of A (marked since) against a vertex of B.
pub open spec fn found_start(aw: Seq<Point2D>, bl: Seq<Point2D>, old_marks: Seq<bool>, new_marks: Seq<bool>, p: Point2D) -> bool {
    exists|i: int, j: int|
        0 <= i < old_marks.len() && 0 <= j < bl.len() && !old_marks[i] && new_marks[i] && #[trigger] start_candidate(
            aw,
            bl,
            i,
            j,
            p,
        )
}

/// The smaller of two projected distances, or whichever one exists.
pub open spec fn nearest_projection_spec(d1: Option<i64>, d2: Option<i64>) -> Option<i64> {
    match (d1, d2) {
        (Some(x), Some(y)) => Some(if x <= y { x } else { y }),
        (Some(x), None) => Some(x),
        (None, y) => y,
    }
}

/// `p` puts B's vertex `j` on A's vertex `i`, or slides that placement along A's edge `i`.
pub open spec fn start_candidate(aw: Seq<Point2D>, bl: Seq<Point2D>, i: int, j: int, p: Point2D) -> bool {
    p == sub_spec(aw[i], bl[j]) || exists|d: int|
        d > 0 && p == add_spec(sub_spec(aw[i], bl[j]), #[trigger] trim_spec(edge_spec(aw, i), d))
}

/// The outcome of one orbit step.
#[derive(Clone, Copy, Debug, PartialEq, Eq, Structural)]
pub enum OrbitStep {
    /// No candidate may slide, the trimmed move is zero, or it would carry B's offset past
    /// `OFFSET_LIMIT`: the boundary is abandoned.
    Stall,
    /// The chosen move brings B's reference vertex back onto a point of the boundary: the
    /// loop is closed.
    Closed { chosen: usize },
    /// B moves to `offset`, and its reference vertex, now at `reference`, joins the boundary.
    Advance { chosen: usize, offset: Point2D, reference: Point2D },
}

/// One orbit step, given the candidates, the previous move, the slide distance reported for
/// each candidate, B's offset, B's reference vertex in its own frame, and the boundary so far.
pub open spec fn orbit_step_spec(
    vs: Seq<Vector>,
    prev: Option<Point2D>,
    reported: Seq<Option<i64>>,
    offset: Point2D,
    anchor: Point2D,
    boundary: Seq<Point2D>,
) -> OrbitStep {
    match best_upto(vs, prev, reported, vs.len() as int) {
        None => OrbitStep::Stall,
        Some((i, d)) => {
            let step = trim_spec(vs[i].point, d);
            let moved = add_spec(offset, step);
            if step.x == 0 && step.y == 0 || !within(moved, OFFSET_LIMIT as int) {
                OrbitStep::Stall
            } else if boundary.contains(add_spec(anchor, moved)) {
                OrbitStep::Closed { chosen: i as usize }
            } else {
                OrbitStep::Advance { chosen: i as usize, offset: moved, reference: add_spec(anchor, moved) }
            }
        },
    }
}

/// When every candidate is zero or reverses the previous move, the step stalls, whatever
/// slide distances were reported.
pub proof fn lemma_no_eligible_candidate_stalls(
    vs: Seq<Vector>,
    prev: Option<Point2D>,
    reported: Seq<Option<i64>>,
    offset: Point2D,
    anchor: Point2D,
    boundary: Seq<Point2D>,
)
    requires
        forall|q: int| 0 <= q < vs.len() ==> !eligible(prev, (#[trigger] vs[q]).point),
    ensures
        orbit_step_spec(vs, prev, reported, offset, anchor, boundary) == OrbitStep::Stall,
{
    lemma_best_is_first_longest(vs, prev, reported, vs.len() as int);
    match best_upto(vs, prev, reported, vs.len() as int) {
        Some((i, d)) => {
            assert(!eligible(prev, vs[i].point));
        },
        None => {},
    }
}

/// Picks the move among the candidates `vs`, trims it to its slide distance, and decides
/// whether the boundary stalls, closes, or grows.
pub fn orbit_step(
    vs: &Vec<Vector>,
    prev: Option<Point2D>,
    reported: &Vec<Option<i64>>,
    offset: Point2D,
    anchor: Point2D,
    boundary: &Vec<Point2D>,
) -> (r: OrbitStep)
    requires
        vs@.len() == reported@.len(),
        forall|q: int| 0 <= q < vs@.len() ==> within((#[trigger] vs@[q]).point, vector_limit()),
        match prev {
            Some(p) => within(p, vector_limit()),
            None => true,
        },
        within(offset, OFFSET_LIMIT as int),
        within(anchor, VERTEX_LIMIT as int),
    ensures
        r == orbit_step_spec(vs@, prev, reported@, offset, anchor, boundary@),
        match r {
            OrbitStep::Closed { chosen } => chosen < vs@.len(),
            OrbitStep::Advance { chosen, offset, reference } => chosen < vs@.len() && within(
                offset,
                OFFSET_LIMIT as int,
            ),
            OrbitStep::Stall => true,
        },
{
    let best = best_candidate(vs, prev, reported);
    proof {
        lemma_best_is_first_longest(vs@, prev, reported@, vs@.len() as int);
    }
    match best {
        None => OrbitStep::Stall,
        Some((idx, d)) => {
            assert(within(vs@[idx as int].point, vector_limit()));
            let step = trim(vs[idx].point, d);
            if step.is_zero() {
                return OrbitStep::Stall;
            }
            let moved = Point2D { x: offset.x + step.x, y: offset.y + step.y };
            if !within_offset_limit(moved) {
                return OrbitStep::Stall;
            }
            let reference = anchor.add(moved);
            if contains_point(boundary, reference) {
                OrbitStep::Closed { chosen: idx }
            } else {
                OrbitStep::Advance { chosen: idx, offset: moved, reference }
            }
        },
    }
}

/// Where a boundary stands after a step.
#[derive(Clone, Copy, Debug, PartialEq, Eq, Structural)]
pub enum BoundaryState {
    /// The orbit stalled: the boundary is left out of the result.
    Dropped,
    /// The loop closed: the boundary is kept as it stands.
    Finished,
    /// A point was added: the orbit goes on.
    Growing,
}

/// Applies one orbit step to the boundary traced so far.
pub fn extend_boundary(boundary: &mut Vec<Point2D>, step: OrbitStep) -> (r: BoundaryState)
    ensures
        match step {
            OrbitStep::Stall => r == BoundaryState::Dropped && final(boundary)@ == old(boundary)@,
            OrbitStep::Closed { .. } => r == BoundaryState::Finished && final(boundary)@ == old(boundary)@,
            OrbitStep::Advance { reference, .. } => r == BoundaryState::Growing && final(boundary)@
                == old(boundary)@.push(reference),
        },
{
    match step {
        OrbitStep::Stall => BoundaryState::Dropped,
        OrbitStep::Closed { .. } => BoundaryState::Finished,
        OrbitStep::Advance { reference, .. } => {
            boundary.push(reference);
            BoundaryState::Growing
        },
    }
}

/// Marks the vertices that the chosen move `v` visits, on the polygon it is tagged with.
fn mark_visited(v: Vector, a_marked: &mut Vec<bool>, b_marked: &mut Vec<bool>)
    requires
        vector_indices_ok(v, old(a_marked)@.len() as int, old(b_marked)@.len() as int),
    ensures
        marks_grow(old(a_marked)@, final(a_marked)@),
        marks_grow(old(b_marked)@, final(b_marked)@),
{
    match v.source {
        PolygonSource::A => {
            a_marked.set(v.start, true);
            a_marked.set(v.end, true);
        },
        PolygonSource::B => {
            b_marked.set(v.start, true);
            b_marked.set(v.end, true);
        },
    }
}

/// Traces one boundary, starting with B at offset `start`; `None` where the orbit stalls.
fn trace_boundary<G: ComputeNoFitPolygon>(
    geo: &G,
    a: &Polygon,
    b: &mut Polygon,
    aw: &Vec<Point2D>,
    start: Point2D,
    a_marked: &mut Vec<bool>,
    b_marked: &mut Vec<bool>,
) -> (r: Option<Vec<Point2D>>)
    requires
        shape_ok(a),
        shape_ok(old(b)),
        aw@ == world_vertices(a),
        all_within(aw@, world_limit()),
        within(start, OFFSET_LIMIT as int),
        old(a_marked)@.len() == a.vertices@.len(),
        old(b_marked)@.len() == old(b).vertices@.len(),
    ensures
        final(b).vertices@ == old(b).vertices@,
        within(final(b).offset, OFFSET_LIMIT as int),
        marks_grow(old(a_marked)@, final(a_marked)@),
        marks_grow(old(b_marked)@, final(b_marked)@),
        match r {
            Some(v) => v@.len() >= 1 && v@[0] == add_spec(old(b).vertices@[0], start)
                && v@.no_duplicates() && v@.len() <= 1 + 10 * (a.vertices@.len() + old(b).vertices@.len()),
            None => true,
        },
{
    let n = a.length();
    let m = b.length();
    b.set_offset(start);
    assert(within(b.vertices@[0], VERTEX_LIMIT as int));
    let first = b.get_vertex(0);
    let mut nfp: Vec<Point2D> = vec![first];
    let mut prev: Option<Point2D> = None;
    let limit: usize = 10 * (n + m);
    let mut counter: usize = 0;
    while counter < limit
        invariant
            shape_ok(a),
            aw@ == world_vertices(a),
            all_within(aw@, world_limit()),
            n == aw@.len(),
            m == b.vertices@.len(),
            b.vertices@ == old(b).vertices@,
            shape_ok(b),
            within(b.offset, OFFSET_LIMIT as int),
            first == add_spec(old(b).vertices@[0], start),
            nfp@.len() >= 1,
            nfp@.len() <= 1 + counter,
            counter <= limit,
            limit == 10 * (n + m),
            nfp@[0] == first,
            nfp@.no_duplicates(),
            marks_grow(old(a_marked)@, a_marked@),
            marks_grow(old(b_marked)@, b_marked@),
            a_marked@.len() == n,
            b_marked@.len() == m,
            match prev {
                Some(p) => within(p, vector_limit()),
                None => true,
            },
        decreases limit - counter,
    {
        let bw = world_of(b);
        let ts = find_touchings(aw, &bw);
        proof {
            lemma_touchings_ok(aw@, bw@, (n * m) as int);
        }
        let ghost marks_before = a_marked@;
        let vs = candidate_vectors(aw, &bw, &ts, a_marked);
        proof {
            lemma_vectors_bounded(aw@, bw@, ts@, ts@.len() as int);
            assert forall|i: int| 0 <= i < marks_before.len() && #[trigger] marks_before[i] implies a_marked@[i] by {}
        }
        let mut reported: Vec<Option<i64>> = Vec::new();
        let mut k: usize = 0;
        while k < vs.len()
            invariant
                0 <= k <= vs@.len(),
                reported@.len() == k,
                forall|q: int| 0 <= q < vs@.len() ==> within((#[trigger] vs@[q]).point, vector_limit()),
                match prev {
                    Some(p) => within(p, vector_limit()),
                    None => true,
                },
            decreases vs@.len() - k,
        {
            let v = vs[k].point;
            assert(within(vs@[k as int].point, vector_limit()));
            if is_eligible(prev, v) {
                reported.push(geo.slide_distance_on_polygon(a, b, v));
            } else {
                reported.push(None);
            }
            k = k + 1;
        }
        assert(within(b.vertices@[0], VERTEX_LIMIT as int));
        let outcome = orbit_step(&vs, prev, &reported, b.offset(), b.local_vertex(0), &nfp);
        match outcome {
            OrbitStep::Closed { chosen } => {
                assert(vector_indices_ok(vs@[chosen as int], n as int, m as int));
                mark_visited(vs[chosen], a_marked, b_marked);
            },
            OrbitStep::Advance { chosen, .. } => {
                assert(vector_indices_ok(vs@[chosen as int], n as int, m as int));
                assert(within(vs@[chosen as int].point, vector_limit()));
                mark_visited(vs[chosen], a_marked, b_marked);
                prev = Some(vs[chosen].point);
            },
            OrbitStep::Stall => {},
        }
        let ghost before = nfp@;
        match extend_boundary(&mut nfp, outcome) {
            BoundaryState::Dropped => {
                return None;
            },
            BoundaryState::Finished => {
                break;
            },
            BoundaryState::Growing => {},
        }
        if let OrbitStep::Advance { offset, reference, .. } = outcome {
            proof {
                assert forall|i: int, j: int| 0 <= i < nfp@.len() && 0 <= j < nfp@.len() && i != j implies nfp@[i] != nfp@[j] by {
                    if i < before.len() && j < before.len() {
                        assert(before[i] != before[j]);
                    } else if i == before.len() {
                        assert(nfp@[i] == reference);
                        assert(nfp@[j] == before[j]);
                    } else {
                        assert(nfp@[j] == reference);
                        assert(nfp@[i] == before[i]);
                    }
                }
            }
            b.set_offset(offset);
        }
        counter = counter + 1;
    }
    Some(nfp)
}

/// No boundary has more than `cap` points.
pub open spec fn boundaries_capped(list: Seq<Vec<Point2D>>, cap: int) -> bool {
    forall|i: int| 0 <= i < list.len() ==> (#[trigger] list[i])@.len() <= cap
}

/// Placing B's first highest vertex on A's first lowest vertex gives an offset within
/// `OFFSET_LIMIT`.
pub open spec fn outer_start_fits(a: &Polygon, b: &Polygon) -> bool {
    exists|i: int, j: int|
        is_lowest(world_vertices(a), i) && is_highest(b.vertices@, j) && within(
            sub_spec(#[trigger] world_vertices(a)[i], #[trigger] b.vertices@[j]),
            OFFSET_LIMIT as int,
        )
}

/// Each boundary has a point and visits no point twice.
pub open spec fn boundaries_ok(list: Seq<Vec<Point2D>>) -> bool {
    forall|i: int| 0 <= i < list.len() ==> (#[trigger] list[i])@.len() >= 1 && list[i]@.no_duplicates()
}

/// `s[i]` has the smallest `y`, and is the first such.
pub open spec fn is_lowest(s: Seq<Point2D>, i: int) -> bool {
    0 <= i < s.len() && (forall|k: int| 0 <= k < s.len() ==> s[i].y <= #[trigger] s[k].y) && (forall|k: int|
        0 <= k < i ==> #[trigger] s[k].y > s[i].y)
}

/// `s[i]` has the largest `y`, and is the first such.
pub open spec fn is_highest(s: Seq<Point2D>, i: int) -> bool {
    0 <= i < s.len() && (forall|k: int| 0 <= k < s.len() ==> #[trigger] s[k].y <= s[i].y) && (forall|k: int|
        0 <= k < i ==> #[trigger] s[k].y < s[i].y)
}

/// `p` is where B's first vertex stands when B's highest vertex sits on A's lowest one.
pub open spec fn starts_outside(a: &Polygon, b: &Polygon, p: Point2D) -> bool {
    exists|i: int, j: int|
        is_lowest(world_vertices(a), i) && is_highest(b.vertices@, j) && p == add_spec(
            b.vertices@[0],
            sub_spec(#[trigger] world_vertices(a)[i], #[trigger] b.vertices@[j]),
        )
}

/// The index of the first point with the smallest `y`.
pub fn lowest_index(s: &Vec<Point2D>) -> (r: usize)
    requires
        s@.len() >= 1,
    ensures
        is_lowest(s@, r as int),
{
    let mut best: usize = 0;
    let mut k: usize = 1;
    while k < s.len()
        invariant
            1 <= k <= s@.len(),
            is_lowest(s@.take(k as int), best as int),
        decreases s@.len() - k,
    {
        if s[k].y < s[best].y {
            best = k;
        }
        k = k + 1;
        assert(s@.take(k as int).take(k - 1) =~= s@.take(k - 1));
    }
    assert(s@.take(k as int) =~= s@);
    best
}

/// The index of the first point with the largest `y`.
pub fn highest_index(s: &Vec<Point2D>) -> (r: usize)
    requires
        s@.len() >= 1,
    ensures
        is_highest(s@, r as int),
{
    let mut best: usize = 0;
    let mut k: usize = 1;
    while k < s.len()
        invariant
            1 <= k <= s@.len(),
            is_highest(s@.take(k as int), best as int),
        decreases s@.len() - k,
    {
        if s[k].y > s[best].y {
            best = k;
        }
        k = k + 1;
        assert(s@.take(k as int).take(k - 1) =~= s@.take(k - 1));
    }
    assert(s@.take(k as int) =~= s@);
    best
}

/// The smaller of two projected distances, or whichever one exists.
pub fn nearest_projection(d1: Option<i64>, d2: Option<i64>) -> (r: Option<i64>)
    ensures
        r == nearest_projection_spec(d1, d2),
{
    match (d1, d2) {
        (Some(x), Some(y)) => Some(if x <= y { x } else { y }),
        (Some(x), None) => Some(x),
        (None, y) => y,
    }
}

/// Looks for an offset at which B can start a new boundary. Unmarked vertices `i` of A in
/// ascending order, and for each the vertices `j` of B in ascending order, are probed: first
/// the placement of B's vertex `j` on A's vertex `i`, then that placement slid along A's edge
/// `i` (see `slide_offset`). A probe is taken when `accept_start` holds of A's first answer
/// at B's vertices (after a slide with no answer, the answer before it), of whether the two
/// touch, and of whether the offset is on a boundary already found. Where no vertex of B
/// gets an answer at a placement, the search gives up. Each examined vertex of A is marked.
pub fn search_start_point<G: ComputeNoFitPolygon>(
    geo: &G,
    a: &Polygon,
    other: &Polygon,
    a_marked: &mut Vec<bool>,
    inside: bool,
    nfp: &Vec<Vec<Point2D>>,
) -> (r: Option<Point2D>)
    requires
        shape_ok(a),
        within(a.offset, OFFSET_LIMIT as int),
        shape_ok(other),
        old(a_marked)@.len() == a.vertices@.len(),
    ensures
        marks_grow(old(a_marked)@, final(a_marked)@),
        (forall|i: int| 0 <= i < old(a_marked)@.len() ==> #[trigger] old(a_marked)@[i]) ==> r.is_none(),
        match r {
            Some(p) => within(p, OFFSET_LIMIT as int) && !in_nfp_spec(p, nfp@) && found_start(
                world_vertices(a),
                other.vertices@,
                old(a_marked)@,
                final(a_marked)@,
                p,
            ),
            None => true,
        },
{
    let aw = world_of(a);
    let n = a.length();
    let m = other.length();
    let mut o = other.duplicate();
    let mut i: usize = 0;
    while i < n
        invariant
            n == aw@.len(),
            aw@ == world_vertices(a),
            n == a.vertices@.len(),
            all_within(aw@, world_limit()),
            m == o.vertices@.len(),
            o.vertices@ == other.vertices@,
            shape_ok(&o),
            0 <= i <= n,
            old(a_marked)@.len() == n,
            a_marked@.len() == n,
            marks_grow(old(a_marked)@, a_marked@),
            (forall|q: int| 0 <= q < old(a_marked)@.len() ==> #[trigger] old(a_marked)@[q]) ==> a_marked@
                == old(a_marked)@,
        decreases n - i,
    {
        if !a_marked[i] {
            let ghost before = a_marked@;
            a_marked.set(i, true);
            proof {
                assert(!old(a_marked)@[i as int]);
                assert forall|q: int| 0 <= q < old(a_marked)@.len() && #[trigger] old(a_marked)@[q] implies a_marked@[q] by {
                    assert(before[q]);
                }
            }
            let ie = next_index(i, n);
            assert(within(aw@[i as int], world_limit()) && within(aw@[ie as int], world_limit()));
            let edge = aw[ie].sub(aw[i]);
            assert(edge == edge_spec(aw@, i as int));
            let mut j: usize = 0;
            while j < m
                invariant
                    n == aw@.len(),
                    aw@ == world_vertices(a),
                    n == a.vertices@.len(),
                    all_within(aw@, world_limit()),
                    i < n,
                    within(aw@[i as int], world_limit()),
                    edge == edge_spec(aw@, i as int),
                    within(edge, vector_limit()),
                    m == o.vertices@.len(),
                    o.vertices@ == other.vertices@,
                    shape_ok(&o),
                    old(a_marked)@.len() == n,
                    a_marked@.len() == n,
                    marks_grow(old(a_marked)@, a_marked@),
                    !old(a_marked)@[i as int],
                    a_marked@[i as int],
                decreases m - j,
            {
                assert(within(o.vertices@[j as int], VERTEX_LIMIT as int));
                let jj = j;
                j = j + 1;
                if let Some(off) = place_offset(aw[i], o.local_vertex(jj)) {
                    proof {
                        assert(start_candidate(aw@, other.vertices@, i as int, jj as int, off));
                    }
                    o.set_offset(off);
                    let answers = probe_answers(geo, a, &o);
                    let answer = match first_answer(&answers) {
                        Some(c) => c,
                        None => {
                            return None;
                        },
                    };
                    let touches = geo.intersects_polygon(a, &o);
                    let seen = in_nfp(&off, nfp);
                    if accept_start(answer, inside, touches, seen) {
                        return Some(off);
                    }
                    let d1 = geo.project_distance_on_polygon(a, &o, edge);
                    let d2 = geo.project_distance_on_polygon(a, &o, edge.neg());
                    if let Some(slid) = slide_offset(off, edge, d1, d2) {
                        proof {
                            let d = nearest_projection_spec(d1, d2)->Some_0 as int;
                            assert(slid == add_spec(off, trim_spec(edge_spec(aw@, i as int), d)));
                            assert(start_candidate(aw@, other.vertices@, i as int, jj as int, slid));
                        }
                        o.set_offset(slid);
                        let answers = probe_answers(geo, a, &o);
                        let again = match first_answer(&answers) {
                            Some(c) => c,
                            None => answer,
                        };
                        let touches = geo.intersects_polygon(a, &o);
                        let seen = in_nfp(&slid, nfp);
                        if accept_start(again, inside, touches, seen) {
                            return Some(slid);
                        }
                    }
                }
            }
        }
        i = i + 1;
    }
    None
}

/// Whether both coordinates of `p` lie within `OFFSET_LIMIT`.
pub fn within_offset_limit(p: Point2D) -> (r: bool)
    ensures
        r == within(p, OFFSET_LIMIT as int),
{
    -OFFSET_LIMIT <= p.x && p.x <= OFFSET_LIMIT && -OFFSET_LIMIT <= p.y && p.y <= OFFSET_LIMIT
}

/// `n` unmarked vertices.
fn no_marks(n: usize) -> (r: Vec<bool>)
    ensures
        r@.len() == n,
        forall|i: int| 0 <= i < n ==> !#[trigger] r@[i],
{
    let mut out: Vec<bool> = Vec::new();
    let mut k: usize = 0;
    while k < n
        invariant
            0 <= k <= n,
            out@.len() == k,
            forall|i: int| 0 <= i < k ==> !#[trigger] out@[i],
        decreases n - k,
    {
        out.push(false);
        k = k + 1;
    }
    out
}

/// The boundaries of the no-fit polygon of `other` around (or, with `inside`, within) `a`,
/// traced by orbiting `other`'s first vertex. With `search_edges` false only the first
/// boundary is attempted.
pub fn no_fit_polygon<G: ComputeNoFitPolygon>(geo: &G, a: &Polygon, other: &Polygon, inside: bool, search_edges: bool) -> (r: Option<Vec<Vec<Point2D>>>)
    requires
        shape_ok(a),
        within(a.offset, OFFSET_LIMIT as int),
        shape_ok(other),
    ensures
        match r {
            Some(list) => boundaries_ok(list@)
                && boundaries_capped(list@, (1 + 10 * (a.vertices@.len() + other.vertices@.len())) as int)
                && (!inside && !outer_start_fits(a, other) ==> list@.len() == 0)
                && (!search_edges ==> list@.len() <= 1)
                && (!search_edges && !inside && list@.len() == 1 ==> starts_outside(a, other, list@[0]@[0])),
            None => false,
        },
{
    let aw = world_of(a);
    let n = a.length();
    let mut b = other.duplicate();
    b.set_offset(Point2D::zero());
    let m = b.length();
    let mut a_marked = no_marks(n);
    let mut b_marked = no_marks(m);
    let mut bl: Vec<Point2D> = Vec::new();
    let mut k: usize = 0;
    while k < m
        invariant
            m == b.vertices@.len(),
            0 <= k <= m,
            bl@ == b.vertices@.take(k as int),
        decreases m - k,
    {
        bl.push(b.local_vertex(k));
        k = k + 1;
        assert(bl@ =~= b.vertices@.take(k as int));
    }
    assert(bl@ =~= b.vertices@);
    let empty: Vec<Vec<Point2D>> = Vec::new();
    let mut start: Option<Point2D> = if !inside {
        let i = lowest_index(&aw);
        let j = highest_index(&bl);
        assert(within(aw@[i as int], world_limit()));
        assert(within(bl@[j as int], VERTEX_LIMIT as int));
        let s = aw[i].sub(bl[j]);
        proof {
            assert(s == sub_spec(world_vertices(a)[i as int], other.vertices@[j as int]));
            if within(s, OFFSET_LIMIT as int) {
                assert(is_lowest(world_vertices(a), i as int) && is_highest(other.vertices@, j as int));
                assert(outer_start_fits(a, other));
            }
        }
        if within_offset_limit(s) {
            Some(s)
        } else {
            None
        }
    } else {
        search_start_point(geo, a, &b, &mut a_marked, true, &empty)
    };
    let mut list: Vec<Vec<Point2D>> = Vec::new();
    loop
        invariant_except_break
            !search_edges ==> list@.len() == 0,
            !inside && !outer_start_fits(a, other) ==> start.is_none() && list@.len() == 0,
            !search_edges && !inside ==> match start {
                Some(p) => exists|i: int, j: int|
                    is_lowest(world_vertices(a), i) && is_highest(other.vertices@, j) && p == sub_spec(
                        #[trigger] world_vertices(a)[i],
                        #[trigger] other.vertices@[j],
                    ),
                None => true,
            },
            match start {
                Some(p) => within(p, OFFSET_LIMIT as int),
                None => true,
            },
        invariant
            shape_ok(a),
            within(a.offset, OFFSET_LIMIT as int),
            aw@ == world_vertices(a),
            all_within(aw@, world_limit()),
            n == a.vertices@.len(),
            b.vertices@ == other.vertices@,
            shape_ok(&b),
            a_marked@.len() == n,
            b_marked@.len() == m,
            m == b.vertices@.len(),
            boundaries_ok(list@),
            boundaries_capped(list@, (1 + 10 * (n + m)) as int),
        ensures
            !inside && !outer_start_fits(a, other) ==> list@.len() == 0,
            !search_edges ==> list@.len() <= 1,
            !search_edges && !inside && list@.len() == 1 ==> starts_outside(a, other, list@[0]@[0]),
        decreases unmarked(a_marked@) + if start.is_some() { 1nat } else { 0nat },
    {
        let sp = match start {
            Some(p) => p,
            None => {
                break;
            },
        };
        let ghost marks_before = a_marked@;
        let traced = trace_boundary(geo, a, &mut b, &aw, sp, &mut a_marked, &mut b_marked);
        if let Some(v) = traced {
            let ghost before = list@;
            list.push(v);
            assert forall|q: int| 0 <= q < list@.len() implies (#[trigger] list@[q])@.len() >= 1 && list@[q]@.no_duplicates()
                && list@[q]@.len() <= 1 + 10 * (n + m) by {
                if q < before.len() {
                    assert(list@[q] == before[q]);
                }
            }
        }
        if !search_edges {
            break;
        }
        let ghost marks_mid = a_marked@;
        start = search_start_point(geo, a, &b, &mut a_marked, inside, &list);
        proof {
            lemma_unmarked_shrinks(marks_before, marks_mid);
            lemma_unmarked_shrinks(marks_mid, a_marked@);
        }
    }
    Some(list)
}

} // verus!
