use no_fit_polygon::no_fit_polygon::{
    best_candidate, candidate_vectors, clamp_distance, find_touchings, highest_index, is_eligible,
    lowest_index, nearest_projection, next_index, no_fit_polygon, prev_index, search_start_point,
    touching_type, touching_vectors, trim, vector_length, within_offset_limit, ComputeNoFitPolygon,
    accept_start, extend_boundary, first_answer, in_nfp, orbit_step, place_offset, slide_offset,
    BoundaryState, OrbitStep, Polygon, PolygonSource, Touching, TouchingType, Vector,
};
use no_fit_polygon::point::{isqrt, Point2D, Segment};

fn pt(x: i64, y: i64) -> Point2D {
    Point2D::from_xy(x, y)
}

/// Predicates for convex polygons, by the separating-axis test; `blocked` stops every slide.
struct Convex {
    blocked: bool,
}

const GEO: Convex = Convex { blocked: false };

fn convex(v: &[(i64, i64)]) -> Polygon {
    Polygon::new(v.iter().map(|&(x, y)| pt(x, y)).collect())
}

fn world(p: &Polygon) -> Vec<(f64, f64)> {
    p.vertices.iter().map(|v| ((v.x + p.offset.x) as f64, (v.y + p.offset.y) as f64)).collect()
}

fn axes(a: &[(f64, f64)], b: &[(f64, f64)]) -> Vec<(f64, f64)> {
    let mut out = vec![];
    for poly in [a, b] {
        for i in 0..poly.len() {
            let (x0, y0) = poly[i];
            let (x1, y1) = poly[(i + 1) % poly.len()];
            out.push((y0 - y1, x1 - x0));
        }
    }
    out
}

fn project(p: &[(f64, f64)], n: (f64, f64)) -> (f64, f64) {
    let mut lo = f64::INFINITY;
    let mut hi = f64::NEG_INFINITY;
    for &(x, y) in p {
        let d = x * n.0 + y * n.1;
        lo = lo.min(d);
        hi = hi.max(d);
    }
    (lo, hi)
}

/// Whether the interiors stay apart when `b` is moved by `t * dir`.
fn apart(a: &[(f64, f64)], b: &[(f64, f64)], dir: (f64, f64), t: f64) -> bool {
    let moved: Vec<(f64, f64)> = b.iter().map(|&(x, y)| (x + t * dir.0, y + t * dir.1)).collect();
    axes(a, &moved).iter().any(|&n| {
        let (alo, ahi) = project(a, n);
        let (blo, bhi) = project(&moved, n);
        bhi <= alo + 1e-9 || ahi <= blo + 1e-9
    })
}

fn on_seg(p: (f64, f64), s: (f64, f64), e: (f64, f64)) -> bool {
    let cross = (e.0 - s.0) * (p.1 - s.1) - (e.1 - s.1) * (p.0 - s.0);
    cross.abs() < 1e-9
        && p.0 >= s.0.min(e.0) - 1e-9
        && p.0 <= s.0.max(e.0) + 1e-9
        && p.1 >= s.1.min(e.1) - 1e-9
        && p.1 <= s.1.max(e.1) + 1e-9
}

fn orient(a: (f64, f64), b: (f64, f64), c: (f64, f64)) -> f64 {
    (b.0 - a.0) * (c.1 - a.1) - (b.1 - a.1) * (c.0 - a.0)
}

fn segments_meet(p: (f64, f64), q: (f64, f64), r: (f64, f64), s: (f64, f64)) -> bool {
    let d1 = orient(p, q, r);
    let d2 = orient(p, q, s);
    let d3 = orient(r, s, p);
    let d4 = orient(r, s, q);
    if ((d1 > 0.0 && d2 < 0.0) || (d1 < 0.0 && d2 > 0.0)) && ((d3 > 0.0 && d4 < 0.0) || (d3 < 0.0 && d4 > 0.0)) {
        return true;
    }
    on_seg(r, p, q) || on_seg(s, p, q) || on_seg(p, r, s) || on_seg(q, r, s)
}

impl ComputeNoFitPolygon for Convex {
    fn in_polygon(&self, p: Point2D, poly: &Polygon) -> Option<bool> {
        let w = world(poly);
        let q = (p.x as f64, p.y as f64);
        for i in 0..w.len() {
            if on_seg(q, w[i], w[(i + 1) % w.len()]) {
                return None;
            }
        }
        let mut sign = 0.0;
        for i in 0..w.len() {
            let o = orient(w[i], w[(i + 1) % w.len()], q);
            if sign == 0.0 {
                sign = o.signum();
            } else if o.signum() != sign {
                return Some(false);
            }
        }
        Some(true)
    }

    fn intersects_polygon(&self, a: &Polygon, b: &Polygon) -> bool {
        let a = world(a);
        let b = world(b);
        for i in 0..a.len() {
            for j in 0..b.len() {
                if segments_meet(a[i], a[(i + 1) % a.len()], b[j], b[(j + 1) % b.len()]) {
                    return true;
                }
            }
        }
        false
    }

    fn slide_distance_on_polygon(&self, a: &Polygon, b: &Polygon, direction: Point2D) -> Option<i64> {
        if self.blocked {
            return Some(0);
        }
        let a = world(a);
        let b = world(b);
        let dir = (direction.x as f64, direction.y as f64);
        let len = (dir.0 * dir.0 + dir.1 * dir.1).sqrt();
        if !apart(&a, &b, dir, 0.0) {
            // b lies inside a (counter-clockwise): stop where a vertex of b reaches an edge of a
            let mut best = f64::INFINITY;
            for i in 0..a.len() {
                let (x0, y0) = a[i];
                let (x1, y1) = a[(i + 1) % a.len()];
                let n = (y0 - y1, x1 - x0);
                let v = n.0 * dir.0 + n.1 * dir.1;
                if v < -1e-12 {
                    for &(px, py) in &b {
                        let room = n.0 * (px - x0) + n.1 * (py - y0);
                        best = best.min((room / -v).max(0.0));
                    }
                }
            }
            return if best.is_finite() { Some((best * len + 1e-6).floor() as i64) } else { None };
        }
        // every t at which some projection gap changes sign
        let mut events = vec![0.0];
        for n in axes(&a, &b) {
            let (alo, ahi) = project(&a, n);
            let (blo, bhi) = project(&b, n);
            let v = dir.0 * n.0 + dir.1 * n.1;
            if v.abs() > 1e-12 {
                for t in [(alo - bhi) / v, (ahi - blo) / v] {
                    if t > 1e-12 {
                        events.push(t);
                    }
                }
            }
        }
        events.sort_by(|x, y| x.partial_cmp(y).unwrap());
        events.dedup();
        for k in 0..events.len() {
            let mid = if k + 1 < events.len() { (events[k] + events[k + 1]) / 2.0 } else { events[k] + 1.0 };
            if !apart(&a, &b, dir, mid) {
                return Some((events[k] * len + 1e-6).floor() as i64);
            }
        }
        None
    }

    fn project_distance_on_polygon(&self, _a: &Polygon, _b: &Polygon, _direction: Point2D) -> Option<i64> {
        None
    }
}

fn square(side: i64) -> Polygon {
    convex(&[(0, 0), (side, 0), (side, side), (0, side)])
}

#[test]
fn unit_squares_outer_boundary() {
    let a = square(10);
    let b = square(2);
    let r = no_fit_polygon(&GEO, &a, &b, false, false).unwrap();
    assert_eq!(r.len(), 1);
    let nfp = &r[0];
    assert_eq!(nfp[0], pt(-2, -2));
    // every point lies on the boundary of the square [-2, 10] x [-2, 10]
    for p in nfp {
        let on_x = p.x == -2 || p.x == 10;
        let on_y = p.y == -2 || p.y == 10;
        assert!((on_x && p.y >= -2 && p.y <= 10) || (on_y && p.x >= -2 && p.x <= 10));
    }
    for corner in [pt(-2, -2), pt(10, -2), pt(10, 10), pt(-2, 10)] {
        assert!(nfp.contains(&corner));
    }
    // the closed loop has perimeter 4 * 12, each move along an axis
    let mut total = 0;
    for k in 0..nfp.len() {
        let p = nfp[k];
        let q = nfp[(k + 1) % nfp.len()];
        assert!(p.x == q.x || p.y == q.y);
        total += (p.x - q.x).abs() + (p.y - q.y).abs();
    }
    assert_eq!(total, 48);
}

#[test]
fn outer_boundary_has_no_repeated_point() {
    let a = convex(&[(0, 0), (6, 0), (3, 5)]);
    let b = square(2);
    let r = no_fit_polygon(&GEO, &a, &b, false, false).unwrap();
    assert!(r.len() <= 1);
    for nfp in &r {
        for i in 0..nfp.len() {
            for j in (i + 1)..nfp.len() {
                assert_ne!(nfp[i], nfp[j]);
            }
        }
    }
}

#[test]
fn outer_boundary_does_not_overlap() {
    let a = square(10);
    let b = square(2);
    let r = no_fit_polygon(&GEO, &a, &b, false, false).unwrap();
    let aw = world(&a);
    for p in &r[0] {
        let mut moved = b.clone();
        moved.set_offset(pt(p.x, p.y));
        assert!(apart(&aw, &world(&moved), (0.0, 0.0), 0.0));
        assert!(GEO.intersects_polygon(&a, &moved));
    }
}

#[test]
fn repeated_calls_agree() {
    let a = square(10);
    let b = convex(&[(0, 0), (3, 0), (0, 2)]);
    let first = no_fit_polygon(&GEO, &a, &b, false, true);
    let second = no_fit_polygon(&GEO, &a, &b, false, true);
    assert_eq!(first, second);
}

#[test]
fn identical_shapes_inside_terminate() {
    let a = square(10);
    let r = no_fit_polygon(&GEO, &a, &a.clone(), true, true).unwrap();
    assert!(r.is_empty());
}

#[test]
fn stalled_orbit_drops_boundary() {
    let a = square(10);
    let b = square(2);
    let r = no_fit_polygon(&Convex { blocked: true }, &a, &b, false, false).unwrap();
    assert!(r.is_empty());
}

#[test]
fn reversal_filters_every_candidate() {
    let vs = vec![
        Vector { point: pt(-4, 0), start: 0, end: 1, source: PolygonSource::A },
        Vector { point: pt(-1, 0), start: 1, end: 0, source: PolygonSource::B },
        Vector { point: pt(0, 0), start: 1, end: 2, source: PolygonSource::A },
    ];
    let reported = vec![None, Some(1), None];
    assert_eq!(best_candidate(&vs, Some(pt(3, 0)), &reported), None);
    // without a previous move the longest one wins
    assert_eq!(best_candidate(&vs, None, &reported), Some((0, 4)));
}

#[test]
fn selection_prefers_longest_then_first() {
    let vs = vec![
        Vector { point: pt(5, 0), start: 0, end: 1, source: PolygonSource::A },
        Vector { point: pt(0, 5), start: 1, end: 2, source: PolygonSource::A },
        Vector { point: pt(0, -7), start: 2, end: 3, source: PolygonSource::B },
    ];
    assert_eq!(best_candidate(&vs, None, &vec![Some(3), Some(3), Some(2)]), Some((0, 3)));
    assert_eq!(best_candidate(&vs, None, &vec![Some(3), Some(4), Some(2)]), Some((1, 4)));
    assert_eq!(best_candidate(&vs, None, &vec![Some(0), Some(0), Some(0)]), None);
}

#[test]
fn clamp_uses_own_length() {
    assert_eq!(clamp_distance(pt(3, 4), None), 5);
    assert_eq!(clamp_distance(pt(3, 4), Some(9)), 5);
    assert_eq!(clamp_distance(pt(3, 4), Some(-9)), 5);
    assert_eq!(clamp_distance(pt(3, 4), Some(2)), 2);
    assert_eq!(clamp_distance(pt(3, 4), Some(5)), 5);
}

#[test]
fn trim_scales_down() {
    assert_eq!(trim(pt(10, 0), 4), pt(4, 0));
    assert_eq!(trim(pt(-6, 8), 5), pt(-3, 4));
    assert_eq!(trim(pt(3, 4), 7), pt(3, 4));
    assert_eq!(trim(pt(0, -12), 12), pt(0, -12));
}

#[test]
fn lengths_round_down() {
    assert_eq!(isqrt(0), 0);
    assert_eq!(isqrt(24), 4);
    assert_eq!(isqrt(25), 5);
    assert_eq!(isqrt(u128::MAX), u64::MAX);
    assert_eq!(vector_length(pt(1, 1)), 1);
    assert_eq!(vector_length(pt(-6, 8)), 10);
}

#[test]
fn eligibility_rules() {
    assert!(!is_eligible(None, pt(0, 0)));
    assert!(is_eligible(None, pt(1, 0)));
    assert!(!is_eligible(Some(pt(2, 2)), pt(-1, -1)));
    assert!(is_eligible(Some(pt(2, 2)), pt(1, 1)));
    assert!(is_eligible(Some(pt(2, 2)), pt(-1, 0)));
}

#[test]
fn touching_kinds() {
    assert_eq!(touching_type(pt(0, 0), pt(4, 0), pt(0, 0), pt(0, 3)), Some(TouchingType::A));
    assert_eq!(touching_type(pt(0, 0), pt(4, 0), pt(2, 0), pt(2, 3)), Some(TouchingType::B));
    assert_eq!(touching_type(pt(2, 0), pt(4, 0), pt(0, 0), pt(5, 0)), Some(TouchingType::C));
    assert_eq!(touching_type(pt(0, 0), pt(4, 0), pt(0, 1), pt(4, 1)), None);
}

#[test]
fn touchings_of_stacked_squares() {
    let aw = vec![pt(0, 0), pt(10, 0), pt(10, 10), pt(0, 10)];
    let bw = vec![pt(-2, -2), pt(0, -2), pt(0, 0), pt(-2, 0)];
    let ts = find_touchings(&aw, &bw);
    assert_eq!(
        ts,
        vec![
            Touching { tt: TouchingType::C, a: 0, b: 2 },
            Touching { tt: TouchingType::A, a: 0, b: 2 },
            Touching { tt: TouchingType::B, a: 0, b: 2 },
        ]
    );
    let mut marks = vec![false; 4];
    let vs = candidate_vectors(&aw, &bw, &ts[1..2].to_vec(), &mut marks);
    assert_eq!(marks, vec![true, false, false, false]);
    assert_eq!(vs, touching_vectors(&aw, &bw, ts[1]));
    assert_eq!(
        vs.iter().map(|v| v.point).collect::<Vec<_>>(),
        vec![pt(0, 10), pt(10, 0), pt(0, 2), pt(2, 0)]
    );
    assert_eq!((vs[0].start, vs[0].end, vs[0].source), (0, 3, PolygonSource::A));
    assert_eq!((vs[3].start, vs[3].end, vs[3].source), (3, 2, PolygonSource::B));
}

#[test]
fn type_b_and_c_vectors() {
    let aw = vec![pt(0, 0), pt(10, 0), pt(10, 10), pt(0, 10)];
    let bw = vec![pt(4, -2), pt(6, -2), pt(6, 0), pt(4, 0)];
    let b = touching_vectors(&aw, &bw, Touching { tt: TouchingType::B, a: 1, b: 2 });
    assert_eq!(b.iter().map(|v| v.point).collect::<Vec<_>>(), vec![pt(4, 0), pt(-6, 0)]);
    assert_eq!((b[0].start, b[0].end), (0, 1));
    let c = touching_vectors(&aw, &bw, Touching { tt: TouchingType::C, a: 0, b: 3 });
    assert_eq!(c.iter().map(|v| v.point).collect::<Vec<_>>(), vec![pt(-4, 0), pt(-6, 0)]);
    assert_eq!((c[1].start, c[1].end, c[1].source), (3, 2, PolygonSource::B));
}

#[test]
fn extreme_vertices() {
    let v = vec![pt(0, 3), pt(1, 1), pt(2, 5), pt(3, 1), pt(4, 5)];
    assert_eq!(lowest_index(&v), 1);
    assert_eq!(highest_index(&v), 2);
}

#[test]
fn cyclic_indices() {
    assert_eq!(next_index(3, 4), 0);
    assert_eq!(next_index(1, 4), 2);
    assert_eq!(prev_index(0, 4), 3);
    assert_eq!(prev_index(2, 4), 1);
}

#[test]
fn projections_combine() {
    assert_eq!(nearest_projection(Some(3), Some(2)), Some(2));
    assert_eq!(nearest_projection(None, Some(2)), Some(2));
    assert_eq!(nearest_projection(Some(3), None), Some(3));
    assert_eq!(nearest_projection(None, None), None);
}

#[test]
fn offset_limit_check() {
    assert!(within_offset_limit(pt(17592186044416, -17592186044416)));
    assert!(!within_offset_limit(pt(17592186044417, 0)));
}

#[test]
fn start_search_skips_marked_vertices() {
    let a = square(10);
    let b = square(2);
    let mut marks = vec![true; 4];
    assert_eq!(search_start_point(&GEO, &a, &b, &mut marks, false, &vec![]), None);
    let mut marks = vec![false; 4];
    let found = search_start_point(&GEO, &a, &b, &mut marks, false, &vec![]);
    // B's second vertex on A's first one leaves B outside and touching
    assert_eq!(found, Some(pt(-2, 0)));
    assert_eq!(marks, vec![true, false, false, false]);
    let mut marks = vec![false; 4];
    let again = search_start_point(&GEO, &a, &b, &mut marks, false, &vec![vec![pt(-2, 0)]]);
    assert!(again.is_some());
    assert_ne!(again, Some(pt(-2, 0)));
}

#[test]
fn inside_boundary_keeps_b_within_a() {
    let a = square(10);
    let b = square(2);
    let r = no_fit_polygon(&GEO, &a, &b, true, false).unwrap();
    assert_eq!(r.len(), 1);
    for p in &r[0] {
        for v in &b.vertices {
            let x = v.x + p.x;
            let y = v.y + p.y;
            assert!(x >= 0 && x <= 10 && y >= 0 && y <= 10);
        }
    }
    for corner in [pt(0, 0), pt(8, 0), pt(8, 8), pt(0, 8)] {
        assert!(r[0].contains(&corner));
    }
}

#[test]
fn point_arithmetic() {
    let mut p = pt(3, -4);
    assert_eq!(p.add(pt(1, 1)), pt(4, -3));
    assert_eq!(p.sub(pt(1, 1)), pt(2, -5));
    assert_eq!(p.neg(), pt(-3, 4));
    assert_eq!(p.dot(&pt(2, 1)), 2);
    assert_eq!(p.cross(&pt(2, 1)), 11);
    assert!(Point2D::zero().is_zero());
    assert!(!p.is_zero());
    p.set_x(7);
    p.set_y(8);
    assert_eq!((p.x(), p.y()), (7, 8));
    let s = Segment::new(pt(0, 0), pt(4, 4));
    assert_eq!((s.start(), s.end()), (pt(0, 0), pt(4, 4)));
    assert!(pt(2, 2).on_segment(&s));
    assert!(!pt(5, 5).on_segment(&s));
    assert!(!pt(2, 3).on_segment(&s));
}

#[test]
fn polygon_frames() {
    let mut p = convex(&[(0, 0), (4, 0), (0, 3)]);
    assert_eq!(p.length(), 3);
    p.set_offset(pt(10, -1));
    assert_eq!(p.offset(), pt(10, -1));
    assert_eq!(p.local_vertex(1), pt(4, 0));
    assert_eq!(p.get_vertex(1), pt(14, -1));
    let q = p.duplicate();
    assert_eq!(q, p);
}

#[test]
fn found_points_are_recognised() {
    let nfp = vec![vec![pt(1, 1), pt(2, 2)], vec![pt(5, 5)]];
    assert!(in_nfp(&pt(5, 5), &nfp));
    assert!(in_nfp(&pt(2, 2), &nfp));
    assert!(!in_nfp(&pt(3, 3), &nfp));
    assert!(!in_nfp(&pt(3, 3), &vec![]));
}

#[test]
fn orbit_step_outcomes() {
    let vs = vec![Vector { point: pt(10, 0), start: 0, end: 1, source: PolygonSource::A }];
    let start = vec![pt(-2, -2)];
    assert_eq!(
        orbit_step(&vs, None, &vec![None], pt(-2, -2), pt(0, 0), &start),
        OrbitStep::Advance { chosen: 0, offset: pt(8, -2), reference: pt(8, -2) }
    );
    assert_eq!(
        orbit_step(&vs, None, &vec![Some(4)], pt(-2, -2), pt(1, 1), &start),
        OrbitStep::Advance { chosen: 0, offset: pt(2, -2), reference: pt(3, -1) }
    );
    assert_eq!(
        orbit_step(&vs, None, &vec![None], pt(-2, -2), pt(0, 0), &vec![pt(-2, -2), pt(8, -2)]),
        OrbitStep::Closed { chosen: 0 }
    );
    assert_eq!(orbit_step(&vs, None, &vec![Some(0)], pt(-2, -2), pt(0, 0), &start), OrbitStep::Stall);
    assert_eq!(orbit_step(&vs, Some(pt(-1, 0)), &vec![None], pt(-2, -2), pt(0, 0), &start), OrbitStep::Stall);
    assert_eq!(
        orbit_step(&vs, None, &vec![None], pt(17592186044410, 0), pt(0, 0), &start),
        OrbitStep::Stall
    );
}

#[test]
fn zero_trimmed_step_stalls() {
    let vs = vec![Vector { point: pt(3, 3), start: 0, end: 1, source: PolygonSource::A }];
    assert_eq!(trim(pt(3, 3), 1), pt(0, 0));
    assert_eq!(orbit_step(&vs, None, &vec![Some(1)], pt(0, 0), pt(0, 0), &vec![pt(0, 0)]), OrbitStep::Stall);
}

#[test]
fn boundary_state_machine() {
    let mut b = vec![pt(0, 0)];
    assert_eq!(extend_boundary(&mut b, OrbitStep::Stall), BoundaryState::Dropped);
    assert_eq!(b, vec![pt(0, 0)]);
    assert_eq!(extend_boundary(&mut b, OrbitStep::Closed { chosen: 1 }), BoundaryState::Finished);
    assert_eq!(b, vec![pt(0, 0)]);
    let step = OrbitStep::Advance { chosen: 0, offset: pt(4, 0), reference: pt(5, 1) };
    assert_eq!(extend_boundary(&mut b, step), BoundaryState::Growing);
    assert_eq!(b, vec![pt(0, 0), pt(5, 1)]);
}

#[test]
fn start_search_rules() {
    assert_eq!(first_answer(&vec![None, Some(false), Some(true)]), Some(false));
    assert_eq!(first_answer(&vec![None, None]), None);
    assert_eq!(first_answer(&vec![]), None);
    assert!(accept_start(true, true, true, false));
    assert!(accept_start(false, false, true, false));
    assert!(!accept_start(true, false, true, false));
    assert!(!accept_start(true, true, false, false));
    assert!(!accept_start(true, true, true, true));
    assert_eq!(place_offset(pt(10, 0), pt(2, 2)), Some(pt(8, -2)));
    assert_eq!(place_offset(pt(17592186044416, 0), pt(-1, 0)), None);
    assert_eq!(slide_offset(pt(1, 1), pt(10, 0), Some(3), Some(5)), Some(pt(4, 1)));
    assert_eq!(slide_offset(pt(1, 1), pt(10, 0), None, Some(20)), Some(pt(11, 1)));
    assert_eq!(slide_offset(pt(1, 1), pt(10, 0), Some(0), Some(5)), None);
    assert_eq!(slide_offset(pt(1, 1), pt(10, 0), None, None), None);
}

/// Answers every inside test ambiguously.
struct Undecided;

impl ComputeNoFitPolygon for Undecided {
    fn in_polygon(&self, _p: Point2D, _poly: &Polygon) -> Option<bool> {
        None
    }

    fn intersects_polygon(&self, _a: &Polygon, _b: &Polygon) -> bool {
        true
    }

    fn slide_distance_on_polygon(&self, _a: &Polygon, _b: &Polygon, _d: Point2D) -> Option<i64> {
        None
    }

    fn project_distance_on_polygon(&self, _a: &Polygon, _b: &Polygon, _d: Point2D) -> Option<i64> {
        None
    }
}

#[test]
fn ambiguous_probe_ends_search() {
    let a = square(10);
    let mut marks = vec![false; 4];
    assert_eq!(search_start_point(&Undecided, &a, &a, &mut marks, true, &vec![]), None);
    assert_eq!(marks, vec![true, false, false, false]);
    assert_eq!(no_fit_polygon(&Undecided, &a, &a, true, true), Some(vec![]));
}

#[test]
fn far_outer_start_gives_nothing() {
    let mut a = square(10);
    a.set_offset(pt(17592186044416, 0));
    // B's highest vertex is far to the left, so the outer start lies past the offset limit
    let b = convex(&[(0, 0), (1, 0), (-1099511627776, 5)]);
    assert_eq!(no_fit_polygon(&GEO, &a, &b, false, false), Some(vec![]));
}
