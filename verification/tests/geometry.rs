use pdf_page::geometry::compose_matrix;
use pdf_page::{DevicePoint, Matrix, RectF, Single, ViewportTransform};

fn single(x: f32) -> Single {
    Single::from_bits(x.to_bits())
}

fn number(x: Single) -> f32 {
    f32::from_bits(x.to_bits())
}

fn matrix(m: [f32; 6]) -> Matrix {
    Matrix {
        a: single(m[0]),
        b: single(m[1]),
        c: single(m[2]),
        d: single(m[3]),
        e: single(m[4]),
        f: single(m[5]),
    }
}

fn entries(m: &Matrix) -> [f32; 6] {
    [number(m.a), number(m.b), number(m.c), number(m.d), number(m.e), number(m.f)]
}

fn rect(left: f32, top: f32, right: f32, bottom: f32) -> RectF {
    RectF {
        left: single(left),
        top: single(top),
        right: single(right),
        bottom: single(bottom),
    }
}

fn edges(r: &RectF) -> [f32; 4] {
    [number(r.left), number(r.top), number(r.right), number(r.bottom)]
}

fn pseudo_random(state: &mut u64) -> f32 {
    *state = state
        .wrapping_mul(6364136223846793005)
        .wrapping_add(1442695040888963407);
    ((*state >> 40) as f32 - 8388608.0) / 4096.0
}

#[test]
fn composition_is_the_matrix_product() {
    let outer = matrix([2.0, 3.0, 5.0, 7.0, 11.0, 13.0]);
    let inner = matrix([17.0, 19.0, 23.0, 29.0, 31.0, 37.0]);
    assert_eq!(
        entries(&compose_matrix(&outer, &inner)),
        [129.0, 184.0, 191.0, 272.0, 258.0, 365.0]
    );
}

#[test]
fn composition_agrees_with_hardware() {
    let mut state = 3;
    for _ in 0..20_000 {
        let mut o = [0.0f32; 6];
        let mut i = [0.0f32; 6];
        for k in 0..6 {
            o[k] = pseudo_random(&mut state);
            i[k] = pseudo_random(&mut state);
        }
        let expected = [
            o[0] * i[0] + o[2] * i[1],
            o[1] * i[0] + o[3] * i[1],
            o[0] * i[2] + o[2] * i[3],
            o[1] * i[2] + o[3] * i[3],
            o[0] * i[4] + o[2] * i[5] + o[4],
            o[1] * i[4] + o[3] * i[5] + o[5],
        ];
        assert_eq!(entries(&compose_matrix(&matrix(o), &matrix(i))), expected);
    }
}

#[test]
fn composition_applies_inner_then_outer() {
    let outer = matrix([2.0, 0.0, 0.0, 4.0, 1.0, -1.0]);
    let inner = matrix([0.0, 1.0, -1.0, 0.0, 10.0, 20.0]);
    let both = compose_matrix(&outer, &inner);
    for (x, y) in [(0.0, 0.0), (3.0, 5.0), (-7.0, 0.25), (100.0, -100.5)] {
        let (u, v) = inner.apply(single(x), single(y));
        assert_eq!(both.apply(single(x), single(y)), outer.apply(u, v));
    }
}

#[test]
fn identity_is_neutral() {
    let m = matrix([1.5, -2.0, 0.1, 3.25, 100.0, -0.3]);
    let unit = Matrix::identity();
    assert_eq!(entries(&compose_matrix(&unit, &m)), entries(&m));
    assert_eq!(entries(&compose_matrix(&m, &unit)), entries(&m));
    let (x, y) = unit.apply(single(0.1), single(-7.5));
    assert_eq!((number(x), number(y)), (0.1, -7.5));
}

#[test]
fn box_around_turned_corners() {
    // A quarter turn.
    let turn = matrix([0.0, 1.0, -1.0, 0.0, 0.0, 0.0]);
    let lifted = turn.apply_to_box(&rect(1.0, 4.0, 3.0, 2.0));
    assert_eq!(edges(&lifted), [-4.0, 3.0, -2.0, 1.0]);
}

#[test]
fn box_of_no_numbers_is_inside_out() {
    let m = matrix([f32::NAN, f32::NAN, 0.0, 0.0, 0.0, 0.0]);
    let lifted = m.apply_to_box(&rect(1.0, 4.0, 3.0, 2.0));
    assert_eq!(
        edges(&lifted),
        [f32::INFINITY, f32::NEG_INFINITY, f32::NEG_INFINITY, f32::INFINITY]
    );
}

#[test]
fn spans_are_ordered() {
    let span = RectF::span((single(5.0), single(1.0)), (single(-2.0), single(8.0)));
    assert_eq!(edges(&span), [-2.0, 1.0, 5.0, 8.0]);
}

#[test]
fn device_points_are_thousandths() {
    let (x, y) = DevicePoint { x: 612000, y: -1 }.to_viewport();
    assert_eq!((number(x), number(y)), (612.0, -0.001));
    for n in [0, 1, 7, 123456, i32::MAX, i32::MIN, 792001] {
        let (x, _) = DevicePoint { x: n, y: 0 }.to_viewport();
        assert_eq!(number(x), n as f32 / 1000.0);
    }
}

#[test]
fn probes_make_the_transform() {
    // An upright page, 792 points high.
    let vp = ViewportTransform::from_probes(
        &DevicePoint { x: 0, y: 792000 },
        &DevicePoint { x: 1000, y: 792000 },
        &DevicePoint { x: 0, y: 791000 },
    );
    let (x, y) = vp.transform_point(single(100.0), single(700.0));
    assert_eq!((number(x), number(y)), (100.0, 92.0));
    let (x, y) = vp.transform_point(single(0.0), single(0.0));
    assert_eq!((number(x), number(y)), (0.0, 792.0));
    let bounds = vp.transform_bounds(&rect(10.0, 50.0, 30.0, 20.0));
    assert_eq!(edges(&bounds), [10.0, 742.0, 30.0, 772.0]);
}

#[test]
fn transform_reproduces_its_origin() {
    let origin = DevicePoint { x: 333, y: 7777777 };
    let vp = ViewportTransform::from_probes(
        &origin,
        &DevicePoint { x: -99991, y: 3 },
        &DevicePoint { x: 1, y: i32::MAX },
    );
    let (x, y) = vp.transform_point(single(0.0), single(0.0));
    let (e, f) = origin.to_viewport();
    assert_eq!((number(x), number(y)), (number(e), number(f)));
}

#[test]
fn transform_agrees_with_hardware() {
    let mut state = 99;
    let p: Vec<i32> = (0..6)
        .map(|_| (pseudo_random(&mut state) * 1000.0) as i32)
        .collect();
    let vp = ViewportTransform::from_probes(
        &DevicePoint { x: p[0], y: p[1] },
        &DevicePoint { x: p[2], y: p[3] },
        &DevicePoint { x: p[4], y: p[5] },
    );
    let q: Vec<f32> = p.iter().map(|n| *n as f32 / 1000.0).collect();
    let (e, f) = (q[0], q[1]);
    let (a, b, c, d) = (q[2] - e, q[4] - e, q[3] - f, q[5] - f);
    for _ in 0..1000 {
        let x = pseudo_random(&mut state);
        let y = pseudo_random(&mut state);
        let (u, v) = vp.transform_point(single(x), single(y));
        assert_eq!(number(u), a * x + b * y + e);
        assert_eq!(number(v), c * x + d * y + f);
    }
}

#[test]
fn composition_rounds_once_more() {
    // A tenth twice is rounded before it is applied.
    let tenth = matrix([0.1, 0.0, 0.0, 0.1, 0.0, 0.0]);
    let both = compose_matrix(&tenth, &tenth);
    let (u, v) = tenth.apply(single(5.0), single(5.0));
    let (x, _) = tenth.apply(u, v);
    let (y, _) = both.apply(single(5.0), single(5.0));
    assert_eq!(number(x), 0.1f32 * (0.1f32 * 5.0));
    assert_eq!(number(y), (0.1f32 * 0.1) * 5.0);
    assert_ne!(number(x), number(y));
}

#[test]
fn device_points_keep_their_order() {
    let points = [i32::MIN, -1001, -1000, -1, 0, 1, 999, 16777217, i32::MAX];
    for pair in points.windows(2) {
        let (low, _) = DevicePoint { x: pair[0], y: 0 }.to_viewport();
        let (high, _) = DevicePoint { x: pair[1], y: 0 }.to_viewport();
        assert!(number(low) < number(high));
        assert!(number(low).is_finite());
    }
}

#[test]
fn unit_points_may_be_rounded() {
    let vp = ViewportTransform::from_probes(
        &DevicePoint { x: 3, y: 0 },
        &DevicePoint { x: 1, y: 0 },
        &DevicePoint { x: 1003, y: 0 },
    );
    let (x, _) = vp.transform_point(single(1.0), single(0.0));
    assert_eq!(number(x), (0.001f32 - 0.003) + 0.003);
    assert_ne!(number(x), 0.001);
}

#[test]
fn lifted_boxes_hold_their_corners() {
    let m = matrix([0.3, -1.7, 2.9, 0.01, -55.5, 1e6]);
    let area = rect(-3.3, 9.1, 12.7, -0.2);
    let lifted = m.apply_to_box(&area);
    for x in [area.left, area.right] {
        for y in [area.bottom, area.top] {
            let (u, v) = m.apply(x, y);
            assert!(number(lifted.left) <= number(u) && number(u) <= number(lifted.right));
            assert!(number(lifted.bottom) <= number(v) && number(v) <= number(lifted.top));
        }
    }
}
