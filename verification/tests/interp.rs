use hifisampler_core::ieee::Binary64;
use hifisampler_core::interp::{
    akima_interp_f64, akima_tangents, extend_slopes, gradient, interp1d, locate, smooth_curve,
    top_weight, Place,
};

fn b64(x: f64) -> Binary64 {
    Binary64 { bits: x.to_bits() }
}

fn all_keys(values: &[f64]) -> Vec<Option<i64>> {
    values.iter().map(|&x| b64(x).order_key()).collect()
}

fn keys(values: &[f64]) -> Vec<i64> {
    values.iter().map(|&x| b64(x).order_key().unwrap()).collect()
}

#[test]
fn places_among_nodes() {
    let nodes = [10, 20, 30, 40];
    assert_eq!(locate(&nodes, 5), Place::Start);
    assert_eq!(locate(&nodes, 10), Place::Start);
    assert_eq!(locate(&nodes, 15), Place::Between(0));
    assert_eq!(locate(&nodes, 20), Place::Node(1));
    assert_eq!(locate(&nodes, 39), Place::Between(2));
    assert_eq!(locate(&nodes, 40), Place::End);
    assert_eq!(locate(&nodes, 99), Place::End);
    assert_eq!(locate(&[7], 7), Place::Start);
    assert_eq!(locate(&[7], 8), Place::End);
}

#[test]
fn linear_interpolation() {
    let x = [0.0, 1.0, 3.0];
    let y = [10.0, 20.0, 40.0];
    let q = [-1.0, 0.0, 0.5, 1.0, 2.0, 3.0, 4.0];
    let between =
        |i: usize, j: usize| y[i] + (q[j] - x[i]) / (x[i + 1] - x[i]) * (y[i + 1] - y[i]);
    let out = interp1d(&keys(&x), &y, &keys(&q), &between);
    assert_eq!(out, vec![10.0, 10.0, 15.0, 20.0, 30.0, 40.0, 40.0]);
}

#[test]
fn no_query_needs_no_ordinate() {
    let never = |_: usize, _: usize| 0;
    assert_eq!(interp1d(&[1, 2, 3], &[], &[], &never), Vec::<i32>::new());
    assert_eq!(interp1d(&[], &[], &[], &never), Vec::<i32>::new());
}

#[test]
fn queries_outside_need_one_ordinate() {
    let never = |_: usize, _: usize| 0;
    assert_eq!(interp1d(&[1, 2, 3], &[7], &[0, 1, 3, 9], &never), vec![7, 7, 7, 7]);
    assert_eq!(interp1d(&[1, 2, 3], &[7, 8], &[2], &never), vec![8]);
}

#[test]
fn linear_interpolation_meets_its_nodes() {
    let x = [0.0, 0.25, 1.0, 8.0];
    let y = [3.0, 1.0, 4.0, 1.5];
    let wrong = |_: usize, _: usize| f64::NAN;
    assert_eq!(interp1d(&keys(&x), &y, &keys(&x), &wrong), y.to_vec());
}

#[test]
fn slopes_are_drawn_on() {
    let extrapolate = |near: i32, far: i32| 2 * near - far;
    assert_eq!(extend_slopes(&[1, 3, 4], &extrapolate), vec![-3, -1, 1, 3, 4, 5, 6]);
}

#[test]
fn largest_weight() {
    assert_eq!(top_weight(&[b64(0.5), b64(2.0), b64(f64::NAN), b64(1.0)]), b64(2.0));
    assert_eq!(top_weight(&[b64(-1.0)]), b64(0.0));
    assert_eq!(top_weight(&[]), b64(0.0));
}

fn akima(x: &[f64], y: &[f64], q: &[f64]) -> Vec<f64> {
    let slope = |i: usize| (y[i + 1] - y[i]) / (x[i + 1] - x[i]);
    let extrapolate = |near: f64, far: f64| 2.0 * near - far;
    let spread = |m0: f64, m1: f64, m2: f64, m3: f64| b64((m3 - m2).abs() + (m1 - m0).abs());
    let tangent = |m0: f64, m1: f64, m2: f64, m3: f64, top: Binary64| {
        let w1 = (m3 - m2).abs();
        let w2 = (m1 - m0).abs();
        if w1 + w2 > 1e-9 * f64::from_bits(top.bits) {
            (w1 * m1 + w2 * m2) / (w1 + w2)
        } else {
            0.5 * (m3 + m0)
        }
    };
    let line = |i: usize, j: usize| y[i] + (q[j] - x[i]) / (x[i + 1] - x[i]) * (y[i + 1] - y[i]);
    let cubic = |i: usize, j: usize, t0: f64, t1: f64| {
        let dx = x[i + 1] - x[i];
        let t = (q[j] - x[i]) / dx;
        let b = t0 * dx;
        let c = 3.0 * (y[i + 1] - y[i]) - 2.0 * t0 * dx - t1 * dx;
        let d = 2.0 * (y[i] - y[i + 1]) + t0 * dx + t1 * dx;
        y[i] + t * (b + t * (c + t * d))
    };
    akima_interp_f64(
        &all_keys(x), y, &all_keys(q), 0.0, &slope, &extrapolate, &spread, &tangent, &line, &cubic,
    )
}

#[test]
fn smooth_interpolation_of_fewer_than_two_nodes_is_constant() {
    assert_eq!(akima(&[], &[], &[1.0, 2.0]), vec![0.0, 0.0]);
    assert_eq!(akima(&[1.0], &[5.0], &[0.0, 1.0, 2.0]), vec![5.0, 5.0, 5.0]);
    assert_eq!(akima(&[f64::NAN], &[5.0], &[f64::NAN, 1.0]), vec![5.0, 5.0]);
}

#[test]
fn smooth_interpolation_of_two_nodes_is_a_line() {
    assert_eq!(
        akima(&[0.0, 2.0], &[1.0, 5.0], &[-1.0, 0.0, 1.0, 2.0, 3.0]),
        vec![1.0, 1.0, 3.0, 5.0, 5.0]
    );
    assert!(akima(&[0.0, 2.0], &[1.0, 5.0], &[f64::NAN])[0].is_nan());
    assert_eq!(akima(&[f64::NAN, 2.0], &[1.0, 5.0], &[3.0]), vec![5.0]);
    assert!(akima(&[f64::NAN, 2.0], &[1.0, 5.0], &[1.0])[0].is_nan());
    assert_eq!(akima(&[0.0, 2.0], &[], &[]), Vec::<f64>::new());
    assert_eq!(akima(&[0.0, 2.0], &[1.0], &[-1.0, 0.0]), vec![1.0, 1.0]);
}

#[test]
fn smooth_interpolation_of_a_line_is_the_line() {
    let x = [0.0, 1.0, 2.0, 3.0, 4.0];
    let y = [0.0, 2.0, 4.0, 6.0, 8.0];
    assert_eq!(akima(&x, &y, &[0.5, 1.25, 3.75]), vec![1.0, 2.5, 7.5]);
}

#[test]
fn smooth_interpolation_meets_its_nodes() {
    let x = [0.0, 1.0, 2.0, 4.0, 8.0];
    let y = [1.0, 5.0, -2.0, 3.0, 3.0];
    assert_eq!(akima(&x, &y, &x), y.to_vec());
    assert_eq!(akima(&x, &y, &[-5.0, 9.0]), vec![1.0, 3.0]);
    assert_eq!(akima(&[0.0, f64::NAN, 2.0], &[1.0, 2.0, 3.0], &[]), Vec::<f64>::new());
}

#[test]
fn smooth_interpolation_has_the_derivatives_of_its_slopes() {
    // Slopes 0, 0, 1, 1: flat on the left and straight on the right of the corner at 2,
    // whose derivative is the middle of the two.
    let x = [0.0, 1.0, 2.0, 3.0, 4.0];
    let y = [0.0, 0.0, 0.0, 1.0, 2.0];
    assert_eq!(akima(&x, &y, &[0.5]), vec![0.0]);
    assert_eq!(akima(&x, &y, &[3.5]), vec![1.5]);
    // On 1..2: values 0 and 0, derivatives 0 and 1/2: 1/2 t^2 (t - 1) at t = 1/2.
    assert_eq!(akima(&x, &y, &[1.5]), vec![-0.0625]);
}

#[test]
fn tangents_follow_from_four_slopes() {
    let extrapolate = |near: f64, far: f64| 2.0 * near - far;
    let spread = |a: f64, b: f64, c: f64, d: f64| b64((d - c).abs() + (b - a).abs());
    let tangent = |a: f64, b: f64, c: f64, d: f64, top: Binary64| {
        a + 10.0 * b + 100.0 * c + 1000.0 * d + f64::from_bits(top.bits)
    };
    // Extended slopes: -1 0 | 1 2 | 3 4, every spread 2.
    let out = akima_tangents(&[1.0, 2.0], &extrapolate, &spread, &tangent);
    assert_eq!(out, vec![2101.0, 3212.0, 4323.0]);
}

#[test]
fn curve_through_three_nodes() {
    let slope = |_: usize| 0;
    let two = |a: i32, _: i32| a;
    let spread = |_: i32, _: i32, _: i32, _: i32| b64(0.0);
    let tangent = |_: i32, _: i32, _: i32, _: i32, _: Binary64| 7;
    let cubic = |i: usize, j: usize, t0: i32, t1: i32| 100 * i as i32 + 10 * j as i32 + t0 + t1;
    let out = smooth_curve(
        &[0, 10, 20], &[1, 2, 3], &[5, 10, 15, 25], &slope, &two, &spread, &tangent, &cubic,
    );
    assert_eq!(out, vec![14, 2, 134, 3]);
}

#[test]
fn gradient_takes_the_point_and_its_neighbours() {
    let edge = |y0: i32, y1: i32, x0: i32, x1: i32| vec![y0, y1, x0, x1];
    let inner = |y0: i32, y1: i32, y2: i32, x0: i32, x1: i32, x2: i32| {
        vec![y0, y1, y2, x0, x1, x2]
    };
    assert_eq!(
        gradient(&[1, 4, 9, 16], &[0, 1, 2, 4], &edge, &inner),
        vec![
            vec![1, 4, 0, 1],
            vec![1, 4, 9, 0, 1, 2],
            vec![4, 9, 16, 1, 2, 4],
            vec![9, 16, 2, 4],
        ]
    );
    assert_eq!(
        gradient(&[1, 4], &[0, 1], &edge, &inner),
        vec![vec![1, 4, 0, 1], vec![1, 4, 0, 1]]
    );
}

#[test]
fn gradient_on_uneven_points() {
    let edge = |y0: f64, y1: f64, x0: f64, x1: f64| (y1 - y0) / (x1 - x0);
    let inner = |y0: f64, y1: f64, y2: f64, x0: f64, x1: f64, x2: f64| {
        let (d1, d2) = (x1 - x0, x2 - x1);
        (d1 * d1 * y2 + (d2 * d2 - d1 * d1) * y1 - d2 * d2 * y0) / (d1 * d2 * (d1 + d2))
    };
    let slopes = gradient(&[0.0, 100.0, 100.0], &[0.0, 1.0, 3.0], &edge, &inner);
    assert_eq!(slopes, vec![100.0, 400.0 / 6.0, 0.0]);
}
