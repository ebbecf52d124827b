use mandelbrot_field::field_map::FieldMap;
use num::Complex;

fn viewport(
    upper_left: Complex<f64>,
    lower_right: Complex<f64>,
    re_resolution: usize,
    im_resolution: usize,
) -> FieldMap<f64> {
    let re_delta = (lower_right.re - upper_left.re) / re_resolution as f64;
    let im_delta = (upper_left.im - lower_right.im) / im_resolution as f64;
    FieldMap::new(
        re_resolution,
        im_resolution,
        move |x: usize| upper_left.re + x as f64 * re_delta,
        move |y: usize| upper_left.im - y as f64 * im_delta,
    )
}

fn mandelbrot(c: Complex<f64>, max_iters: usize) -> u8 {
    FieldMap::escape_time(
        c,
        max_iters,
        Complex::new(0.0, 0.0),
        |z: Complex<f64>| z.norm_sqr() > 4.0,
        |z: Complex<f64>, c: Complex<f64>| z * z + c,
    )
}

#[test]
fn small_viewport_tables_and_points() {
    let m = viewport(Complex::new(-2.0, 1.0), Complex::new(1.0, -1.0), 3, 2);
    assert_eq!(m.precomputed_re, vec![-2.0, -1.0, 0.0]);
    assert_eq!(m.precomputed_im, vec![1.0, 0.0]);
    assert_eq!(m.get_point(0), Complex::new(-2.0, 1.0));
    assert_eq!(m.get_point(4), Complex::new(-1.0, 0.0));
    assert_eq!(m.get_limit(), 6);
}

#[test]
fn limit_is_product_of_resolutions() {
    let m = viewport(Complex::new(-2.0, 1.5), Complex::new(1.0, -1.5), 7, 5);
    assert_eq!(m.get_limit(), 35);
    let one = viewport(Complex::new(0.0, 0.0), Complex::new(1.0, -1.0), 1, 1);
    assert_eq!(one.get_limit(), 1);
}

#[test]
fn points_decompose_row_major() {
    let m = viewport(Complex::new(-2.0, 1.5), Complex::new(1.0, -1.5), 7, 5);
    for i in 0..m.get_limit() {
        let p = m.get_point(i);
        assert_eq!(p.re, m.precomputed_re[i % 7]);
        assert_eq!(p.im, m.precomputed_im[i / 7]);
    }
    assert_eq!(m.get_point(34), Complex::new(m.precomputed_re[6], m.precomputed_im[4]));
}

#[test]
fn samples_are_monotone() {
    let m = viewport(Complex::new(-2.5, 1.25), Complex::new(1.5, -1.25), 40, 30);
    for w in m.precomputed_re.windows(2) {
        assert!(w[0] < w[1]);
    }
    for w in m.precomputed_im.windows(2) {
        assert!(w[0] > w[1]);
    }
    let flat = viewport(Complex::new(0.5, 1.0), Complex::new(0.5, 1.0), 4, 3);
    assert!(flat.precomputed_re.iter().all(|&x| x == 0.5));
    assert!(flat.precomputed_im.iter().all(|&y| y == 1.0));
}

#[test]
fn repeated_lookup_is_bit_identical() {
    let m = viewport(Complex::new(-2.0, 1.0), Complex::new(1.0, -1.0), 300, 200);
    for i in [0usize, 1, 299, 300, 12345, 59999] {
        let a = m.get_point(i);
        let b = m.get_point(i);
        assert_eq!(a.re.to_bits(), b.re.to_bits());
        assert_eq!(a.im.to_bits(), b.im.to_bits());
    }
}

#[test]
fn generic_samples() {
    let m = FieldMap::new(3, 2, |x: usize| x as u64 + 1, |y: usize| 10 * y as u64);
    assert_eq!(m.get_point(4), Complex::new(2u64, 10u64));
    assert_eq!(m.get_point(5), Complex::new(3u64, 10u64));
}

#[test]
fn origin_never_escapes() {
    assert_eq!(mandelbrot(Complex::new(0.0, 0.0), 50), 0);
    assert_eq!(mandelbrot(Complex::new(0.0, 0.0), 1000), 0);
}

#[test]
fn interior_points_never_escape() {
    assert_eq!(mandelbrot(Complex::new(-1.0, 0.0), 1000), 0);
    assert_eq!(mandelbrot(Complex::new(-0.1, 0.1), 1000), 0);
    assert_eq!(mandelbrot(Complex::new(0.25, 0.0), 1000), 0);
}

#[test]
fn far_point_escapes_after_first_step() {
    // the origin is tested first; c itself is tested on iteration one
    assert_eq!(mandelbrot(Complex::new(2.0, 2.0), 10), 9);
    assert_eq!(mandelbrot(Complex::new(3.0, 0.0), 1000), ((1000 - 1) & 0xff) as u8);
    assert_eq!(mandelbrot(Complex::new(3.0, 0.0), 1000), 231);
    assert_eq!(mandelbrot(Complex::new(3.0, 0.0), 2), 1);
}

#[test]
fn escape_byte_wraps() {
    assert_eq!(mandelbrot(Complex::new(3.0, 0.0), 300), 43);
    assert_eq!(mandelbrot(Complex::new(3.0, 0.0), 257), 0);
    assert_eq!(mandelbrot(Complex::new(3.0, 0.0), 258), 1);
}

#[test]
fn later_escape_gives_smaller_byte() {
    // 1 -> 2 -> 5: the orbit of c = 1 leaves the radius on iteration three
    assert_eq!(mandelbrot(Complex::new(1.0, 0.0), 10), 7);
}

#[test]
fn zero_or_one_iteration_reports_zero() {
    assert_eq!(mandelbrot(Complex::new(3.0, 0.0), 0), 0);
    assert_eq!(mandelbrot(Complex::new(3.0, 0.0), 1), 0);
}

#[test]
fn diverged_origin_escapes_on_iteration_zero() {
    let r = FieldMap::escape_time(
        Complex::new(0.0, 0.0),
        10,
        Complex::new(5.0, 0.0),
        |z: Complex<f64>| z.norm_sqr() > 4.0,
        |z: Complex<f64>, c: Complex<f64>| z * z + c,
    );
    assert_eq!(r, 10);
}
