use rocktier_ocr::frame::letterbox_padding;
use rocktier_ocr::hull::convex_hull;

fn cross(o: (i64, i64), a: (i64, i64), b: (i64, i64)) -> i128 {
    let ax = (a.0 - o.0) as i128;
    let ay = (a.1 - o.1) as i128;
    let bx = (b.0 - o.0) as i128;
    let by = (b.1 - o.1) as i128;
    ax * by - ay * bx
}

#[test]
fn hull_of_square_drops_inner_and_edge_points() {
    let pts = vec![(0, 0), (2, 0), (2, 2), (0, 2), (1, 1), (1, 0), (0, 1), (2, 2)];
    let h = convex_hull(&pts);
    assert_eq!(h, vec![(0, 0), (2, 0), (2, 2), (0, 2)]);
}

#[test]
fn hull_of_pixel_blob() {
    let pts = vec![(3, 1), (4, 1), (2, 2), (3, 2), (4, 2), (5, 2), (3, 3), (4, 3)];
    let h = convex_hull(&pts);
    assert_eq!(h, vec![(2, 2), (3, 1), (4, 1), (5, 2), (4, 3), (3, 3)]);
}

#[test]
fn hull_of_collinear_points_is_its_two_ends() {
    let pts = vec![(4, 4), (0, 0), (2, 2), (1, 1), (3, 3)];
    assert_eq!(convex_hull(&pts), vec![(0, 0), (4, 4)]);
    let vertical = vec![(5, 3), (5, 1), (5, 2)];
    assert_eq!(convex_hull(&vertical), vec![(5, 1), (5, 3)]);
}

#[test]
fn hull_of_few_points_is_them_sorted_without_repeats() {
    assert_eq!(convex_hull(&vec![]), Vec::<(i64, i64)>::new());
    assert_eq!(convex_hull(&vec![(7, 7), (7, 7), (7, 7)]), vec![(7, 7)]);
    assert_eq!(convex_hull(&vec![(9, 1), (2, 5), (9, 1)]), vec![(2, 5), (9, 1)]);
}

#[test]
fn hull_of_triangle_with_negative_coordinates() {
    let pts = vec![(0, 5), (-3, -2), (4, -1), (0, 0), (1, 1)];
    let h = convex_hull(&pts);
    assert_eq!(h, vec![(-3, -2), (4, -1), (0, 5)]);
}

#[test]
fn hull_keeps_every_point_inside_and_turns_left() {
    let mut pts = Vec::new();
    let mut seed: i64 = 12345;
    for _ in 0..200 {
        seed = (seed * 1103515245 + 12345) % 2147483648;
        let x = seed % 61 - 30;
        seed = (seed * 1103515245 + 12345) % 2147483648;
        let y = seed % 41 - 20;
        pts.push((x, y));
    }
    let h = convex_hull(&pts);
    let n = h.len();
    assert!(n >= 3);
    for i in 0..n {
        let a = h[i];
        let b = h[(i + 1) % n];
        let c = h[(i + 2) % n];
        assert!(cross(a, b, c) > 0);
        for &p in &pts {
            assert!(cross(a, b, p) >= 0);
        }
        assert!(pts.contains(&a));
        for j in (i + 1)..n {
            assert_ne!(h[i], h[j]);
        }
    }
    let min = *pts.iter().min().unwrap();
    assert_eq!(h[0], min);
}

#[test]
fn hull_is_exact_at_the_ends_of_i64() {
    let (lo, hi) = (i64::MIN, i64::MAX);
    let pts = vec![(lo, lo), (hi, lo), (hi, hi), (lo, hi), (0, 0), (hi, 0), (hi - 1, hi)];
    assert_eq!(convex_hull(&pts), vec![(lo, lo), (hi, lo), (hi, hi), (lo, hi)]);
    // Nearly collinear far out: one unit off the diagonal still turns.
    let thin = vec![(lo, lo), (hi, hi), (hi - 1, hi)];
    assert_eq!(convex_hull(&thin), vec![(lo, lo), (hi, hi), (hi - 1, hi)]);
}

#[test]
fn letterbox_pads_short_and_wide_frames_only() {
    // An ordinary page: no padding.
    assert_eq!(letterbox_padding(800, 600, 8, 30), 0);
    // Exactly eight times as wide is not wider: no padding.
    assert_eq!(letterbox_padding(800, 100, 8, 30), 0);
    // A wide strip: padded towards twice w / 8.
    assert_eq!(letterbox_padding(1600, 100, 8, 30), 150);
    // A short frame: padded towards twice the minimum height.
    assert_eq!(letterbox_padding(100, 20, 8, 30), 20);
    // At the minimum height itself the rule still applies.
    assert_eq!(letterbox_padding(100, 30, 8, 30), 15);
    // Odd differences round down.
    assert_eq!(letterbox_padding(100, 21, 8, 30), 19);
}
