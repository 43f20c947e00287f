use rocktier_ocr::components::connected_components;
use rocktier_ocr::grid::dilate2x2;
use rocktier_ocr::order::sort_boxes;

fn mask_from(rows: &[&str]) -> (Vec<bool>, usize, usize) {
    let h = rows.len();
    let w = rows[0].len();
    let mut m = Vec::new();
    for r in rows {
        for c in r.chars() {
            m.push(c == '#');
        }
    }
    (m, w, h)
}

#[test]
fn dilate_spreads_up_and_left_only() {
    let (m, w, h) = mask_from(&["....", ".#..", "...."]);
    let out = dilate2x2(&m, w, h);
    let expect = mask_from(&["##..", "##..", "...."]).0;
    assert_eq!(out, expect);
}

#[test]
fn dilate_keeps_every_set_pixel() {
    let (m, w, h) = mask_from(&["#..#", ".#..", "..##"]);
    let out = dilate2x2(&m, w, h);
    for i in 0..m.len() {
        if m[i] {
            assert!(out[i]);
        }
    }
    assert_eq!(out.len(), w * h);
}

#[test]
fn dilate_empty_raster() {
    let out = dilate2x2(&[], 0, 0);
    assert!(out.is_empty());
}

fn sorted(mut v: Vec<(i64, i64)>) -> Vec<(i64, i64)> {
    v.sort();
    v
}

#[test]
fn components_split_by_gaps_and_join_diagonally() {
    let (m, w, h) = mask_from(&["##...#", ".#...#", "..#...", "......", "###..#"]);
    let comps = connected_components(&m, w, h);
    assert_eq!(comps.len(), 4);
    assert_eq!(sorted(comps[0].clone()), vec![(0, 0), (1, 0), (1, 1), (2, 2)]);
    assert_eq!(sorted(comps[1].clone()), vec![(5, 0), (5, 1)]);
    assert_eq!(sorted(comps[2].clone()), vec![(0, 4), (1, 4), (2, 4)]);
    assert_eq!(comps[3], vec![(5, 4)]);
    for c in &comps {
        assert!(!c.is_empty());
    }
    assert_eq!(comps[0][0], (0, 0));
    assert_eq!(comps[1][0], (5, 0));
}

#[test]
fn components_of_empty_mask() {
    let (m, w, h) = mask_from(&["....", "...."]);
    assert!(connected_components(&m, w, h).is_empty());
}

#[test]
fn components_keep_a_ring_whole() {
    let (m, w, h) = mask_from(&["###", "#.#", "###"]);
    let comps = connected_components(&m, w, h);
    assert_eq!(comps.len(), 1);
    assert_eq!(comps[0].len(), 8);
    assert_eq!(comps[0][0], (0, 0));
}

#[test]
fn components_partition_every_foreground_pixel_once() {
    let (m, w, h) = mask_from(&["#.#.#", ".#.#.", "#...#", "..#..", "##.##"]);
    let comps = connected_components(&m, w, h);
    let mut seen = vec![0u32; w * h];
    for c in &comps {
        for &(x, y) in c {
            seen[y as usize * w + x as usize] += 1;
        }
    }
    for i in 0..w * h {
        assert_eq!(seen[i], if m[i] { 1 } else { 0 });
    }
}

fn reference_sort(boxes: &mut Vec<([(i32, i32); 4], u32)>) {
    boxes.sort_by(|a, b| {
        let ka = (a.0[0].1, a.0[0].0);
        let kb = (b.0[0].1, b.0[0].0);
        ka.cmp(&kb)
    });
    let n = boxes.len();
    for i in 0..n.saturating_sub(1) {
        for j in (0..=i).rev() {
            let top_gap = (boxes[j + 1].0[0].1 - boxes[j].0[0].1).abs();
            if top_gap < 10 && boxes[j + 1].0[0].0 < boxes[j].0[0].0 {
                boxes.swap(j, j + 1);
            }
        }
    }
}

fn quad(x: i32, y: i32) -> [(i32, i32); 4] {
    [(x, y), (x + 10, y), (x + 10, y + 5), (x, y + 5)]
}

#[test]
fn sort_boxes_reads_rows_left_to_right() {
    let mut boxes = vec![(quad(50, 12), 0u32), (quad(10, 15), 1), (quad(0, 100), 2), (quad(30, 8), 3)];
    sort_boxes(&mut boxes);
    let order: Vec<u32> = boxes.iter().map(|b| b.1).collect();
    assert_eq!(order, vec![1, 3, 0, 2]);
}

#[test]
fn sort_boxes_matches_reference_and_permutes() {
    let mut seed: u64 = 7;
    for round in 0..50 {
        let n = round % 9;
        let mut boxes = Vec::new();
        for k in 0..n {
            seed = seed.wrapping_mul(6364136223846793005).wrapping_add(1442695040888963407);
            let x = ((seed >> 33) % 60) as i32;
            let y = ((seed >> 45) % 40) as i32;
            boxes.push((quad(x, y), k as u32));
        }
        let mut expect = boxes.clone();
        reference_sort(&mut expect);
        let mut got = boxes.clone();
        sort_boxes(&mut got);
        assert_eq!(got, expect);
        let mut ids: Vec<u32> = got.iter().map(|b| b.1).collect();
        ids.sort();
        assert_eq!(ids, (0..n as u32).collect::<Vec<_>>());
    }
}

#[test]
fn dilate_is_monotone() {
    let (small, w, h) = mask_from(&["....", ".#..", "...#"]);
    let (large, _, _) = mask_from(&["#...", ".#..", "..##"]);
    let a = dilate2x2(&small, w, h);
    let b = dilate2x2(&large, w, h);
    for i in 0..a.len() {
        if a[i] {
            assert!(b[i]);
        }
    }
}

#[test]
fn components_of_a_raster_with_no_rows() {
    assert!(connected_components(&[], usize::MAX, 0).is_empty());
    assert!(connected_components(&[true, true], 0, 7).is_empty());
}

#[test]
fn sort_boxes_of_separate_rows_is_top_to_bottom() {
    let mut boxes = vec![(quad(50, 40), 0u32), (quad(5, 0), 1), (quad(90, 20), 2), (quad(1, 60), 3)];
    sort_boxes(&mut boxes);
    let order: Vec<u32> = boxes.iter().map(|b| b.1).collect();
    assert_eq!(order, vec![1, 2, 0, 3]);
}
