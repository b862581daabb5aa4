use bot7685_ext::wplace::group::{
    attach_small_groups, find_groups, merge_close_small_groups, sort_groups_by_size, split_groups, Point,
};

fn centroid(g: &[Point]) -> (f64, f64) {
    let n = g.len() as f64;
    (g.iter().map(|p| p.0 as f64).sum::<f64>() / n, g.iter().map(|p| p.1 as f64).sum::<f64>() / n)
}

fn dist(a: (f64, f64), b: (f64, f64)) -> f64 {
    ((a.0 - b.0).powi(2) + (a.1 - b.1).powi(2)).sqrt()
}

fn group_adjacent(points: Vec<Point>, min_group_size: usize, merge_distance: f64) -> Vec<Vec<Point>> {
    let groups = sort_groups_by_size(find_groups(&points), false);
    let cxy: Vec<(f64, f64)> = groups.iter().map(|g| centroid(g)).collect();
    let close: Vec<Vec<bool>> =
        cxy.iter().map(|a| cxy.iter().map(|b| dist(*a, *b) <= merge_distance).collect()).collect();
    let (groups, roots) = merge_close_small_groups(groups, min_group_size, &close);
    let (large, large_roots, small) = split_groups(groups, roots, min_group_size);
    let large_cxy: Vec<(f64, f64)> = large
        .iter()
        .zip(large_roots.iter())
        .map(|(g, r)| match r {
            Some(r) => cxy[*r],
            None => centroid(g),
        })
        .collect();
    let nearest: Vec<usize> = small
        .iter()
        .map(|g| {
            let c = centroid(g);
            (0..large.len()).min_by_key(|&j| (dist(c, large_cxy[j]) * 10000.0) as i64).unwrap()
        })
        .collect();
    attach_small_groups(large, small, &nearest)
}

#[test]
fn test_group_adjacent() {
    let points = vec![(0, 0, 1), (1, 1, 1), (2, 2, 1), (10, 10, 2), (11, 11, 2)];
    let groups = group_adjacent(points, 2, 30.0);
    assert_eq!(groups.len(), 2);
}

#[test]
fn find_groups_in_breadth_first_order() {
    let points = vec![(5, 5, 1), (0, 0, 1), (1, 1, 2), (6, 5, 3), (0, 1, 4), (1, 1, 9)];
    let groups = find_groups(&points);
    assert_eq!(groups, vec![vec![(5, 5, 1), (6, 5, 3)], vec![(0, 0, 1), (0, 1, 4), (1, 1, 9)]]);
}

#[test]
fn find_groups_of_nothing() {
    assert!(find_groups(&vec![]).is_empty());
}

#[test]
fn diagonal_neighbors_connect() {
    let points = vec![(0, 0, 1), (1, 1, 1), (2, 0, 1), (5, 0, 1)];
    let groups = find_groups(&points);
    assert_eq!(groups.len(), 2);
    assert_eq!(groups[0], vec![(0, 0, 1), (1, 1, 1), (2, 0, 1)]);
    assert_eq!(groups[1], vec![(5, 0, 1)]);
}

#[test]
fn sorting_by_size_is_stable() {
    let a = vec![(0, 0, 1)];
    let b = vec![(1, 0, 1), (2, 0, 1)];
    let c = vec![(3, 0, 1)];
    let sorted = sort_groups_by_size(vec![b.clone(), a.clone(), c.clone()], false);
    assert_eq!(sorted, vec![a.clone(), c.clone(), b.clone()]);
    let sorted = sort_groups_by_size(vec![a.clone(), b.clone(), c.clone()], true);
    assert_eq!(sorted, vec![b, a, c]);
}

#[test]
fn merging_takes_the_first_close_pair_again_and_again() {
    let g0 = vec![(0, 0, 1)];
    let g1 = vec![(5, 0, 1)];
    let g2 = vec![(9, 0, 1), (9, 1, 1)];
    let close = vec![vec![true, true, false], vec![true, true, true], vec![false, true, true]];
    let (groups, roots) = merge_close_small_groups(vec![g0, g1, g2], 2, &close);
    assert_eq!(groups, vec![vec![(0, 0, 1), (5, 0, 1)], vec![(9, 0, 1), (9, 1, 1)]]);
    assert_eq!(roots, vec![0, 2]);
    let apart = vec![vec![true, false], vec![false, true]];
    let (kept, roots) = merge_close_small_groups(groups.clone(), 3, &apart);
    assert_eq!(kept, groups);
    assert_eq!(roots, vec![0, 1]);
    let near = vec![vec![true, true], vec![true, true]];
    let (merged, roots) = merge_close_small_groups(groups, 3, &near);
    assert_eq!(merged, vec![vec![(0, 0, 1), (5, 0, 1), (9, 0, 1), (9, 1, 1)]]);
    assert_eq!(roots, vec![0]);
}

#[test]
fn split_promotes_the_first_small_group() {
    let a = vec![(0, 0, 1)];
    let b = vec![(2, 0, 1)];
    let (large, roots, small) = split_groups(vec![a.clone(), b.clone()], vec![4, 7], 2);
    assert_eq!(large, vec![a.clone()]);
    assert_eq!(roots, vec![None]);
    assert_eq!(small, vec![b.clone()]);
    let (large, roots, small) = split_groups(vec![a.clone(), b.clone()], vec![4, 7], 1);
    assert_eq!(large, vec![a, b]);
    assert_eq!(roots, vec![Some(4), Some(7)]);
    assert!(small.is_empty());
}

#[test]
fn attaching_appends_and_sorts_largest_first() {
    let l0 = vec![(0, 0, 1)];
    let l1 = vec![(9, 9, 1)];
    let s0 = vec![(8, 8, 2)];
    let s1 = vec![(7, 7, 3)];
    let r = attach_small_groups(vec![l0.clone(), l1], vec![s0, s1], &vec![1, 1]);
    assert_eq!(r, vec![vec![(9, 9, 1), (8, 8, 2), (7, 7, 3)], l0]);
}

#[test]
fn search_visits_level_by_level_in_offset_order() {
    let points = vec![(0, 0, 1), (2, 0, 2), (0, 2, 3), (1, 0, 4), (0, 1, 5)];
    let groups = find_groups(&points);
    assert_eq!(groups, vec![vec![(0, 0, 1), (0, 1, 5), (1, 0, 4), (0, 2, 3), (2, 0, 2)]]);
}

#[test]
fn clustering_keeps_every_point() {
    let points = vec![
        (0, 0, 1), (1, 0, 1), (5, 5, 2), (6, 6, 2), (7, 7, 2), (20, 0, 3), (40, 40, 4), (41, 41, 4), (0, 30, 5),
    ];
    let groups = group_adjacent(points.clone(), 3, 8.0);
    let mut out: Vec<Point> = groups.iter().flatten().copied().collect();
    let mut expected = points.clone();
    out.sort();
    expected.sort();
    assert_eq!(out, expected);
    for w in groups.windows(2) {
        assert!(w[0].len() >= w[1].len());
    }
}
