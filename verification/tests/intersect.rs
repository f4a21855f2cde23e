use intersection::intersect::{
    gallop, gallop_by, gallop_gt, gallop_gt_by, intersect, intersect_scalar_gallop,
    intersect_scalar_merge, intersect_with_overhead,
};
use intersection::intersect_multi;

#[test]
fn test_gallop() {
    let data = vec![1, 2, 3, 4];
    let key = 2_u32;
    let result = gallop_by(&data, |x: &u32| key.cmp(x));
    assert_eq!(result.to_vec(), vec![2, 3, 4]);
    let result = gallop_gt_by(&data, |x: &u32| key.cmp(x));
    assert_eq!(result.to_vec(), vec![3, 4]);

    let data = vec![1, 2, 5, 6];
    let key = 3_u32;
    let result = gallop_by(&data, |x: &u32| key.cmp(x));
    assert_eq!(result.to_vec(), vec![5, 6]);

    let data = vec![1, 1, 2, 2, 3, 3, 4, 4];
    let key = 2_u32;
    let result = gallop_by(&data, |x: &u32| key.cmp(x));
    assert_eq!(result.to_vec(), vec![2, 2, 3, 3, 4, 4]);
    let result = gallop_gt_by(&data, |x: &u32| key.cmp(x));
    assert_eq!(result.to_vec(), vec![3, 3, 4, 4]);

    let data = vec![1, 2, 3, 3, 8, 9, 10];
    let key = 4_u32;
    let result = gallop_by(&data, |x: &u32| key.cmp(x));
    assert_eq!(result.to_vec(), vec![8, 9, 10]);
}

#[test]
fn test_intersect_multi() {
    println!("running test_intersect_multi");
    let v1 = vec![0, 1, 2, 3, 5, 10, 11, 20, 30];
    let v2 = vec![1, 3, 5, 10, 11, 70];

    let data = vec![v1, v2];

    let intersection = intersect_multi(data);

    assert_eq!(intersection, vec![1, 3, 5, 10, 11]);
}

#[test]
fn test_gallop_edges() {
    // Target below everything: the whole slice comes back.
    let data: Vec<u32> = vec![3, 7, 9];
    assert_eq!(gallop(&data, &1).to_vec(), vec![3, 7, 9]);
    // Target above everything: nothing comes back.
    assert_eq!(gallop(&data, &10).to_vec(), Vec::<u32>::new());
    // Exact hit: the suffix starts at the hit; past-equal starts after it.
    assert_eq!(gallop(&data, &7).to_vec(), vec![7, 9]);
    assert_eq!(gallop_gt(&data, &7).to_vec(), vec![9]);
    // Empty input stays empty.
    let empty: Vec<u32> = Vec::new();
    assert_eq!(gallop(&empty, &5).to_vec(), Vec::<u32>::new());
    assert_eq!(gallop_gt(&empty, &5).to_vec(), Vec::<u32>::new());
}

#[test]
fn test_intersect_symmetry() {
    let a: Vec<u32> = vec![1, 3, 5, 7, 9];
    let b: Vec<u32> = vec![3, 4, 5, 6, 9, 12];
    let mut ab: Vec<u32> = Vec::new();
    let mut ba: Vec<u32> = Vec::new();
    let count_ab = intersect(&a, &b, Some(&mut ab));
    let count_ba = intersect(&b, &a, Some(&mut ba));
    assert_eq!(count_ab, count_ba);
    assert_eq!(ab, ba);
    assert_eq!(ab, vec![3, 5, 9]);
}

#[test]
fn test_intersect_self() {
    let a: Vec<u32> = vec![2, 4, 8, 16, 32];
    let mut out: Vec<u32> = Vec::new();
    let count = intersect(&a, &a, Some(&mut out));
    assert_eq!(count, a.len());
    assert_eq!(out, a);
}

#[test]
fn test_intersect_multi_permutation() {
    let v1: Vec<u32> = vec![0, 1, 2, 3, 5, 10, 11, 20, 30];
    let v2: Vec<u32> = vec![1, 3, 5, 10, 11, 70];
    let v3: Vec<u32> = vec![1, 5, 11, 40];
    let r1 = intersect_multi(vec![v1.clone(), v2.clone(), v3.clone()]);
    let r2 = intersect_multi(vec![v3.clone(), v1.clone(), v2.clone()]);
    let r3 = intersect_multi(vec![v2, v3, v1]);
    assert_eq!(r1, vec![1, 5, 11]);
    assert_eq!(r1, r2);
    assert_eq!(r1, r3);
}

#[test]
fn test_count_only_agrees_with_materializing() {
    let small: Vec<u32> = vec![4, 90];
    let large: Vec<u32> = (0..100u32).map(|x| x * 2).collect();
    // Gallop path: one side much smaller.
    let mut out: Vec<u32> = Vec::new();
    let materialized = intersect(&small, &large, Some(&mut out));
    let counted = intersect(&small, &large, None);
    assert_eq!(materialized, counted);
    assert_eq!(out.len(), counted);
    // Merge path: comparable sizes.
    let a: Vec<u32> = vec![1, 2, 3, 4, 5];
    let b: Vec<u32> = vec![2, 4, 6, 8];
    let mut out2: Vec<u32> = Vec::new();
    assert_eq!(intersect(&a, &b, Some(&mut out2)), intersect(&a, &b, None));
    assert_eq!(out2, vec![2, 4]);
}

#[test]
fn test_scalar_algorithms_agree() {
    let a: Vec<u32> = vec![1, 5, 8, 13, 21, 34];
    let b: Vec<u32> = vec![2, 5, 13, 21, 40, 55, 60, 70, 80, 90];
    let mut merged: Vec<u32> = Vec::new();
    let mut galloped: Vec<u32> = Vec::new();
    let cm = intersect_scalar_merge(&a, &b, Some(&mut merged));
    let cg = intersect_scalar_gallop(&a, &b, Some(&mut galloped));
    assert_eq!(cm, cg);
    assert_eq!(merged, galloped);
    assert_eq!(merged, vec![5, 13, 21]);
    assert_eq!(intersect_scalar_merge(&a, &b, None), 3);
    assert_eq!(intersect_scalar_gallop(&a, &b, None), 3);
}

#[test]
fn test_output_is_appended() {
    let a: Vec<u32> = vec![1, 2];
    let b: Vec<u32> = vec![2, 3];
    let mut out: Vec<u32> = vec![42];
    let count = intersect(&a, &b, Some(&mut out));
    assert_eq!(count, 1);
    assert_eq!(out, vec![42, 2]);
}

#[test]
fn test_overhead_threshold_does_not_change_result() {
    let a: Vec<u32> = vec![7, 300];
    let b: Vec<u32> = (0..1000u32).collect();
    let mut low: Vec<u32> = Vec::new();
    let mut high: Vec<u32> = Vec::new();
    let c1 = intersect_with_overhead(&a, &b, 1, Some(&mut low));
    let c2 = intersect_with_overhead(&a, &b, 1000, Some(&mut high));
    assert_eq!(c1, 2);
    assert_eq!(c1, c2);
    assert_eq!(low, high);
    assert_eq!(low, vec![7, 300]);
}

#[test]
fn test_empty_set_absorbs() {
    let a: Vec<u32> = vec![1, 2, 3];
    let empty: Vec<u32> = Vec::new();
    let mut out: Vec<u32> = Vec::new();
    assert_eq!(intersect(&a, &empty, Some(&mut out)), 0);
    assert!(out.is_empty());
    assert_eq!(intersect(&empty, &a, None), 0);
    // An empty intermediate result ends the k-way reduction with an empty set.
    let r = intersect_multi(vec![vec![1], vec![2], vec![1, 2, 3]]);
    assert!(r.is_empty());
    let r = intersect_multi(vec![a, empty, vec![1, 2, 3]]);
    assert!(r.is_empty());
}

#[test]
fn test_intersect_multi_single_set() {
    let v: Vec<u32> = vec![3, 9, 27];
    assert_eq!(intersect_multi(vec![v.clone()]), v);
}
