use aitios::bins::{bin_idx_by_area, TriangleBins};

fn example() -> TriangleBins<u32> {
    TriangleBins::new(vec![(0, 100), (1, 50), (2, 30), (3, 0), (4, 1)], 4)
}

#[test]
fn bin_index_halves_per_bin() {
    assert_eq!(bin_idx_by_area(100, 100), 0);
    assert_eq!(bin_idx_by_area(100, 51), 0);
    assert_eq!(bin_idx_by_area(100, 50), 1);
    assert_eq!(bin_idx_by_area(100, 26), 1);
    assert_eq!(bin_idx_by_area(100, 25), 2);
    assert_eq!(bin_idx_by_area(100, 1), 6);
    assert_eq!(bin_idx_by_area(u64::MAX, 1), 63);
}

#[test]
fn new_bins_by_area_and_drops_empty_and_tiny() {
    let bins = example();
    assert_eq!(bins.bin_count(), 4);
    assert_eq!(bins.triangle_count(), 3);
    assert_eq!(bins.area_units(), 180);
}

#[test]
fn pick_bin_by_share_of_area() {
    let bins = example();
    assert_eq!(bins.pick_bin(0), 0);
    assert_eq!(bins.pick_bin(99), 0);
    assert_eq!(bins.pick_bin(100), 1);
    assert_eq!(bins.pick_bin(179), 1);
}

#[test]
fn pick_in_bin_by_share_of_area() {
    let bins = example();
    assert_eq!(bins.pick_in_bin(1, 0), 0);
    assert_eq!(bins.pick_in_bin(1, 49), 0);
    assert_eq!(bins.pick_in_bin(1, 50), 1);
    assert_eq!(bins.pick_in_bin(1, 79), 1);
}

#[test]
fn push_adds_to_its_bin() {
    let mut bins = example();
    bins.push(9, 25);
    assert_eq!(bins.triangle_count(), 4);
    assert_eq!(bins.area_units(), 205);
    assert_eq!(bins.pick_bin(180), 2);
    bins.push(10, 1);
    assert_eq!(bins.triangle_count(), 4);
    assert_eq!(bins.area_units(), 205);
}

#[test]
fn sampling_removes_every_triangle_once() {
    let mut bins = example();
    let mut seen = Vec::new();
    while bins.area_units() > 0 {
        let before = bins.triangle_count();
        seen.push(bins.sample_triangle());
        assert_eq!(bins.triangle_count(), before - 1);
    }
    seen.sort();
    assert_eq!(seen, vec![0, 1, 2]);
    assert_eq!(bins.triangle_count(), 0);
}

#[test]
fn sampling_without_removal_keeps_the_bins() {
    let bins = example();
    for _ in 0..50 {
        let t = *bins.sample();
        assert!(t == 0 || t == 1 || t == 2);
    }
    assert_eq!(bins.triangle_count(), 3);
    assert_eq!(bins.area_units(), 180);
}

#[test]
fn larger_triangles_are_sampled_more_often() {
    let mut big = 0;
    for _ in 0..2000 {
        let bins = TriangleBins::new(vec![(0u32, 90), (1u32, 10)], 8);
        if *bins.sample() == 0 {
            big += 1;
        }
    }
    assert!(big > 1600, "big triangle sampled {} times out of 2000", big);
}

#[test]
fn rejection_accepts_below_the_entry_area() {
    let bins = example();
    // bin 1 holds (1, 50) and (2, 30) with bound 50
    assert!(bins.accepts(1, 0, 49));
    assert!(!bins.accepts(1, 0, 50));
    assert!(bins.accepts(1, 1, 29));
    assert!(!bins.accepts(1, 1, 30));
}

#[test]
fn push_drops_entries_without_area() {
    let mut bins = example();
    bins.push(7, 0);
    assert_eq!(bins.triangle_count(), 3);
    assert_eq!(bins.area_units(), 180);
}
