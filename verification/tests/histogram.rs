use fractal_flame::histogram::{can_merge_counts, merge_counts, Histogram};

fn all_counts(h: &Histogram) -> Vec<Vec<u64>> {
    let mut rows = Vec::new();
    for y in 0..h.height() {
        let mut row = Vec::new();
        for x in 0..h.width() {
            row.push(*h.get(x, y));
        }
        rows.push(row);
    }
    rows
}

#[test]
fn new_histogram_has_its_size_and_zero_counts() {
    let h = Histogram::new(4, 3);
    assert_eq!(h.width(), 4);
    assert_eq!(h.height(), 3);
    assert_eq!(h.count_max(), 0);
    assert_eq!(all_counts(&h), vec![vec![0; 4]; 3]);
}

#[test]
fn new_histogram_with_no_columns() {
    let h = Histogram::new(0, 3);
    assert_eq!(h.width(), 0);
    assert_eq!(h.height(), 3);
}

#[test]
fn write_then_read_gives_the_written_count() {
    let mut h = Histogram::new(5, 2);
    *h.get_mut(4, 1) = 7;
    assert_eq!(*h.get(4, 1), 7);
    // Every other cell keeps its count.
    let mut expected = vec![vec![0u64; 5]; 2];
    expected[1][4] = 7;
    assert_eq!(all_counts(&h), expected);
}

#[test]
fn get_mut_gives_the_current_count() {
    let mut h = Histogram::new(3, 3);
    *h.get_mut(1, 2) = 41;
    let cell = h.get_mut(1, 2);
    assert_eq!(*cell, 41);
    *cell += 1;
    assert_eq!(*h.get(1, 2), 42);
    assert_eq!(*h.get(2, 1), 0);
}

#[test]
fn x_is_the_column_and_y_the_row() {
    let mut h = Histogram::new(3, 2);
    *h.get_mut(2, 0) = 5;
    assert_eq!(*h.get(2, 0), 5);
    assert_eq!(*h.get(0, 1), 0);
    assert_eq!(all_counts(&h), vec![vec![0, 0, 5], vec![0, 0, 0]]);
}

#[test]
fn count_max_mut_writes_the_maximum_only() {
    let mut h = Histogram::new(2, 2);
    *h.get_mut(0, 0) = 3;
    *h.count_max_mut() = 9;
    assert_eq!(h.count_max(), 9);
    assert_eq!(*h.get(0, 0), 3);
}

#[test]
fn clear_resets_counts_and_maximum() {
    let mut h = Histogram::new(3, 2);
    *h.get_mut(0, 0) = 1;
    *h.get_mut(2, 1) = 8;
    *h.count_max_mut() = 8;
    h.clear();
    assert_eq!(h.width(), 3);
    assert_eq!(h.height(), 2);
    assert_eq!(h.count_max(), 0);
    assert_eq!(all_counts(&h), vec![vec![0; 3]; 2]);
}

#[test]
fn merge_sums_the_counts_of_every_part() {
    let mut a = Histogram::new(2, 2);
    *a.get_mut(0, 0) = 1;
    *a.get_mut(1, 1) = 4;
    let mut b = Histogram::new(2, 2);
    *b.get_mut(0, 0) = 2;
    *b.get_mut(1, 0) = 5;
    let mut main = Histogram::new(2, 2);
    *main.get_mut(0, 1) = 100;
    *main.count_max_mut() = 6;
    merge_counts(&mut main, &[&a, &b]);
    assert_eq!(all_counts(&main), vec![vec![3, 5], vec![0, 4]]);
    assert_eq!(main.count_max(), 6);
}

#[test]
fn merge_does_not_depend_on_the_order_of_parts() {
    let mut a = Histogram::new(3, 1);
    *a.get_mut(0, 0) = 10;
    *a.get_mut(2, 0) = 1;
    let mut b = Histogram::new(3, 1);
    *b.get_mut(0, 0) = 7;
    *b.get_mut(1, 0) = 2;
    let mut ab = Histogram::new(3, 1);
    merge_counts(&mut ab, &[&a, &b]);
    let mut ba = Histogram::new(3, 1);
    merge_counts(&mut ba, &[&b, &a]);
    assert_eq!(all_counts(&ab), all_counts(&ba));
    assert_eq!(all_counts(&ab), vec![vec![17, 2, 1]]);
}

#[test]
fn merge_of_a_single_part_copies_it() {
    let mut a = Histogram::new(2, 3);
    *a.get_mut(1, 2) = 9;
    *a.get_mut(0, 1) = 3;
    let mut main = Histogram::new(2, 3);
    merge_counts(&mut main, &[&a]);
    assert_eq!(all_counts(&main), all_counts(&a));
}

#[test]
fn merge_of_no_part_gives_zero_counts() {
    let mut main = Histogram::new(2, 2);
    *main.get_mut(1, 1) = 12;
    merge_counts(&mut main, &[]);
    assert_eq!(all_counts(&main), vec![vec![0; 2]; 2]);
}

#[test]
fn merge_reads_only_the_cells_of_the_main_histogram() {
    let mut big = Histogram::new(4, 4);
    *big.get_mut(1, 1) = 6;
    *big.get_mut(3, 3) = 50;
    let mut main = Histogram::new(2, 2);
    merge_counts(&mut main, &[&big]);
    assert_eq!(all_counts(&main), vec![vec![0, 0], vec![0, 6]]);
}

#[test]
fn merge_keeps_the_total_number_of_hits() {
    let mut a = Histogram::new(3, 2);
    *a.get_mut(0, 0) = 4;
    *a.get_mut(2, 1) = 6;
    let mut b = Histogram::new(3, 2);
    *b.get_mut(0, 0) = 1;
    *b.get_mut(1, 0) = 9;
    let mut c = Histogram::new(3, 2);
    *c.get_mut(2, 1) = 2;
    let mut main = Histogram::new(3, 2);
    merge_counts(&mut main, &[&a, &b, &c]);
    let total = |h: &Histogram| all_counts(h).iter().flatten().sum::<u64>();
    assert_eq!(total(&main), total(&a) + total(&b) + total(&c));
    assert_eq!(total(&main), 22);
}

#[test]
fn record_hit_adds_one_to_its_cell_only() {
    let mut h = Histogram::new(2, 2);
    h.record_hit(1, 0);
    h.record_hit(1, 0);
    h.record_hit(0, 1);
    assert_eq!(all_counts(&h), vec![vec![0, 2], vec![1, 0]]);
}

#[test]
fn hits_accumulate_and_merge_counts_them_all() {
    let mut a = Histogram::new(2, 2);
    let mut b = Histogram::new(2, 2);
    let hits_a = [(0usize, 0usize), (1, 1), (0, 0)];
    let hits_b = [(1usize, 1usize)];
    for &(x, y) in &hits_a {
        a.record_hit(x, y);
    }
    for &(x, y) in &hits_b {
        b.record_hit(x, y);
    }
    let mut main = Histogram::new(2, 2);
    merge_counts(&mut main, &[&a, &b]);
    assert_eq!(all_counts(&main), vec![vec![2, 0], vec![0, 2]]);
    let total: u64 = all_counts(&main).iter().flatten().sum();
    assert_eq!(total as usize, hits_a.len() + hits_b.len());
}

#[test]
fn fits_accepts_ordinary_sizes() {
    assert!(Histogram::fits(720, 720));
    assert!(Histogram::fits(0, 0));
    assert!(Histogram::fits(0, usize::MAX / 2));
}

#[test]
fn fits_refuses_oversized_shapes() {
    assert!(!Histogram::fits(usize::MAX, 2));
    assert!(!Histogram::fits(1 << 40, 1 << 30));
    // Nonzero lengths alone overflow, even though the product is zero.
    assert!(!Histogram::fits(usize::MAX, 0));
    // Fits as a shape, but not as a buffer of 8-byte counts.
    assert!(!Histogram::fits(isize::MAX as usize / 4, 1));
}

#[test]
fn can_merge_counts_accepts_equal_sizes() {
    let a = Histogram::new(2, 2);
    let b = Histogram::new(2, 2);
    let main = Histogram::new(2, 2);
    assert!(can_merge_counts(&main, &[&a, &b]));
    assert!(can_merge_counts(&main, &[]));
}

#[test]
fn can_merge_counts_refuses_a_smaller_part() {
    let small = Histogram::new(1, 2);
    let main = Histogram::new(2, 2);
    assert!(!can_merge_counts(&main, &[&small]));
    let empty_main = Histogram::new(0, 2);
    assert!(can_merge_counts(&empty_main, &[&small]));
}

#[test]
fn can_merge_counts_refuses_an_overflowing_sum() {
    let mut a = Histogram::new(2, 1);
    let mut b = Histogram::new(2, 1);
    *a.get_mut(1, 0) = u64::MAX;
    *b.get_mut(1, 0) = 1;
    let main = Histogram::new(2, 1);
    assert!(!can_merge_counts(&main, &[&a, &b]));
    *b.get_mut(1, 0) = 0;
    assert!(can_merge_counts(&main, &[&a, &b]));
}

#[test]
fn clone_copies_size_counts_and_maximum() {
    let mut h = Histogram::new(3, 2);
    *h.get_mut(2, 1) = 4;
    *h.count_max_mut() = 4;
    let copy = h.clone();
    *h.get_mut(2, 1) = 9;
    assert_eq!(copy.width(), 3);
    assert_eq!(copy.height(), 2);
    assert_eq!(copy.count_max(), 4);
    assert_eq!(*copy.get(2, 1), 4);
    assert_eq!(*h.get(2, 1), 9);
}
