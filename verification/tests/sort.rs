use std::path::PathBuf;
use sysquery::items::FileInfo;
use sysquery::sort::{_quicksort, partition};
use sysquery::utils::quicksort;

fn files(sizes: &[u64]) -> Vec<FileInfo> {
    sizes
        .iter()
        .enumerate()
        .map(|(i, &size)| FileInfo { path: PathBuf::from(format!("f{}", i)), size })
        .collect()
}

fn sizes(files: &[FileInfo]) -> Vec<u64> {
    files.iter().map(|f| f.size).collect()
}

fn names(files: &[FileInfo]) -> Vec<String> {
    files.iter().map(|f| f.path.to_string_lossy().into_owned()).collect()
}

#[test]
fn quicksort_orders_by_descending_size() {
    let mut v = files(&[10, 3, 7, 1, 9]);
    quicksort(&mut v);
    assert_eq!(sizes(&v), vec![10, 9, 7, 3, 1]);
    assert_eq!(names(&v), vec!["f0", "f4", "f2", "f1", "f3"]);
}

#[test]
fn quicksort_leaves_an_empty_slice_alone() {
    let mut v: Vec<FileInfo> = Vec::new();
    quicksort(&mut v);
    assert!(v.is_empty());
}

#[test]
fn quicksort_leaves_a_single_item_alone() {
    let mut v = files(&[42]);
    quicksort(&mut v);
    assert_eq!(sizes(&v), vec![42]);
    assert_eq!(names(&v), vec!["f0"]);
}

#[test]
fn quicksort_sorts_two_items() {
    let mut v = files(&[1, 2]);
    quicksort(&mut v);
    assert_eq!(sizes(&v), vec![2, 1]);
    let mut w = files(&[2, 1]);
    quicksort(&mut w);
    assert_eq!(sizes(&w), vec![2, 1]);
}

#[test]
fn quicksort_changes_nothing_in_sorted_distinct_input() {
    let mut v = files(&[90, 70, 50, 30, 10]);
    quicksort(&mut v);
    assert_eq!(sizes(&v), vec![90, 70, 50, 30, 10]);
    assert_eq!(names(&v), vec!["f0", "f1", "f2", "f3", "f4"]);
}

#[test]
fn quicksort_twice_is_quicksort_once() {
    let mut v = files(&[4, 8, 15, 16, 23, 42, 8, 4]);
    quicksort(&mut v);
    let once = sizes(&v);
    quicksort(&mut v);
    assert_eq!(sizes(&v), once);
    assert_eq!(once, vec![42, 23, 16, 15, 8, 8, 4, 4]);
}

#[test]
fn quicksort_keeps_sizes_of_sorted_input_with_ties() {
    let mut v = files(&[5, 5, 3, 3, 3, 1]);
    quicksort(&mut v);
    assert_eq!(sizes(&v), vec![5, 5, 3, 3, 3, 1]);
    let mut seen = names(&v);
    seen.sort();
    assert_eq!(seen, vec!["f0", "f1", "f2", "f3", "f4", "f5"]);
}

#[test]
fn quicksort_may_exchange_tied_items() {
    let mut v = files(&[5, 5]);
    quicksort(&mut v);
    assert_eq!(sizes(&v), vec![5, 5]);
    assert_eq!(names(&v), vec!["f1", "f0"]);
}

#[test]
fn quicksort_handles_ascending_input() {
    let ascending: Vec<u64> = (1..=200).collect();
    let mut v = files(&ascending);
    quicksort(&mut v);
    let descending: Vec<u64> = (1..=200).rev().collect();
    assert_eq!(sizes(&v), descending);
}

#[test]
fn quicksort_handles_all_equal_sizes() {
    let mut v = files(&[7; 50]);
    quicksort(&mut v);
    assert_eq!(sizes(&v), vec![7; 50]);
    let mut seen = names(&v);
    seen.sort();
    seen.dedup();
    assert_eq!(seen.len(), 50);
}

#[test]
fn quicksort_of_distinct_sizes_is_strictly_descending() {
    // A fixed shuffle of 0..97: multiplication by 31 modulo the prime 97.
    let shuffled: Vec<u64> = (0..97u64).map(|i| (i * 31 + 11) % 97).collect();
    let mut v = files(&shuffled);
    quicksort(&mut v);
    let got = sizes(&v);
    assert_eq!(got.len(), 97);
    for pair in got.windows(2) {
        assert!(pair[0] > pair[1]);
    }
    assert_eq!(got[0], 96);
    assert_eq!(got[96], 0);
}

#[test]
fn quicksort_keeps_every_item() {
    let input = [3u64, 1, 4, 1, 5, 9, 2, 6, 5, 3, 5];
    let mut v = files(&input);
    quicksort(&mut v);
    let mut expected = input.to_vec();
    expected.sort();
    expected.reverse();
    assert_eq!(sizes(&v), expected);
    let mut seen = names(&v);
    seen.sort();
    let mut all: Vec<String> = (0..input.len()).map(|i| format!("f{}", i)).collect();
    all.sort();
    assert_eq!(seen, all);
}

#[test]
fn quicksort_handles_extreme_sizes() {
    let mut v = files(&[0, u64::MAX, 1, u64::MAX - 1]);
    quicksort(&mut v);
    assert_eq!(sizes(&v), vec![u64::MAX, u64::MAX - 1, 1, 0]);
}

#[test]
fn partition_puts_the_pivot_between_larger_and_smaller() {
    let mut v = files(&[3, 8, 5, 9, 6]);
    let p = partition(&mut v, 0, 5);
    assert_eq!(p, 2);
    assert_eq!(sizes(&v), vec![9, 8, 6, 3, 5]);
}

#[test]
fn partition_of_one_item_returns_its_position() {
    let mut v = files(&[3, 8, 5]);
    let p = partition(&mut v, 1, 2);
    assert_eq!(p, 1);
    assert_eq!(sizes(&v), vec![3, 8, 5]);
}

#[test]
fn partition_with_the_largest_as_pivot_moves_it_to_the_front() {
    let mut v = files(&[1, 2, 3, 9]);
    let p = partition(&mut v, 0, 4);
    assert_eq!(p, 0);
    assert_eq!(v[0].size, 9);
    let mut rest = sizes(&v[1..]);
    rest.sort();
    assert_eq!(rest, vec![1, 2, 3]);
}

#[test]
fn partition_with_the_smallest_as_pivot_leaves_it_at_the_end() {
    let mut v = files(&[7, 6, 5, 1]);
    let p = partition(&mut v, 0, 4);
    assert_eq!(p, 3);
    assert_eq!(sizes(&v), vec![7, 6, 5, 1]);
}

#[test]
fn partition_touches_only_its_range() {
    let mut v = files(&[1, 4, 2, 6, 3, 100]);
    let p = partition(&mut v, 1, 5);
    assert!(1 <= p && p < 5);
    assert_eq!(v[0].size, 1);
    assert_eq!(v[5].size, 100);
    assert_eq!(v[p].size, 3);
    for k in 1..p {
        assert!(v[k].size >= 3);
    }
    for k in p + 1..5 {
        assert!(v[k].size <= 3);
    }
}

#[test]
fn partition_of_tied_items_keeps_them_all() {
    let mut v = files(&[5, 5, 5, 5]);
    let p = partition(&mut v, 0, 4);
    assert!(p < 4);
    assert_eq!(sizes(&v), vec![5, 5, 5, 5]);
}

#[test]
fn inner_quicksort_sorts_only_its_range() {
    let mut v = files(&[1, 4, 2, 6, 3, 100]);
    _quicksort(&mut v, 1, 5);
    assert_eq!(sizes(&v), vec![1, 6, 4, 3, 2, 100]);
}

#[test]
fn inner_quicksort_of_an_empty_range_changes_nothing() {
    let mut v = files(&[1, 2, 3]);
    _quicksort(&mut v, 2, 2);
    assert_eq!(sizes(&v), vec![1, 2, 3]);
    _quicksort(&mut v, 3, 3);
    assert_eq!(sizes(&v), vec![1, 2, 3]);
}

// The same scan written with signed indices that start one position outside
// the range, over (size, label) pairs.
fn signed_partition(arr: &mut [(u64, usize)], low: isize, high: isize) -> isize {
    let pivot = high as usize;
    let mut i = low - 1;
    let mut j = high;
    loop {
        i += 1;
        while arr[i as usize].0 > arr[pivot].0 {
            i += 1;
        }
        j -= 1;
        while j >= 0 && arr[j as usize].0 < arr[pivot].0 {
            j -= 1;
        }
        if i >= j {
            break;
        }
        arr.swap(i as usize, j as usize);
    }
    arr.swap(i as usize, pivot);
    i
}

fn signed_quicksort(arr: &mut [(u64, usize)], low: isize, high: isize) {
    if low < high {
        let p = signed_partition(arr, low, high);
        signed_quicksort(arr, low, p - 1);
        signed_quicksort(arr, p + 1, high);
    }
}

#[test]
fn quicksort_arranges_ties_as_the_signed_index_scan_does() {
    let mut seed = 0x2545_f491_4f6c_dd1d_u64;
    for round in 0..200usize {
        let len = round % 23;
        let mut input = Vec::new();
        for _ in 0..len {
            seed ^= seed << 13;
            seed ^= seed >> 7;
            seed ^= seed << 17;
            input.push(seed % 6);
        }
        let mut expected: Vec<(u64, usize)> =
            input.iter().enumerate().map(|(i, &s)| (s, i)).collect();
        if len > 0 {
            signed_quicksort(&mut expected, 0, len as isize - 1);
        }
        let mut v = files(&input);
        quicksort(&mut v);
        let got: Vec<(u64, String)> =
            v.iter().map(|f| (f.size, f.path.to_string_lossy().into_owned())).collect();
        let want: Vec<(u64, String)> =
            expected.iter().map(|&(s, i)| (s, format!("f{}", i))).collect();
        assert_eq!(got, want);
    }
}
