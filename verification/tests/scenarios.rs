use sorts_rs::basic::binary_insert_sort;
use sorts_rs::basic::bubble_sort;
use sorts_rs::basic::cocktail_sort;
use sorts_rs::basic::insert_sort;
use sorts_rs::basic::select_doubled_sort;
use sorts_rs::basic::select_sort;
use sorts_rs::normal::comb_sort;
use sorts_rs::normal::heap_sort;
use sorts_rs::normal::merge;
use sorts_rs::normal::merge_sort;
use sorts_rs::normal::merge_sort_with_buf;
use sorts_rs::normal::quick_sort;
use sorts_rs::normal::sedgewick_expr;
use sorts_rs::normal::sedgewick_sort;
use sorts_rs::normal::shell_sort;
use sorts_rs::other::bin_exp_check;
use sorts_rs::other::bitonic_merge;
use sorts_rs::other::bitonic_sort;
use sorts_rs::other::count_sort;
use sorts_rs::other::count_sort_with_buf;
use sorts_rs::other::radix_sort;
use sorts_rs::other::radix_sort_with_buf;
use sorts_rs::order::KeyVal;

const SORTS: [fn(&mut Vec<i32>); 12] = [
    bubble_sort,
    cocktail_sort,
    insert_sort,
    binary_insert_sort,
    select_sort,
    select_doubled_sort,
    comb_sort,
    shell_sort,
    sedgewick_sort,
    quick_sort,
    merge_sort,
    heap_sort,
];

#[test]
fn ascending_scenario_every_comparison_sort() {
    for sort in SORTS {
        let mut arr = vec![0, 3, 1, 5, 2, 9, 6, 4];
        sort(&mut arr);
        assert_eq!(arr, [0, 1, 2, 3, 4, 5, 6, 9]);
    }
    let mut arr: Vec<i32> = vec![0, 3, 1, 5, 2, 9, 6, 4];
    bitonic_sort(&mut arr);
    assert_eq!(arr, [0, 1, 2, 3, 4, 5, 6, 9]);
    let mut arr: Vec<usize> = vec![0, 3, 1, 5, 2, 9, 6, 4];
    count_sort(&mut arr);
    assert_eq!(arr, [0, 1, 2, 3, 4, 5, 6, 9]);
    let mut arr: Vec<usize> = vec![0, 3, 1, 5, 2, 9, 6, 4];
    radix_sort(&mut arr);
    assert_eq!(arr, [0, 1, 2, 3, 4, 5, 6, 9]);
}

#[test]
fn boundary_lengths_every_sort() {
    for sort in SORTS {
        let mut empty: Vec<i32> = vec![];
        sort(&mut empty);
        assert_eq!(empty, []);
        let mut one = vec![7];
        sort(&mut one);
        assert_eq!(one, [7]);
        let mut two = vec![2, 1];
        sort(&mut two);
        assert_eq!(two, [1, 2]);
        let mut two_sorted = vec![1, 2];
        sort(&mut two_sorted);
        assert_eq!(two_sorted, [1, 2]);
    }
    for len in [0usize, 1, 2] {
        let mut arr: Vec<i32> = (0..len as i32).rev().collect();
        bitonic_sort(&mut arr);
        let expect: Vec<i32> = (0..len as i32).collect();
        assert_eq!(arr, expect);

        let mut arr: Vec<usize> = (0..len).rev().collect();
        count_sort(&mut arr);
        let expect: Vec<usize> = (0..len).collect();
        assert_eq!(arr, expect);

        let mut arr: Vec<usize> = (0..len).rev().collect();
        radix_sort(&mut arr);
        assert_eq!(arr, expect);
    }
}

#[test]
fn merge_scenarios() {
    let mut buf = vec![];
    let mut arr = vec![5, 6, 7, 1, 2, 3, 4];
    merge(&mut arr, 3, &mut buf);
    assert_eq!(arr, [1, 2, 3, 4, 5, 6, 7]);

    let mut arr = vec![1, 5, 7, 2, 3, 4, 6];
    merge(&mut arr, 3, &mut buf);
    assert_eq!(arr, [1, 2, 3, 4, 5, 6, 7]);

    let mut arr = vec![1, 5, 7, 2, 3, 4, 6, 8];
    merge(&mut arr, 3, &mut buf);
    assert_eq!(arr, [1, 2, 3, 4, 5, 6, 7, 8]);

    let mut arr = vec![1, 5, 7, 8, 2, 3, 4, 6];
    merge(&mut arr, 4, &mut buf);
    assert_eq!(arr, [1, 2, 3, 4, 5, 6, 7, 8]);

    let mut arr = vec![1, 3, 5, 7, 8, 2, 4, 6];
    merge(&mut arr, 5, &mut buf);
    assert_eq!(arr, [1, 2, 3, 4, 5, 6, 7, 8]);

    // a backward merge whose buffered half drains after the left side
    let mut arr = vec![8, 9, 5];
    merge(&mut arr, 2, &mut buf);
    assert_eq!(arr, [5, 8, 9]);

    let mut arr: Vec<i32> = vec![];
    merge(&mut arr, 0, &mut buf);
    assert_eq!(arr, []);
}

#[test]
fn merge_sort_with_buf_reuses_buffer() {
    let mut buf = vec![];
    let mut arr = vec![0, 3, 1, 5, 2, 9, 6, 4];
    merge_sort_with_buf(&mut arr, &mut buf);
    assert_eq!(arr, [0, 1, 2, 3, 4, 5, 6, 9]);
    let mut arr2 = vec![3, 2, 1];
    merge_sort_with_buf(&mut arr2, &mut buf);
    assert_eq!(arr2, [1, 2, 3]);
}

#[test]
fn binary_exponent_lengths() {
    for n in [0usize, 1, 2, 4, 8, 16, 32, 64, 128, 256] {
        assert!(bin_exp_check(n));
    }
    for n in [
        3usize, 5, 6, 7, 9, 11, 12, 13, 14, 15, 17, 18, 19, 20, 21, 22, 23, 24, 25, 26, 27, 28,
        29, 30, 31, 33, 34, 35, 36,
    ] {
        assert!(!bin_exp_check(n));
    }
}

#[test]
fn bitonic_valid_lengths() {
    for e in 0..9 {
        let len: usize = 1 << e;
        let mut arr: Vec<usize> = (0..len).rev().collect();
        bitonic_sort(&mut arr);
        let expect: Vec<usize> = (0..len).collect();
        assert_eq!(arr, expect);
    }
    // an already-bitonic sequence (rising then falling) merges to ascending
    let mut arr = vec![1, 4, 6, 9, 8, 5, 3, 0];
    bitonic_merge(&mut arr);
    assert_eq!(arr, [0, 1, 3, 4, 5, 6, 8, 9]);
    // falling then rising works as well
    let mut arr = vec![9, 7, 2, 0, 1, 5, 6, 8];
    bitonic_merge(&mut arr);
    assert_eq!(arr, [0, 1, 2, 5, 6, 7, 8, 9]);
    let mut arr = vec![3, 1];
    bitonic_merge(&mut arr);
    assert_eq!(arr, [1, 3]);
    let mut arr: Vec<i32> = vec![];
    bitonic_merge(&mut arr);
    assert_eq!(arr, []);
}

#[test]
fn count_sort_scenarios() {
    let mut arr: Vec<usize> = vec![3, 1, 5, 2, 9, 6, 4];
    let mut buf: Vec<usize> = vec![0; 10];
    count_sort_with_buf(&mut arr, 0, &mut buf);
    assert_eq!(arr, [1, 2, 3, 4, 5, 6, 9]);

    let mut arr: Vec<usize> = vec![3, 1, 5, 2, 9, 6, 4];
    let mut buf: Vec<usize> = vec![0; 9];
    count_sort_with_buf(&mut arr, 1, &mut buf);
    assert_eq!(arr, [1, 2, 3, 4, 5, 6, 9]);

    let mut arr: Vec<usize> = vec![3, 1, 5, 2, 9, 6, 4];
    count_sort(&mut arr);
    assert_eq!(arr, [1, 2, 3, 4, 5, 6, 9]);

    // equal keys collapse to equal output values
    let mut arr: Vec<usize> = vec![4, 4, 1, 4, 1];
    count_sort(&mut arr);
    assert_eq!(arr, [1, 1, 4, 4, 4]);
}

#[test]
fn radix_sort_scenarios() {
    let mut arr: Vec<usize> = vec![0, 3, 1, 5, 2, 9, 6, 4];
    radix_sort(&mut arr);
    assert_eq!(arr, [0, 1, 2, 3, 4, 5, 6, 9]);

    let mut arr: Vec<usize> = vec![0, 3, 1, 5, 2, 9, 6, 4];
    let mut buf = Vec::with_capacity(8);
    radix_sort_with_buf(&mut arr, &mut buf);
    assert_eq!(arr, [0, 1, 2, 3, 4, 5, 6, 9]);

    let mut arr: Vec<usize> = vec![usize::MAX, 0, usize::MAX - 1, 1];
    radix_sort(&mut arr);
    assert_eq!(arr, [0, 1, usize::MAX - 1, usize::MAX]);
}

#[test]
fn sedgewick_expr_values() {
    let steps: Vec<usize> = (0..10).map(sedgewick_expr).collect();
    assert_eq!(steps, [1, 5, 19, 41, 109, 209, 505, 929, 2161, 3905]);
}

fn next_rand(state: &mut u64) -> u64 {
    *state = state
        .wrapping_mul(6364136223846793005)
        .wrapping_add(1442695040888963407);
    *state >> 33
}

#[test]
fn cross_algorithm_agreement() {
    let mut state: u64 = 42;
    for case in 0..40 {
        let len = (case * 7) % 53;
        let mut arr: Vec<i32> = (0..len).map(|_| (next_rand(&mut state) % 40) as i32).collect();
        let mut reference = arr.clone();
        reference.sort();
        for sort in SORTS {
            let mut copy = arr.clone();
            sort(&mut copy);
            assert_eq!(copy, reference);
        }
        // shuffle for the next round
        let n = arr.len();
        for i in 0..n {
            let j = (next_rand(&mut state) as usize) % n.max(1);
            arr.swap(i, j);
        }
    }
}

#[test]
fn sorting_twice_changes_nothing() {
    for sort in SORTS {
        let mut arr = vec![0, 3, 1, 5, 2, 9, 6, 4];
        sort(&mut arr);
        let once = arr.clone();
        sort(&mut arr);
        assert_eq!(arr, once);
    }
}

#[test]
fn stable_sorts_keep_equal_keys_in_order() {
    let input = vec![
        KeyVal { key: 1, tag: 0 },
        KeyVal { key: 1, tag: 1 },
        KeyVal { key: 0, tag: 2 },
        KeyVal { key: 1, tag: 3 },
        KeyVal { key: 0, tag: 4 },
    ];
    let expect = vec![
        KeyVal { key: 0, tag: 2 },
        KeyVal { key: 0, tag: 4 },
        KeyVal { key: 1, tag: 0 },
        KeyVal { key: 1, tag: 1 },
        KeyVal { key: 1, tag: 3 },
    ];
    let stable: [fn(&mut Vec<KeyVal>); 5] = [
        bubble_sort,
        cocktail_sort,
        insert_sort,
        binary_insert_sort,
        merge_sort,
    ];
    for sort in stable {
        let mut arr = input.clone();
        sort(&mut arr);
        assert_eq!(arr, expect);
    }
}

#[test]
fn keyed_records_sort_by_key() {
    let mut arr = vec![
        KeyVal { key: 9, tag: 0 },
        KeyVal { key: 2, tag: 1 },
        KeyVal { key: 5, tag: 2 },
    ];
    quick_sort(&mut arr);
    assert_eq!(arr[0].key, 2);
    assert_eq!(arr[1].key, 5);
    assert_eq!(arr[2].key, 9);
}
