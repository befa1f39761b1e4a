use sorts_rs::basic::binary_search;
use sorts_rs::basic::insert_point;
use sorts_rs::normal::insert_sort_by_step;
use sorts_rs::normal::max_leaf;
use sorts_rs::other::bitonic_sort;

#[test]
fn binary_search_test() {
    let arr = vec![1, 3, 4, 4];
    assert_eq!(binary_search(&arr, &5), 4);
    assert_eq!(binary_search(&arr, &4), 4);
    assert_eq!(binary_search(&arr, &3), 2);
    assert_eq!(binary_search(&arr, &2), 1);
    assert_eq!(binary_search(&arr, &1), 1);
    assert_eq!(binary_search(&arr, &0), 0);
}

#[test]
fn insert_point_test() {
    {
        let mut arr = vec![0];
        insert_point(&mut arr);
        assert_eq!(arr, [0]);
    }
    {
        let mut arr = vec![0, 1];
        insert_point(&mut arr);
        assert_eq!(arr, [0, 1]);
    }
    {
        let mut arr = vec![2, 1];
        insert_point(&mut arr);
        assert_eq!(arr, [1, 2]);
    }
    {
        let mut arr = vec![1, 2, 3];
        insert_point(&mut arr);
        assert_eq!(arr, [1, 2, 3]);
    }
    {
        let mut arr = vec![1, 3, 2];
        insert_point(&mut arr);
        assert_eq!(arr, [1, 2, 3]);
    }
    {
        let mut arr = vec![1, 3, 4, 2];
        insert_point(&mut arr);
        assert_eq!(arr, [1, 2, 3, 4]);
    }
    {
        let mut arr = vec![1, 2, 3, 0];
        insert_point(&mut arr);
        assert_eq!(arr, [0, 1, 2, 3]);
    }
}

#[test]
fn max_leaf_test() {
    {
        let buf = vec![0];
        assert_eq!(max_leaf(&buf, 1, 0), None);
        assert_eq!(max_leaf(&buf, 1, 1), None);
        assert_eq!(max_leaf(&buf, 1, 2), None);
    }
    {
        let buf = vec![1, 0];
        assert_eq!(max_leaf(&buf, 2, 0), Some((1, 0)));
        assert_eq!(max_leaf(&buf, 2, 1), None);
        assert_eq!(max_leaf(&buf, 2, 2), None);
    }
}

#[test]
fn insert_sort_by_step_test() {
    {
        let mut arr = vec![9, 8, 7, 6, 5, 4, 3, 2, 1, 0];
        insert_sort_by_step(&mut arr, 0, 2);
        assert_eq!(arr, [1, 8, 3, 6, 5, 4, 7, 2, 9, 0]);
    }
    {
        let mut arr = vec![9, 8, 7, 6, 5, 4, 3, 2, 1, 0];
        insert_sort_by_step(&mut arr, 1, 2);
        assert_eq!(arr, [9, 0, 7, 2, 5, 4, 3, 6, 1, 8]);
    }
    {
        let mut arr: Vec<i32> = vec![];
        insert_sort_by_step(&mut arr, 0, 2);
        assert_eq!(arr, []);
    }
    {
        let mut arr = vec![1];
        insert_sort_by_step(&mut arr, 0, 2);
        assert_eq!(arr, [1]);
    }
}

fn next_rand(state: &mut u64) -> u64 {
    *state = state
        .wrapping_mul(6364136223846793005)
        .wrapping_add(1442695040888963407);
    *state >> 33
}

#[test]
fn bitonic_sort_test() {
    let mut buf: Vec<usize> = vec![];
    let mut buf1: Vec<usize> = vec![];
    let mut state: u64 = 7;
    for i in 0..18 {
        let len = 1usize << i;
        buf.resize(len, 0);
        buf1.resize(len, 0);
        for k in 0..len {
            let num = (next_rand(&mut state) as usize % len) >> 1;
            buf[k] = num;
            buf1[k] = num;
        }

        bitonic_sort(&mut buf);
        buf1.sort();
        assert_eq!(buf, buf1);
    }
}
