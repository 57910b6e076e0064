use sorting::{merge_sort, merge_sort_by};

#[derive(Debug, PartialEq)]
struct Pair(i32, i32);

// Ordered by the first field alone.
impl PartialOrd for Pair {
    fn partial_cmp(&self, other: &Self) -> Option<core::cmp::Ordering> {
        self.0.partial_cmp(&other.0)
    }
}

#[derive(Debug, PartialEq)]
struct NoOrd(i32);

#[test]
fn merge_sort_basic_trait() {
    let mut arr = [1, 5, 2, 3, 7];
    merge_sort(&mut arr);
    assert_eq!(arr, [1, 2, 3, 5, 7]);
}

#[test]
fn merge_sort_empty_trait() {
    let mut arr: [i32; 0] = [];
    merge_sort(&mut arr);
    assert_eq!(arr, []);
}

#[test]
fn merge_sort_stability() {
    let mut arr = [Pair(5, 1), Pair(2, 3), Pair(4, 1), Pair(2, 1), Pair(2, 5)];
    merge_sort(&mut arr);
    assert_eq!(
        arr,
        [Pair(2, 3), Pair(2, 1), Pair(2, 5), Pair(4, 1), Pair(5, 1)]
    );
}

#[test]
fn merge_sort_basic_comparator() {
    let mut arr = [NoOrd(1), NoOrd(5), NoOrd(2), NoOrd(3), NoOrd(7)];
    merge_sort_by(&mut arr, |a, b| a.0 < b.0);
    assert_eq!(arr, [NoOrd(1), NoOrd(2), NoOrd(3), NoOrd(5), NoOrd(7)]);
}

#[test]
fn merge_sort_reversed_input() {
    let mut arr = [7, 5, 3, 2, 1];
    merge_sort(&mut arr);
    assert_eq!(arr, [1, 2, 3, 5, 7]);
}

#[test]
fn merge_sort_singleton() {
    let mut arr = [Pair(3, 9)];
    merge_sort(&mut arr);
    assert_eq!(arr, [Pair(3, 9)]);
}

#[test]
fn merge_sort_sorted_input_unchanged() {
    let mut arr = [Pair(1, 4), Pair(2, 2), Pair(2, 1), Pair(6, 0)];
    merge_sort(&mut arr);
    assert_eq!(arr, [Pair(1, 4), Pair(2, 2), Pair(2, 1), Pair(6, 0)]);
    merge_sort(&mut arr);
    assert_eq!(arr, [Pair(1, 4), Pair(2, 2), Pair(2, 1), Pair(6, 0)]);
}

#[test]
fn merge_sort_all_equal_keys_keep_order() {
    let mut v = vec![Pair(0, 1), Pair(0, 2), Pair(0, 3), Pair(0, 4)];
    merge_sort_by(&mut v, |a, b| a.0 < b.0);
    assert_eq!(v, vec![Pair(0, 1), Pair(0, 2), Pair(0, 3), Pair(0, 4)]);
}

#[test]
fn merge_sort_descending_comparator() {
    let mut v = vec![4, 9, 1, 9, 0, 3];
    merge_sort_by(&mut v, |a, b| a > b);
    assert_eq!(v, vec![9, 9, 4, 3, 1, 0]);
}

#[test]
fn merge_sort_is_permutation() {
    let input: Vec<u32> = (0..50u32).map(|i| (i * 37 + 11) % 23).collect();
    let mut v = input.clone();
    merge_sort(&mut v);
    for w in v.windows(2) {
        assert!(w[0] <= w[1]);
    }
    let mut counts_in = [0usize; 23];
    let mut counts_out = [0usize; 23];
    for x in &input {
        counts_in[*x as usize] += 1;
    }
    for x in &v {
        counts_out[*x as usize] += 1;
    }
    assert_eq!(counts_in, counts_out);
}

#[test]
fn merge_sort_odd_length_with_ties() {
    let mut arr = [Pair(3, 0), Pair(1, 1), Pair(3, 2), Pair(0, 3), Pair(1, 4), Pair(3, 5), Pair(0, 6)];
    merge_sort(&mut arr);
    assert_eq!(
        arr,
        [Pair(0, 3), Pair(0, 6), Pair(1, 1), Pair(1, 4), Pair(3, 0), Pair(3, 2), Pair(3, 5)]
    );
}

#[test]
fn merge_sort_owned_strings() {
    let mut v = vec![String::from("pear"), String::from("fig"), String::from("apple")];
    merge_sort(&mut v);
    assert_eq!(v, vec![String::from("apple"), String::from("fig"), String::from("pear")]);
}
