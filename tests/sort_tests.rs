use algorithm_playground::{bubble_sort, heap_sort, insertion_sort, merge_sort, quick_sort, selection_sort};

#[test]
fn test_merge_sort() {
    let mut arr = [3, 2, 1];
    merge_sort(&mut arr);
    assert_eq!(arr, [1, 2, 3]);

    let mut arr = ['c', 'b', 'a'];
    merge_sort(&mut arr);
    assert_eq!(arr, ['a', 'b', 'c']);
}

#[test]
fn test_heap_sort() {
    let mut arr = [3, 2, 1];
    heap_sort(&mut arr);
    assert_eq!(arr, [1, 2, 3]);

    let mut arr = ['c', 'b', 'a'];
    heap_sort(&mut arr);
    assert_eq!(arr, ['a', 'b', 'c']);
}

#[test]
fn test_quick_sort() {
    let mut arr = [3, 2, 1];
    quick_sort(&mut arr);
    assert_eq!(arr, [1, 2, 3]);

    let mut arr = ['c', 'b', 'a'];
    quick_sort(&mut arr);
    assert_eq!(arr, ['a', 'b', 'c']);
}

#[test]
fn test_insertion_sort() {
    let mut arr = [3, 2, 1];
    insertion_sort(&mut arr);
    assert_eq!(arr, [1, 2, 3]);

    let mut arr = ['c', 'b', 'a'];
    insertion_sort(&mut arr);
    assert_eq!(arr, ['a', 'b', 'c']);
}

#[test]
fn test_selection_sort() {
    let mut arr = [3, 2, 1];
    selection_sort(&mut arr);
    assert_eq!(arr, [1, 2, 3]);

    let mut arr = ['c', 'b', 'a'];
    selection_sort(&mut arr);
    assert_eq!(arr, ['a', 'b', 'c']);
}

#[test]
fn test_bubble_sort() {
    let mut arr = [3, 2, 1];
    bubble_sort(&mut arr);
    assert_eq!(arr, [1, 2, 3]);

    let mut arr = ['c', 'b', 'a'];
    bubble_sort(&mut arr);
    assert_eq!(arr, ['a', 'b', 'c']);
}

fn all_sorts() -> Vec<(&'static str, fn(&mut [i64]))> {
    vec![
        ("merge", merge_sort::<i64>),
        ("heap", heap_sort::<i64>),
        ("quick", quick_sort::<i64>),
        ("insertion", insertion_sort::<i64>),
        ("selection", selection_sort::<i64>),
        ("bubble", bubble_sort::<i64>),
    ]
}

fn pseudo_random(seed: u64, n: usize) -> Vec<i64> {
    let mut x = seed;
    (0..n)
        .map(|_| {
            x = x.wrapping_mul(6364136223846793005).wrapping_add(1442695040888963407);
            ((x >> 33) % 17) as i64 - 8
        })
        .collect()
}

#[test]
fn every_sort_orders_and_permutes() {
    for (name, sort) in all_sorts() {
        for n in 0..40 {
            let input = pseudo_random(n as u64 + 1, n);
            let mut expected = input.clone();
            expected.sort();
            let mut out = input.clone();
            sort(&mut out);
            assert_eq!(out, expected, "{} on {:?}", name, input);
        }
    }
}

#[test]
fn every_sort_handles_empty_and_single() {
    for (name, sort) in all_sorts() {
        let mut empty: Vec<i64> = vec![];
        sort(&mut empty);
        assert!(empty.is_empty(), "{}", name);
        let mut one = vec![42];
        sort(&mut one);
        assert_eq!(one, vec![42], "{}", name);
    }
}

#[test]
fn every_sort_leaves_sorted_input_unchanged() {
    for (name, sort) in all_sorts() {
        let input = vec![-3, -3, 0, 1, 1, 1, 5, 9, 9, 12];
        let mut out = input.clone();
        sort(&mut out);
        assert_eq!(out, input, "{}", name);
        sort(&mut out);
        assert_eq!(out, input, "{}", name);
    }
}

#[test]
fn every_sort_handles_duplicates_and_reverse() {
    for (name, sort) in all_sorts() {
        let mut out = vec![5, 5, 5, 5];
        sort(&mut out);
        assert_eq!(out, vec![5, 5, 5, 5], "{}", name);
        let mut out: Vec<i64> = (0..25).rev().collect();
        sort(&mut out);
        assert_eq!(out, (0..25).collect::<Vec<i64>>(), "{}", name);
    }
}

#[derive(Debug, Clone, Copy)]
struct Tagged {
    key: i32,
    tag: u32,
}

impl PartialEq for Tagged {
    fn eq(&self, other: &Self) -> bool {
        self.key == other.key
    }
}

impl Eq for Tagged {}

impl PartialOrd for Tagged {
    fn partial_cmp(&self, other: &Self) -> Option<std::cmp::Ordering> {
        Some(self.cmp(other))
    }
}

impl Ord for Tagged {
    fn cmp(&self, other: &Self) -> std::cmp::Ordering {
        self.key.cmp(&other.key)
    }
}

fn tagged_input() -> Vec<Tagged> {
    let keys = [3, 1, 2, 3, 1, 2, 1, 3, 2, 2, 1];
    keys.iter().enumerate().map(|(i, &key)| Tagged { key, tag: i as u32 }).collect()
}

fn is_stable(out: &[Tagged]) -> bool {
    out.windows(2).all(|w| w[0].key < w[1].key || (w[0].key == w[1].key && w[0].tag < w[1].tag))
}

#[test]
fn merge_sort_is_stable() {
    let mut out = tagged_input();
    merge_sort(&mut out);
    assert!(is_stable(&out), "{:?}", out);
}

#[test]
fn insertion_sort_is_stable() {
    let mut out = tagged_input();
    insertion_sort(&mut out);
    assert!(is_stable(&out), "{:?}", out);
}

#[test]
fn unstable_sorts_still_order_tagged_keys() {
    let sorts: Vec<fn(&mut [Tagged])> =
        vec![heap_sort::<Tagged>, quick_sort::<Tagged>, selection_sort::<Tagged>, bubble_sort::<Tagged>];
    for sort in sorts {
        let mut out = tagged_input();
        sort(&mut out);
        let keys: Vec<i32> = out.iter().map(|t| t.key).collect();
        assert_eq!(keys, vec![1, 1, 1, 1, 2, 2, 2, 2, 3, 3, 3]);
        let mut tags: Vec<u32> = out.iter().map(|t| t.tag).collect();
        tags.sort();
        assert_eq!(tags, (0..11).collect::<Vec<u32>>());
    }
}

#[test]
fn sorted_tagged_input_is_left_as_it_is() {
    let sorts: Vec<fn(&mut [Tagged])> =
        vec![merge_sort::<Tagged>, insertion_sort::<Tagged>, selection_sort::<Tagged>, bubble_sort::<Tagged>];
    let input: Vec<Tagged> =
        [1, 1, 2, 2, 2, 3].iter().enumerate().map(|(i, &key)| Tagged { key, tag: 10 - i as u32 }).collect();
    for sort in sorts {
        let mut out = input.clone();
        sort(&mut out);
        let tags: Vec<u32> = out.iter().map(|t| t.tag).collect();
        assert_eq!(tags, vec![10, 9, 8, 7, 6, 5]);
    }
}
