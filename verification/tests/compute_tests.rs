use icbm::primes::sieve;
use icbm::sort::{parallel_sort, run_sorter, ParallelMergeSorter, Sorter, StdSorter};

#[test]
fn test_parallel_sort() {
    let data: Vec<i32> = vec![5, 3, 8, 1, 9, 2, 7, 4, 6, 0];
    let sorted = parallel_sort(&data);
    assert_eq!(sorted, vec![0, 1, 2, 3, 4, 5, 6, 7, 8, 9]);
}

#[test]
fn test_sieve() {
    let primes = sieve(30);
    assert_eq!(primes, vec![2, 3, 5, 7, 11, 13, 17, 19, 23, 29]);
}

#[test]
fn test_sorter_trait() {
    let data = vec![4u32, 1, 3, 2];
    let (sorted, ok) = run_sorter(&StdSorter, &data);
    assert!(ok);
    assert_eq!(sorted, vec![1, 2, 3, 4]);
}

#[test]
fn parallel_sort_keeps_duplicates_and_handles_small_inputs() {
    let empty: Vec<u64> = vec![];
    assert_eq!(parallel_sort(&empty), Vec::<u64>::new());
    assert_eq!(parallel_sort(&[7u8]), vec![7u8]);
    let data = vec![3i64, -1, 3, 0, -1, 2, 2];
    assert_eq!(parallel_sort(&data), vec![-1, -1, 0, 2, 2, 3, 3]);
}

#[test]
fn parallel_sort_large_input_matches_std_sort() {
    let data: Vec<u32> = (0..5000u32).map(|i| i.wrapping_mul(2_654_435_761) % 1000).collect();
    let mut expected = data.clone();
    expected.sort();
    assert_eq!(parallel_sort(&data), expected);
}

#[test]
fn sorters_agree_and_are_named() {
    let data = vec![9u16, 4, 4, 1, 8];
    let (a, ok_a) = run_sorter(&ParallelMergeSorter, &data);
    let (b, ok_b) = run_sorter(&StdSorter, &data);
    assert!(ok_a && ok_b);
    assert_eq!(a, b);
    assert_eq!(a, vec![1, 4, 4, 8, 9]);
    assert_eq!(Sorter::<u16>::name(&ParallelMergeSorter), "parallel_merge_sort");
    assert_eq!(Sorter::<u16>::name(&StdSorter), "std_sort");
}

#[test]
fn sieve_edges() {
    assert_eq!(sieve(0), Vec::<usize>::new());
    assert_eq!(sieve(1), Vec::<usize>::new());
    assert_eq!(sieve(2), vec![2]);
    assert_eq!(sieve(13), vec![2, 3, 5, 7, 11, 13]);
    assert_eq!(sieve(100).len(), 25);
}

#[derive(Clone, Copy, Debug, PartialEq, Eq)]
struct Keyed {
    key: u8,
    tag: u8,
}

impl PartialOrd for Keyed {
    fn partial_cmp(&self, other: &Self) -> Option<std::cmp::Ordering> {
        Some(self.cmp(other))
    }
}

impl Ord for Keyed {
    fn cmp(&self, other: &Self) -> std::cmp::Ordering {
        self.key.cmp(&other.key)
    }
}

#[test]
fn sorting_is_stable() {
    let data: Vec<Keyed> = (0..200u8).map(|i| Keyed { key: (i * 7) % 5, tag: i }).collect();
    let sorted = parallel_sort(&data);
    for w in sorted.windows(2) {
        assert!(w[0].key < w[1].key || (w[0].key == w[1].key && w[0].tag < w[1].tag));
    }
    let (by_std, ok) = run_sorter(&StdSorter, &data);
    assert!(ok);
    assert_eq!(by_std, sorted);
}
