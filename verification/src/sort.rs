//! Sorting: a parallel merge sort, the `Sorter` abstraction and its check.
use vstd::prelude::*;
use vstd::multiset::Multiset;
use crate::order::{comparisons_follow_spec, le, lemma_order_facts, lemma_total_order_laws, lt, total_order};
use vstd::seq_lib::lemma_multiset_commutative;

verus! {

broadcast use vstd::seq_lib::group_to_multiset_ensures;

/// Every element is `<=` every later element.
pub open spec fn is_sorted<T: PartialOrd>(s: Seq<T>) -> bool {
    forall|i: int, j: int| 0 <= i < j < s.len() ==> le(#[trigger] s[i], #[trigger] s[j])
}

/// Neighbouring elements are in order: what a check of each window of two sees.
pub open spec fn windows_in_order<T: PartialOrd>(s: Seq<T>) -> bool {
    forall|i: int| 0 <= i && i + 1 < s.len() ==> le(#[trigger] s[i], s[i + 1])
}

/// `result` holds the elements of `data` (with their multiplicities) in sorted order.
pub open spec fn sorts<T: PartialOrd>(data: Seq<T>, result: Seq<T>) -> bool {
    &&& is_sorted(result)
    &&& result.to_multiset() == data.to_multiset()
}

/// `x` and `y` are equal in the order: each is `<=` the other.
pub open spec fn equivalent<T: PartialOrd>(x: T, y: T) -> bool {
    le(x, y) && le(y, x)
}

/// The elements of `s` equal to `x` in the order, in the order they stand in `s`.
pub open spec fn class_of<T: PartialOrd>(s: Seq<T>, x: T) -> Seq<T> {
    s.filter(|y: T| equivalent(y, x))
}

/// `result` keeps the relative order of elements that are equal in the order:
/// for every element, those equal to it come in `result` as they came in `data`.
pub open spec fn stable<T: PartialOrd>(data: Seq<T>, result: Seq<T>) -> bool {
    forall|x: T| #[trigger] class_of(result, x) == class_of(data, x)
}

proof fn lemma_class_push<T: PartialOrd>(s: Seq<T>, v: T, x: T)
    ensures
        class_of(s.push(v), x) == if equivalent(v, x) {
            class_of(s, x).push(v)
        } else {
            class_of(s, x)
        },
{
    reveal(Seq::filter);
    assert(s.push(v).drop_last() =~= s);
}

proof fn lemma_class_empty<T: PartialOrd>(s: Seq<T>, x: T)
    requires
        forall|i: int| 0 <= i < s.len() ==> !equivalent(#[trigger] s[i], x),
    ensures
        class_of(s, x) == Seq::<T>::empty(),
    decreases s.len(),
{
    reveal(Seq::filter);
    if s.len() > 0 {
        let init = s.drop_last();
        assert forall|i: int| 0 <= i < init.len() implies !equivalent(#[trigger] init[i], x) by {
            assert(init[i] == s[i]);
        }
        lemma_class_empty(init, x);
        assert(!equivalent(s[s.len() - 1], x));
    }
}

spec fn prefix<T>(s: Seq<T>, n: usize) -> Seq<T> {
    s.take(n as int)
}

spec fn at<T>(s: Seq<T>, n: usize) -> T {
    s[n as int]
}

proof fn lemma_prefix_step<T>(s: Seq<T>, n: usize)
    requires
        n < s.len(),
        n < usize::MAX,
    ensures
        prefix(s, (n + 1) as usize) == prefix(s, n).push(at(s, n)),
        prefix(s, (n + 1) as usize).to_multiset() == prefix(s, n).to_multiset().insert(at(s, n)),
{
    assert(prefix(s, (n + 1) as usize) =~= prefix(s, n).push(at(s, n)));
}

proof fn lemma_prefix_full<T>(s: Seq<T>, n: usize)
    requires
        n == s.len(),
    ensures
        prefix(s, n) == s,
{
    assert(prefix(s, n) =~= s);
}

proof fn lemma_prefix_empty<T>(s: Seq<T>)
    ensures
        prefix(s, 0) == Seq::<T>::empty(),
        prefix(s, 0).to_multiset() == Multiset::<T>::empty(),
{
    assert(prefix(s, 0) =~= Seq::<T>::empty());
}

/// Merges two sorted vectors into one sorted vector holding the elements of both.
fn merge<T: Ord + Copy>(a: Vec<T>, b: Vec<T>) -> (result: Vec<T>)
    requires
        total_order::<T>(),
        is_sorted(a@),
        is_sorted(b@),
    ensures
        is_sorted(result@),
        result@.to_multiset() == a@.to_multiset().add(b@.to_multiset()),
        forall|x: T| #[trigger] class_of(result@, x) == class_of(a@, x) + class_of(b@, x),
{
    proof {
        lemma_total_order_laws::<T>();
        lemma_prefix_empty(a@);
        lemma_prefix_empty(b@);
    }
    let mut result: Vec<T> = Vec::new();
    let mut ai: usize = 0;
    let mut bi: usize = 0;
    while ai < a.len() || bi < b.len()
        invariant
            total_order::<T>(),
            comparisons_follow_spec::<T>(),
            forall|x: T, y: T| #[trigger] le(x, y) || le(y, x),
            forall|x: T, y: T, z: T| #[trigger] le(x, y) && #[trigger] le(y, z) ==> le(x, z),
            is_sorted(a@),
            is_sorted(b@),
            ai <= a.len(),
            bi <= b.len(),
            is_sorted(result@),
            result@.to_multiset() == prefix(a@, ai).to_multiset().add(prefix(b@, bi).to_multiset()),
            forall|k: int, i: int|
                0 <= k < result@.len() && ai <= i < a@.len() ==> le(#[trigger] result@[k], #[trigger] a@[i]),
            forall|k: int, i: int|
                0 <= k < result@.len() && bi <= i < b@.len() ==> le(#[trigger] result@[k], #[trigger] b@[i]),
            forall|k: int, i: int| 0 <= k < bi && ai <= i < a@.len() ==> lt(#[trigger] b@[k], #[trigger] a@[i]),
            forall|x: T| #[trigger] class_of(result@, x) == class_of(prefix(a@, ai), x) + class_of(prefix(b@, bi), x),
        decreases a.len() + b.len() - ai - bi,
    {
        let take_a = if ai < a.len() && bi < b.len() {
            a[ai] <= b[bi]
        } else {
            ai < a.len()
        };
        let ghost old_result = result@;
        if take_a {
            let x = a[ai];
            proof {
                lemma_prefix_step(a@, ai);
                assert(x == a@[ai as int]);
            }
            result.push(x);
            proof {
                assert forall|k: int, i: int|
                    0 <= k < result@.len() && ai + 1 <= i < a@.len() implies le(#[trigger] result@[k], #[trigger] a@[i]) by {
                    if k < old_result.len() {
                        assert(old_result[k] == result@[k]);
                    } else {
                        assert(le(a@[ai as int], a@[i]));
                    }
                }
                assert forall|k: int, i: int|
                    0 <= k < result@.len() && bi <= i < b@.len() implies le(#[trigger] result@[k], #[trigger] b@[i]) by {
                    if k < old_result.len() {
                        assert(old_result[k] == result@[k]);
                    } else {
                        assert(le(x, b@[bi as int]));
                        if i > bi {
                            assert(le(b@[bi as int], b@[i]));
                        }
                    }
                }
                assert forall|k: int, l: int| 0 <= k < l < result@.len() implies le(#[trigger] result@[k], #[trigger] result@[l]) by {
                    if l < old_result.len() {
                        assert(old_result[k] == result@[k]);
                        assert(old_result[l] == result@[l]);
                    } else {
                        assert(old_result[k] == result@[k]);
                        assert(le(old_result[k], a@[ai as int]));
                    }
                }
                assert forall|x: T| #[trigger] class_of(result@, x) == class_of(prefix(a@, (ai + 1) as usize), x)
                    + class_of(prefix(b@, bi), x) by {
                    lemma_class_push(old_result, x, x);
                    lemma_class_push(old_result, a@[ai as int], x);
                    lemma_class_push(prefix(a@, ai), a@[ai as int], x);
                    if equivalent(a@[ai as int], x) {
                        assert forall|k: int| 0 <= k < prefix(b@, bi).len() implies !equivalent(
                            #[trigger] prefix(b@, bi)[k],
                            x,
                        ) by {
                            let w = b@[k];
                            assert(prefix(b@, bi)[k] == w);
                            assert(lt(w, a@[ai as int]));
                            lemma_order_facts(a@[ai as int], w);
                            lemma_order_facts(w, a@[ai as int]);
                        }
                        lemma_class_empty(prefix(b@, bi), x);
                    }
                    assert(result@ == old_result.push(a@[ai as int]));
                }
            }
            ai = ai + 1;
        } else {
            let x = b[bi];
            proof {
                lemma_prefix_step(b@, bi);
                assert(x == b@[bi as int]);
                if ai < a.len() {
                    assert(le(x, a@[ai as int]));
                }
            }
            result.push(x);
            proof {
                assert forall|k: int, i: int|
                    0 <= k < result@.len() && bi + 1 <= i < b@.len() implies le(#[trigger] result@[k], #[trigger] b@[i]) by {
                    if k < old_result.len() {
                        assert(old_result[k] == result@[k]);
                    } else {
                        assert(le(b@[bi as int], b@[i]));
                    }
                }
                assert forall|k: int, i: int|
                    0 <= k < result@.len() && ai <= i < a@.len() implies le(#[trigger] result@[k], #[trigger] a@[i]) by {
                    if k < old_result.len() {
                        assert(old_result[k] == result@[k]);
                    } else {
                        assert(le(x, a@[ai as int]));
                        if i > ai {
                            assert(le(a@[ai as int], a@[i]));
                        }
                    }
                }
                assert forall|k: int, l: int| 0 <= k < l < result@.len() implies le(#[trigger] result@[k], #[trigger] result@[l]) by {
                    if l < old_result.len() {
                        assert(old_result[k] == result@[k]);
                        assert(old_result[l] == result@[l]);
                    } else {
                        assert(old_result[k] == result@[k]);
                        assert(le(old_result[k], b@[bi as int]));
                    }
                }
                assert forall|k: int, i: int| 0 <= k < bi + 1 && ai <= i < a@.len() implies lt(
                    #[trigger] b@[k],
                    #[trigger] a@[i],
                ) by {
                    if k == bi {
                        lemma_order_facts(x, a@[ai as int]);
                        lemma_order_facts(a@[ai as int], x);
                        if !lt(x, a@[i]) {
                            lemma_order_facts(x, a@[i]);
                            assert(le(a@[ai as int], a@[i]));
                        }
                    }
                }
                assert forall|y: T| #[trigger] class_of(result@, y) == class_of(prefix(a@, ai), y) + class_of(
                    prefix(b@, (bi + 1) as usize),
                    y,
                ) by {
                    lemma_class_push(old_result, x, y);
                    lemma_class_push(prefix(b@, bi), x, y);
                    assert(result@ == old_result.push(x));
                }
            }
            bi = bi + 1;
        }
    }
    proof {
        lemma_prefix_full(a@, ai);
        lemma_prefix_full(b@, bi);
    }
    result
}

/// Sorts both halves through `rayon::join`, which runs the two closures (possibly
/// in parallel on the thread pool) and returns the pair of their results; each
/// closure is one call of `parallel_sort`, so each half comes back as that call's
/// postcondition describes.
#[verifier::external_body]
fn sort_halves_in_parallel<T: Ord + Copy + Send + Sync>(left: &[T], right: &[T]) -> (halves: (Vec<T>, Vec<T>))
    requires
        total_order::<T>(),
    ensures
        sorts(left@, halves.0@),
        sorts(right@, halves.1@),
        stable(left@, halves.0@),
        stable(right@, halves.1@),
{
    rayon::join(|| parallel_sort(left), || parallel_sort(right))
}

/// Merge sort that sorts the two halves in parallel. The sort is stable:
/// elements equal in the order keep their relative order.
pub fn parallel_sort<T: Ord + Copy + Send + Sync>(data: &[T]) -> (sorted: Vec<T>)
    requires
        total_order::<T>(),
    ensures
        sorts(data@, sorted@),
        stable(data@, sorted@),
{
    if data.len() <= 1 {
        return vstd::slice::slice_to_vec(data);
    }
    let mid = data.len() / 2;
    let (left_half, right_half) = data.split_at(mid);
    let (left, right) = sort_halves_in_parallel(left_half, right_half);
    proof {
        assert(data@ =~= left_half@ + right_half@);
        lemma_multiset_commutative(left_half@, right_half@);
    }
    let merged = merge(left, right);
    proof {
        assert forall|x: T| #[trigger] class_of(merged@, x) == class_of(data@, x) by {
            Seq::filter_distributes_over_add(left_half@, right_half@, |y: T| equivalent(y, x));
        }
    }
    merged
}

/// `slice::sort`: sorts the elements in ascending order, keeping every element;
/// the sort is stable (elements that compare equal keep their order).
#[verifier::external_body]
fn sort_in_place<T: Ord>(v: &mut Vec<T>)
    requires
        total_order::<T>(),
    ensures
        sorts(old(v)@, final(v)@),
        stable(old(v)@, final(v)@),
{
    v.sort();
}

/// A pluggable sorting algorithm.
pub trait Sorter<T: Ord + Clone + Send + Sync>: Send + Sync {
    /// Returns the elements of `data` in sorted order.
    fn sort(&self, data: &[T]) -> (sorted: Vec<T>)
        requires
            total_order::<T>(),
        ensures
            sorts(data@, sorted@),
    ;

    /// The name of the algorithm.
    spec fn algorithm_name(&self) -> Seq<char>;

    /// A short name for the algorithm.
    fn name(&self) -> (name: &'static str)
        ensures
            name@ == self.algorithm_name(),
    ;
}

/// Sorts with [`parallel_sort`].
pub struct ParallelMergeSorter;

/// Sorts with the standard library's stable sort.
pub struct StdSorter;

impl<T: Ord + Copy + Send + Sync> Sorter<T> for ParallelMergeSorter {
    fn sort(&self, data: &[T]) -> (sorted: Vec<T>)
        ensures
            stable(data@, sorted@),
    {
        parallel_sort(data)
    }

    open spec fn algorithm_name(&self) -> Seq<char> {
        "parallel_merge_sort"@
    }

    fn name(&self) -> &'static str {
        "parallel_merge_sort"
    }
}

impl<T: Ord + Copy + Send + Sync> Sorter<T> for StdSorter {
    fn sort(&self, data: &[T]) -> (sorted: Vec<T>)
        ensures
            stable(data@, sorted@),
    {
        let mut v = vstd::slice::slice_to_vec(data);
        sort_in_place(&mut v);
        v
    }

    open spec fn algorithm_name(&self) -> Seq<char> {
        "std_sort"@
    }

    fn name(&self) -> &'static str {
        "std_sort"
    }
}

/// For a total order, neighbours in order is the same as sorted.
pub proof fn lemma_windows_in_order_iff_sorted<T: Ord>(s: Seq<T>)
    requires
        total_order::<T>(),
    ensures
        windows_in_order(s) <==> is_sorted(s),
{
    lemma_total_order_laws::<T>();
    if windows_in_order(s) {
        assert forall|i: int, j: int| 0 <= i < j < s.len() implies le(#[trigger] s[i], #[trigger] s[j]) by {
            lemma_windows_chain(s, i, j);
        }
    }
}

proof fn lemma_windows_chain<T: Ord>(s: Seq<T>, i: int, j: int)
    requires
        total_order::<T>(),
        windows_in_order(s),
        0 <= i < j < s.len(),
    ensures
        le(s[i], s[j]),
    decreases j - i,
{
    lemma_total_order_laws::<T>();
    if j == i + 1 {
    } else {
        lemma_windows_chain(s, i, j - 1);
        assert(le(s[j - 1], s[j]));
    }
}

/// Runs `sorter` on `data` and checks that the result is sorted: the vector is
/// the sorter's result, which holds the elements of `data` in sorted order,
/// and the flag is true exactly when every window of two neighbours is in
/// order (so it is true).
pub fn run_sorter<T: Ord + Clone + Send + Sync>(sorter: &dyn Sorter<T>, data: &[T]) -> (checked: (Vec<T>, bool))
    requires
        total_order::<T>(),
    ensures
        sorts(data@, checked.0@),
        checked.1 == is_sorted(checked.0@),
        checked.1,
{
    proof {
        lemma_total_order_laws::<T>();
    }
    let result = sorter.sort(data);
    let mut sorted = true;
    let mut i: usize = 0;
    let n = result.len();
    while n > 0 && i < n - 1
        invariant
            comparisons_follow_spec::<T>(),
            n == result.len(),
            i + 1 <= n || n == 0,
            n == 0 ==> i == 0,
            sorted == (forall|k: int| 0 <= k && k + 1 <= i && k + 1 < result@.len() ==> le(#[trigger] result@[k], result@[k + 1])),
        decreases n - i,
    {
        if !(result[i] <= result[i + 1]) {
            sorted = false;
        }
        i = i + 1;
    }
    proof {
        lemma_windows_in_order_iff_sorted(result@);
    }
    (result, sorted)
}

} // verus!
