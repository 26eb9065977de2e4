//! Task metadata: string keys mapped to string values, kept in ascending key
//! order (the order in which strings compare: character by character).
use vstd::prelude::*;
use crate::text::chars_of;
use crate::utils::{distinct_keys, has_key, lemma_map_of_at, map_of, position_of};

verus! {

broadcast use vstd::string::group_string_axioms;

/// `a` comes before `b` in string order: at the first position where they
/// differ the character of `a` is smaller, or `a` is a proper prefix of `b`.
pub open spec fn key_less(a: Seq<char>, b: Seq<char>) -> bool
    decreases a.len(),
{
    if a.len() == 0 {
        b.len() > 0
    } else if b.len() == 0 {
        false
    } else if a[0] != b[0] {
        a[0] < b[0]
    } else {
        key_less(a.drop_first(), b.drop_first())
    }
}

proof fn lemma_key_less_irreflexive(a: Seq<char>)
    ensures
        !key_less(a, a),
    decreases a.len(),
{
    if a.len() > 0 {
        lemma_key_less_irreflexive(a.drop_first());
    }
}

proof fn lemma_key_less_asymmetric(a: Seq<char>, b: Seq<char>)
    ensures
        key_less(a, b) ==> !key_less(b, a),
    decreases a.len(),
{
    if a.len() > 0 && b.len() > 0 {
        lemma_key_less_asymmetric(a.drop_first(), b.drop_first());
    }
}

proof fn lemma_key_less_total(a: Seq<char>, b: Seq<char>)
    ensures
        a != b ==> key_less(a, b) || key_less(b, a),
    decreases a.len(),
{
    if a.len() > 0 && b.len() > 0 {
        lemma_key_less_total(a.drop_first(), b.drop_first());
        if a[0] == b[0] && a.drop_first() == b.drop_first() {
            assert(a =~= seq![a[0]] + a.drop_first());
            assert(b =~= seq![b[0]] + b.drop_first());
        }
    } else if a.len() == 0 && b.len() == 0 {
        assert(a =~= b);
    }
}

proof fn lemma_key_less_transitive(a: Seq<char>, b: Seq<char>, c: Seq<char>)
    ensures
        key_less(a, b) && key_less(b, c) ==> key_less(a, c),
    decreases a.len(),
{
    if a.len() > 0 && b.len() > 0 && c.len() > 0 {
        lemma_key_less_transitive(a.drop_first(), b.drop_first(), c.drop_first());
    }
}

/// String order is a strict total order.
pub proof fn lemma_key_less_order(a: Seq<char>, b: Seq<char>, c: Seq<char>)
    ensures
        !key_less(a, a),
        key_less(a, b) ==> !key_less(b, a),
        a != b ==> key_less(a, b) || key_less(b, a),
        key_less(a, b) && key_less(b, c) ==> key_less(a, c),
{
    lemma_key_less_irreflexive(a);
    lemma_key_less_asymmetric(a, b);
    lemma_key_less_total(a, b);
    lemma_key_less_transitive(a, b, c);
}

/// Compares two strings in string order: negative when `a` comes first, zero
/// when they are equal, positive when `b` comes first.
pub fn compare_keys(a: &str, b: &str) -> (r: i8)
    ensures
        r < 0 <==> key_less(a@, b@),
        r == 0 <==> a@ == b@,
        r > 0 <==> key_less(b@, a@),
{
    let ca = chars_of(a);
    let cb = chars_of(b);
    let mut i: usize = 0;
    proof {
        assert(a@.skip(0) =~= a@);
        assert(b@.skip(0) =~= b@);
    }
    while i < ca.len() && i < cb.len()
        invariant
            ca@ == a@,
            cb@ == b@,
            i <= ca@.len(),
            i <= cb@.len(),
            a@.take(i as int) == b@.take(i as int),
            key_less(a@, b@) == key_less(a@.skip(i as int), b@.skip(i as int)),
            key_less(b@, a@) == key_less(b@.skip(i as int), a@.skip(i as int)),
        decreases ca.len() - i,
    {
        let x = ca[i];
        let y = cb[i];
        proof {
            assert(a@.skip(i as int)[0] == x);
            assert(b@.skip(i as int)[0] == y);
        }
        if x != y {
            proof {
                assert(a@ != b@) by {
                    if a@ == b@ {
                        assert(a@[i as int] == b@[i as int]);
                    }
                }
            }
            if x < y {
                return -1;
            } else {
                return 1;
            }
        }
        proof {
            assert(a@.skip(i as int).drop_first() =~= a@.skip(i + 1));
            assert(b@.skip(i as int).drop_first() =~= b@.skip(i + 1));
            assert(a@.take(i + 1) =~= a@.take(i as int).push(x));
            assert(b@.take(i + 1) =~= b@.take(i as int).push(y));
        }
        i = i + 1;
    }
    if ca.len() == cb.len() {
        proof {
            assert(a@ =~= a@.take(i as int));
            assert(b@ =~= b@.take(i as int));
            lemma_key_less_order(a@, b@, b@);
        }
        0
    } else if ca.len() < cb.len() {
        proof {
            assert(a@.skip(i as int).len() == 0);
            assert(a@ != b@);
        }
        -1
    } else {
        proof {
            assert(b@.skip(i as int).len() == 0);
            assert(a@ != b@);
        }
        1
    }
}

/// The keys of `entries` are in strictly ascending string order.
pub open spec fn sorted_keys(entries: Seq<(String, String)>) -> bool {
    forall|i: int, j: int| 0 <= i < j < entries.len() ==> key_less(#[trigger] entries[i].0@, #[trigger] entries[j].0@)
}

proof fn lemma_sorted_distinct(entries: Seq<(String, String)>)
    requires
        sorted_keys(entries),
    ensures
        distinct_keys(entries),
{
    assert forall|i: int, j: int|
        0 <= i < entries.len() && 0 <= j < entries.len() && i != j implies #[trigger] entries[i].0@
            != #[trigger] entries[j].0@ by {
        lemma_key_less_order(entries[i].0@, entries[j].0@, entries[j].0@);
    }
}

/// String keys mapped to string values, kept in ascending key order.
#[derive(Debug)]
pub struct Metadata {
    entries: Vec<(String, String)>,
}

impl Metadata {
    /// Keys are in strictly ascending order (so each occurs once).
    #[verifier::type_invariant]
    pub closed spec fn well_formed(&self) -> bool {
        sorted_keys(self.entries@)
    }

    /// The metadata: a map from key to value.
    pub closed spec fn view(&self) -> Map<Seq<char>, Seq<char>> {
        map_of(self.entries@).map_values(|v: String| v@)
    }

    /// The keys in the order `keys` hands them out.
    pub closed spec fn key_order(&self) -> Seq<Seq<char>> {
        self.entries@.map_values(|e: (String, String)| e.0@)
    }

    /// No metadata.
    pub fn new() -> (meta: Self)
        ensures
            meta@ == Map::<Seq<char>, Seq<char>>::empty(),
    {
        let meta = Metadata { entries: Vec::new() };
        assert(meta@ =~= Map::<Seq<char>, Seq<char>>::empty());
        meta
    }

    /// Stores `value` under `key`, replacing any value stored there before.
    pub fn insert(&mut self, key: &str, value: &str)
        ensures
            final(self)@ == old(self)@.insert(key@, value@),
    {
        proof {
            use_type_invariant(&*self);
        }
        let ghost before = self.entries@;
        let mut p: usize = 0;
        while p < self.entries.len() && compare_keys(self.entries[p].0.as_str(), key) < 0
            invariant
                p <= self.entries@.len(),
                self.entries@ == before,
                sorted_keys(before),
                forall|j: int| 0 <= j < p ==> key_less(#[trigger] before[j].0@, key@),
            decreases self.entries.len() - p,
        {
            p = p + 1;
        }
        let found = p < self.entries.len() && compare_keys(self.entries[p].0.as_str(), key) == 0;
        let mut entries: Vec<(String, String)> = Vec::new();
        std::mem::swap(&mut entries, &mut self.entries);
        let entry = (key.to_owned(), value.to_owned());
        proof {
            lemma_sorted_distinct(before);
            // every key after position p comes after `key`
            assert forall|j: int| p <= j < before.len() && !(found && j == p) implies key_less(key@, #[trigger] before[j].0@) by {
                lemma_key_less_order(before[p as int].0@, key@, key@);
                lemma_key_less_order(key@, before[p as int].0@, before[j].0@);
                if j > p {
                    assert(key_less(before[p as int].0@, before[j].0@));
                    if !found {
                        assert(before[p as int].0@ != key@);
                    }
                }
            }
        }
        if found {
            entries.set(p, entry);
            proof {
                let after = entries@;
                assert forall|i: int, j: int| 0 <= i < j < after.len() implies key_less(#[trigger] after[i].0@, #[trigger] after[j].0@) by {
                    if i == p {
                        assert(after[i].0@ == before[i].0@);
                    }
                    if j == p {
                        assert(after[j].0@ == before[j].0@);
                    }
                }
                lemma_sorted_distinct(after);
                assert forall|k: Seq<char>| #[trigger] map_of(after).contains_key(k) <==> map_of(before).insert(key@, entry.1).contains_key(k) by {
                    if has_key(before, k) {
                        let j = choose|j: int| 0 <= j < before.len() && #[trigger] before[j].0@ == k;
                        assert(after[j].0@ == k);
                    }
                    if has_key(after, k) {
                        let j = choose|j: int| 0 <= j < after.len() && #[trigger] after[j].0@ == k;
                        if j != p {
                            assert(before[j].0@ == k);
                        }
                    }
                }
                assert forall|k: Seq<char>| map_of(after).contains_key(k) implies #[trigger] map_of(after)[k] == map_of(before).insert(key@, entry.1)[k] by {
                    let j = position_of(after, k);
                    if j == p {
                        lemma_map_of_at(after, p as int);
                    } else {
                        assert(before[j].0@ == k);
                        lemma_map_of_at(before, j);
                        lemma_map_of_at(after, j);
                    }
                }
                assert(map_of(after) =~= map_of(before).insert(key@, entry.1));
            }
        } else {
            entries.insert(p, entry);
            proof {
                let after = entries@;
                assert(after[p as int].0@ == key@);
                assert forall|i: int, j: int| 0 <= i < j < after.len() implies key_less(#[trigger] after[i].0@, #[trigger] after[j].0@) by {
                    if j < p {
                        assert(after[i] == before[i] && after[j] == before[j]);
                    } else if j == p {
                        assert(after[i] == before[i]);
                    } else if i == p {
                        assert(after[j] == before[j - 1]);
                    } else if i < p {
                        assert(after[i] == before[i] && after[j] == before[j - 1]);
                    } else {
                        assert(after[i] == before[i - 1] && after[j] == before[j - 1]);
                    }
                }
                lemma_sorted_distinct(after);
                assert(!has_key(before, key@)) by {
                    if has_key(before, key@) {
                        let j = choose|j: int| 0 <= j < before.len() && #[trigger] before[j].0@ == key@;
                        lemma_key_less_order(key@, key@, key@);
                        if j < p {
                            assert(key_less(before[j].0@, key@));
                        } else {
                            assert(key_less(key@, before[j].0@));
                        }
                    }
                }
                assert forall|k: Seq<char>| #[trigger] map_of(after).contains_key(k) <==> map_of(before).insert(key@, entry.1).contains_key(k) by {
                    if has_key(before, k) {
                        let j = choose|j: int| 0 <= j < before.len() && #[trigger] before[j].0@ == k;
                        if j < p {
                            assert(after[j].0@ == k);
                        } else {
                            assert(after[j + 1].0@ == k);
                        }
                    }
                    if has_key(after, k) {
                        let j = choose|j: int| 0 <= j < after.len() && #[trigger] after[j].0@ == k;
                        if j < p {
                            assert(before[j].0@ == k);
                        } else if j > p {
                            assert(before[j - 1].0@ == k);
                        }
                    }
                }
                assert forall|k: Seq<char>| map_of(after).contains_key(k) implies #[trigger] map_of(after)[k] == map_of(before).insert(key@, entry.1)[k] by {
                    let j = position_of(after, k);
                    if j == p {
                        lemma_map_of_at(after, p as int);
                    } else {
                        let j0 = if j < p { j } else { j - 1 };
                        assert(after[j] == before[j0]);
                        lemma_map_of_at(before, j0);
                        lemma_map_of_at(after, j);
                    }
                }
                assert(map_of(after) =~= map_of(before).insert(key@, entry.1));
            }
        }
        proof {
            assert(map_of(entries@) == map_of(before).insert(key@, entry.1));
            assert(map_of(entries@).map_values(|v: String| v@) =~= map_of(before).map_values(|v: String| v@).insert(
                key@,
                value@,
            ));
        }
        self.entries = entries;
    }

    /// The value stored under `key`, if any.
    pub fn get(&self, key: &str) -> (value: Option<&String>)
        ensures
            match value {
                Some(v) => self@.contains_key(key@) && v@ == self@[key@],
                None => !self@.contains_key(key@),
            },
    {
        proof {
            use_type_invariant(self);
            lemma_sorted_distinct(self.entries@);
        }
        let mut i: usize = 0;
        while i < self.entries.len()
            invariant
                i <= self.entries@.len(),
                distinct_keys(self.entries@),
                forall|j: int| 0 <= j < i ==> #[trigger] self.entries@[j].0@ != key@,
            decreases self.entries.len() - i,
        {
            if compare_keys(self.entries[i].0.as_str(), key) == 0 {
                proof {
                    lemma_map_of_at(self.entries@, i as int);
                }
                return Some(&self.entries[i].1);
            }
            i = i + 1;
        }
        None
    }

    /// The number of keys.
    pub fn len(&self) -> (count: usize)
        ensures
            count == self@.len(),
    {
        proof {
            use_type_invariant(self);
            lemma_sorted_distinct(self.entries@);
            self.lemma_key_order();
        }
        self.entries.len()
    }

    /// The key order lists every key once, in ascending string order.
    pub proof fn lemma_key_order(&self)
        requires
            self.well_formed(),
        ensures
            self.key_order().len() == self@.dom().len(),
            self.key_order().to_set() == self@.dom(),
            forall|i: int, j: int| 0 <= i < j < self.key_order().len() ==> key_less(#[trigger] self.key_order()[i], #[trigger] self.key_order()[j]),
    {
        let e = self.entries@;
        let ks = self.key_order();
        lemma_sorted_distinct(e);
        assert(ks.no_duplicates()) by {
            assert forall|i: int, j: int| 0 <= i < ks.len() && 0 <= j < ks.len() && i != j implies ks[i] != ks[j] by {
                assert(ks[i] == e[i].0@);
                assert(ks[j] == e[j].0@);
            }
        }
        assert forall|k: Seq<char>| #[trigger] self@.dom().contains(k) <==> ks.to_set().contains(k) by {
            if self@.dom().contains(k) {
                let i = position_of(e, k);
                assert(ks[i] == k);
            }
            if ks.to_set().contains(k) {
                let i = choose|i: int| 0 <= i < ks.len() && ks[i] == k;
                assert(e[i].0@ == k);
            }
        }
        assert(ks.to_set() =~= self@.dom());
        ks.unique_seq_to_set();
        assert forall|i: int, j: int| 0 <= i < j < ks.len() implies key_less(#[trigger] ks[i], #[trigger] ks[j]) by {
            assert(ks[i] == e[i].0@ && ks[j] == e[j].0@);
        }
    }

    /// The keys, each once, in ascending string order.
    pub fn keys(&self) -> (keys: Vec<&String>)
        ensures
            keys@.len() == self.key_order().len(),
            forall|i: int| 0 <= i < keys@.len() ==> #[trigger] keys@[i]@ == self.key_order()[i],
    {
        let mut keys: Vec<&String> = Vec::new();
        let mut i: usize = 0;
        while i < self.entries.len()
            invariant
                i <= self.entries@.len(),
                keys@.len() == i,
                forall|j: int| 0 <= j < i ==> #[trigger] keys@[j]@ == self.key_order()[j],
            decreases self.entries.len() - i,
        {
            keys.push(&self.entries[i].0);
            i = i + 1;
        }
        keys
    }
}

impl Clone for Metadata {
    /// A copy with the same keys, in the same order, and copies of the values.
    fn clone(&self) -> (copy: Self)
        ensures
            copy@ == self@,
            copy.key_order() == self.key_order(),
    {
        proof {
            use_type_invariant(self);
        }
        let mut entries: Vec<(String, String)> = Vec::new();
        let mut i: usize = 0;
        while i < self.entries.len()
            invariant
                i <= self.entries@.len(),
                sorted_keys(self.entries@),
                entries@.len() == i,
                forall|j: int| 0 <= j < i ==> #[trigger] entries@[j].0@ == self.entries@[j].0@,
                forall|j: int| 0 <= j < i ==> #[trigger] entries@[j].1@ == self.entries@[j].1@,
            decreases self.entries.len() - i,
        {
            let key = self.entries[i].0.clone();
            let value = self.entries[i].1.clone();
            entries.push((key, value));
            i = i + 1;
        }
        proof {
            let a = entries@;
            let b = self.entries@;
            assert forall|x: int, y: int| 0 <= x < y < a.len() implies key_less(#[trigger] a[x].0@, #[trigger] a[y].0@) by {
                assert(a[x].0@ == b[x].0@ && a[y].0@ == b[y].0@);
            }
            lemma_sorted_distinct(a);
            lemma_sorted_distinct(b);
            assert forall|k: Seq<char>| #[trigger] map_of(a).contains_key(k) <==> map_of(b).contains_key(k) by {
                if has_key(a, k) {
                    let j = choose|j: int| 0 <= j < a.len() && #[trigger] a[j].0@ == k;
                    assert(b[j].0@ == k);
                }
                if has_key(b, k) {
                    let j = choose|j: int| 0 <= j < b.len() && #[trigger] b[j].0@ == k;
                    assert(a[j].0@ == k);
                }
            }
            assert forall|k: Seq<char>| map_of(a).contains_key(k) implies #[trigger] map_of(a)[k]@ == map_of(b)[k]@ by {
                let j = position_of(a, k);
                assert(b[j].0@ == k);
                lemma_map_of_at(a, j);
                lemma_map_of_at(b, j);
            }
        }
        let copy = Metadata { entries };
        proof {
            assert(copy@ =~= self@);
            assert(copy.key_order() =~= self.key_order());
        }
        copy
    }
}

} // verus!
