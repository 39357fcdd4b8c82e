//! Sorting by timestamp without reordering what shares a timestamp.

use vstd::prelude::*;

verus! {

/// A value that happens at a moment.
pub trait Timestamped {
    /// The moment, in the unit of the stage that holds the value.
    spec fn timestamp(&self) -> u64;

    /// The moment at which the value happens.
    fn get_timestamp(&self) -> (t: u64)
        ensures
            t == self.timestamp(),
    ;
}

/// The key by which values with a timestamp are ordered.
pub open spec fn time_key<T: Timestamped>() -> spec_fn(T) -> u64 {
    |e: T| e.timestamp()
}

/// No element has a smaller key than one before it.
pub open spec fn is_sorted_by<T>(s: Seq<T>, key: spec_fn(T) -> u64) -> bool {
    forall|i: int, j: int| 0 <= i <= j < s.len() ==> key(s[i]) <= key(s[j])
}

/// Where an element of key `k` joins `s`: behind the last element whose key is
/// at most `k`, or in front where there is none.
pub open spec fn insertion_point<T>(s: Seq<T>, key: spec_fn(T) -> u64, k: u64) -> int
    decreases s.len(),
{
    if s.len() == 0 {
        0
    } else if key(s.last()) <= k {
        s.len() as int
    } else {
        insertion_point(s.drop_last(), key, k)
    }
}

/// The elements of `s` in ascending order of key, elements of equal key in
/// the order they have in `s`.
pub open spec fn sort_by_key<T>(s: Seq<T>, key: spec_fn(T) -> u64) -> Seq<T>
    decreases s.len(),
{
    if s.len() == 0 {
        s
    } else {
        let sorted = sort_by_key(s.drop_last(), key);
        sorted.insert(insertion_point(sorted, key, key(s.last())), s.last())
    }
}

/// The test that an element has key `k`.
pub open spec fn has_key<T>(key: spec_fn(T) -> u64, k: u64) -> spec_fn(T) -> bool {
    |e: T| key(e) == k
}

/// Every element from the insertion point on has a key above `k`, and the
/// element just before it, if there is one, has a key of at most `k`.
pub proof fn lemma_insertion_point<T>(s: Seq<T>, key: spec_fn(T) -> u64, k: u64)
    ensures
        0 <= insertion_point(s, key, k) <= s.len(),
        forall|i: int| insertion_point(s, key, k) <= i < s.len() ==> key(#[trigger] s[i]) > k,
        insertion_point(s, key, k) > 0 ==> key(s[insertion_point(s, key, k) - 1]) <= k,
    decreases s.len(),
{
    if s.len() > 0 && key(s.last()) > k {
        let rest = s.drop_last();
        lemma_insertion_point(rest, key, k);
        assert forall|i: int| insertion_point(s, key, k) <= i < s.len() implies key(
            #[trigger] s[i],
        ) > k by {
            if i < rest.len() {
                assert(s[i] == rest[i]);
            }
        }
        if insertion_point(s, key, k) > 0 {
            assert(s[insertion_point(s, key, k) - 1] == rest[insertion_point(rest, key, k) - 1]);
        }
    }
}

/// Sorting keeps the number of elements and leaves them in ascending order of
/// key.
pub proof fn lemma_sort_is_sorted<T>(s: Seq<T>, key: spec_fn(T) -> u64)
    ensures
        sort_by_key(s, key).len() == s.len(),
        is_sorted_by(sort_by_key(s, key), key),
    decreases s.len(),
{
    if s.len() > 0 {
        let sorted = sort_by_key(s.drop_last(), key);
        let k = key(s.last());
        let p = insertion_point(sorted, key, k);
        lemma_sort_is_sorted(s.drop_last(), key);
        lemma_insertion_point(sorted, key, k);
        let r = sorted.insert(p, s.last());
        sorted.insert_ensures(p, s.last());
        assert forall|i: int, j: int| 0 <= i <= j < r.len() implies key(r[i]) <= key(r[j]) by {
            if i < p {
                assert(r[i] == sorted[i]);
                assert(key(sorted[i]) <= key(sorted[p - 1]));
            } else if i > p {
                assert(r[i] == sorted[i - 1]);
            }
            if j < p {
                assert(r[j] == sorted[j]);
            } else if j > p {
                assert(r[j] == sorted[j - 1]);
            }
        }
    }
}

/// Sorting neither adds an element nor loses one.
pub proof fn lemma_sort_is_permutation<T>(s: Seq<T>, key: spec_fn(T) -> u64)
    ensures
        sort_by_key(s, key).to_multiset() == s.to_multiset(),
    decreases s.len(),
{
    if s.len() > 0 {
        let sorted = sort_by_key(s.drop_last(), key);
        let p = insertion_point(sorted, key, key(s.last()));
        lemma_sort_is_permutation(s.drop_last(), key);
        lemma_insertion_point(sorted, key, key(s.last()));
        vstd::seq_lib::to_multiset_insert(sorted, p, s.last());
        vstd::seq_lib::to_multiset_build(s.drop_last(), s.last());
        assert(s.drop_last().push(s.last()) == s);
    }
}

/// Sorting is stable: the elements of any one key come out in the order in
/// which they went in.
pub proof fn lemma_sort_is_stable<T>(s: Seq<T>, key: spec_fn(T) -> u64, k: u64)
    ensures
        sort_by_key(s, key).filter(has_key(key, k)) == s.filter(has_key(key, k)),
    decreases s.len(),
{
    let pred = has_key(key, k);
    if s.len() > 0 {
        let rest = s.drop_last();
        let x = s.last();
        let sorted = sort_by_key(rest, key);
        let p = insertion_point(sorted, key, key(x));
        lemma_sort_is_stable(rest, key, k);
        lemma_insertion_point(sorted, key, key(x));
        let front = sorted.subrange(0, p);
        let back = sorted.subrange(p, sorted.len() as int);
        assert(sorted == front + back);
        assert(sorted.insert(p, x) == front.push(x) + back);
        Seq::filter_distributes_over_add(front, back, pred);
        Seq::filter_distributes_over_add(front.push(x), back, pred);
        front.lemma_filter_push(x, pred);
        rest.lemma_filter_push(x, pred);
        assert(rest.push(x) == s);
        if pred(x) {
            assert(back.all(|e: T| !pred(e))) by {
                assert forall|i: int| 0 <= i < back.len() implies !pred(#[trigger] back[i]) by {
                    assert(back[i] == sorted[p + i]);
                }
            }
            back.lemma_all_neg_filter_empty(pred);
            assert(back.filter(pred) == Seq::<T>::empty());
            assert(front.filter(pred) + back.filter(pred) == front.filter(pred));
            assert(front.filter(pred).push(x) + back.filter(pred) == front.filter(pred).push(x));
        }
    }
}

/// Two sorted sequences that hold, for every key, the same elements of that
/// key in the same order are one sequence.
pub proof fn lemma_sorted_and_stable_is_unique<T>(a: Seq<T>, b: Seq<T>, key: spec_fn(T) -> u64)
    requires
        is_sorted_by(a, key),
        is_sorted_by(b, key),
        forall|k: u64| #[trigger] a.filter(has_key(key, k)) == b.filter(has_key(key, k)),
    ensures
        a == b,
    decreases a.len(),
{
    reveal(Seq::filter);
    if a.len() == 0 {
        if b.len() > 0 {
            let k = key(b[0]);
            b.lemma_filter_contains(has_key(key, k), 0);
            assert(a.filter(has_key(key, k)) == b.filter(has_key(key, k)));
        }
        assert(a =~= b);
    } else {
        let x = a.last();
        let in_a = a.filter(has_key(key, key(x)));
        assert(in_a == b.filter(has_key(key, key(x))));
        assert(in_a.last() == x);
        // `x` stands in `b`, so `b` ends on a key that is no smaller
        assert(in_a.contains(in_a.last()));
        b.lemma_filter_contains_rev(has_key(key, key(x)), x);
        let at_b = choose|i: int| 0 <= i < b.len() && b[i] == x;
        assert(key(b[at_b]) <= key(b[b.len() - 1]));
        let y = b.last();
        let in_b = b.filter(has_key(key, key(y)));
        assert(a.filter(has_key(key, key(y))) == in_b);
        assert(in_b.last() == y);
        // and `y` stands in `a`, so both end on the same key
        assert(in_b.contains(in_b.last()));
        a.lemma_filter_contains_rev(has_key(key, key(y)), y);
        let at_a = choose|i: int| 0 <= i < a.len() && a[i] == y;
        assert(key(a[at_a]) <= key(a[a.len() - 1]));
        assert(x == y);

        let rest_a = a.drop_last();
        let rest_b = b.drop_last();
        assert forall|i: int, j: int| 0 <= i <= j < rest_a.len() implies key(rest_a[i]) <= key(
            rest_a[j],
        ) by {
            assert(rest_a[i] == a[i] && rest_a[j] == a[j]);
        }
        assert forall|i: int, j: int| 0 <= i <= j < rest_b.len() implies key(rest_b[i]) <= key(
            rest_b[j],
        ) by {
            assert(rest_b[i] == b[i] && rest_b[j] == b[j]);
        }
        assert forall|k: u64| #[trigger]
            rest_a.filter(has_key(key, k)) == rest_b.filter(has_key(key, k)) by {
            assert(a.filter(has_key(key, k)) == b.filter(has_key(key, k)));
            if k == key(x) {
                assert(rest_a.filter(has_key(key, k)) == a.filter(has_key(key, k)).drop_last());
                assert(rest_b.filter(has_key(key, k)) == b.filter(has_key(key, k)).drop_last());
            }
        }
        lemma_sorted_and_stable_is_unique(rest_a, rest_b, key);
        assert(a == rest_a.push(x));
        assert(b == rest_b.push(y));
    }
}

/// What sorting gives is the one sequence that is sorted and holds, for every
/// key, the elements of that key in the order given.
pub proof fn lemma_sort_is_the_stable_sort<T>(s: Seq<T>, sorted: Seq<T>, key: spec_fn(T) -> u64)
    requires
        is_sorted_by(sorted, key),
        forall|k: u64| #[trigger] sorted.filter(has_key(key, k)) == s.filter(has_key(key, k)),
    ensures
        sorted == sort_by_key(s, key),
{
    lemma_sort_is_sorted(s, key);
    assert forall|k: u64| #[trigger]
        sorted.filter(has_key(key, k)) == sort_by_key(s, key).filter(has_key(key, k)) by {
        lemma_sort_is_stable(s, key, k);
    }
    lemma_sorted_and_stable_is_unique(sorted, sort_by_key(s, key), key);
}

/// Sorting commutes with a mapping that keeps every key.
pub proof fn lemma_sort_map_values<A, B>(
    s: Seq<A>,
    f: spec_fn(A) -> B,
    key_a: spec_fn(A) -> u64,
    key_b: spec_fn(B) -> u64,
)
    requires
        forall|i: int| 0 <= i < s.len() ==> key_b(f(#[trigger] s[i])) == key_a(s[i]),
    ensures
        sort_by_key(s, key_a).map_values(f) == sort_by_key(s.map_values(f), key_b),
    decreases s.len(),
{
    if s.len() == 0 {
        assert(s.map_values(f) == Seq::<B>::empty());
        assert(sort_by_key(s, key_a).map_values(f) == Seq::<B>::empty());
    } else {
        let rest = s.drop_last();
        let x = s.last();
        assert(s.map_values(f).drop_last() == rest.map_values(f));
        assert(s.map_values(f).last() == f(x));
        assert forall|i: int| 0 <= i < rest.len() implies key_b(f(#[trigger] rest[i])) == key_a(
            rest[i],
        ) by {
            assert(rest[i] == s[i]);
        }
        lemma_sort_map_values(rest, f, key_a, key_b);
        let sorted_a = sort_by_key(rest, key_a);
        let sorted_b = sort_by_key(rest.map_values(f), key_b);
        lemma_sort_is_permutation(rest, key_a);
        assert forall|i: int| 0 <= i < sorted_a.len() implies key_b(f(#[trigger] sorted_a[i]))
            == key_a(sorted_a[i]) by {
            vstd::seq_lib::to_multiset_contains(sorted_a, sorted_a[i]);
            vstd::seq_lib::to_multiset_contains(rest, sorted_a[i]);
            assert(sorted_a.contains(sorted_a[i]));
            let j = choose|j: int| 0 <= j < rest.len() && rest[j] == sorted_a[i];
            assert(rest[j] == s[j]);
        }
        lemma_insertion_point_map_values(sorted_a, f, key_a, key_b, key_a(x));
        let p = insertion_point(sorted_a, key_a, key_a(x));
        lemma_insertion_point(sorted_a, key_a, key_a(x));
        assert(sorted_a.insert(p, x).map_values(f) == sorted_a.map_values(f).insert(p, f(x)));
    }
}

/// The insertion point is that of the mapped sequence where the mapping keeps
/// every key.
pub proof fn lemma_insertion_point_map_values<A, B>(
    s: Seq<A>,
    f: spec_fn(A) -> B,
    key_a: spec_fn(A) -> u64,
    key_b: spec_fn(B) -> u64,
    k: u64,
)
    requires
        forall|i: int| 0 <= i < s.len() ==> key_b(f(#[trigger] s[i])) == key_a(s[i]),
    ensures
        insertion_point(s, key_a, k) == insertion_point(s.map_values(f), key_b, k),
    decreases s.len(),
{
    if s.len() > 0 {
        assert(s.map_values(f).drop_last() == s.drop_last().map_values(f));
        assert(s.map_values(f).last() == f(s.last()));
        assert(s.last() == s[s.len() - 1]);
        assert forall|i: int| 0 <= i < s.drop_last().len() implies key_b(
            f(#[trigger] s.drop_last()[i]),
        ) == key_a(s.drop_last()[i]) by {
            assert(s.drop_last()[i] == s[i]);
        }
        lemma_insertion_point_map_values(s.drop_last(), f, key_a, key_b, k);
    }
}

/// What is left of a sorted sequence when elements are taken out is sorted.
pub proof fn lemma_filter_keeps_sorted<T>(
    s: Seq<T>,
    key: spec_fn(T) -> u64,
    pred: spec_fn(T) -> bool,
)
    requires
        is_sorted_by(s, key),
    ensures
        is_sorted_by(s.filter(pred), key),
    decreases s.len(),
{
    reveal(Seq::filter);
    if s.len() > 0 {
        let rest = s.drop_last();
        assert forall|i: int, j: int| 0 <= i <= j < rest.len() implies key(rest[i]) <= key(
            rest[j],
        ) by {
            assert(rest[i] == s[i] && rest[j] == s[j]);
        }
        lemma_filter_keeps_sorted(rest, key, pred);
        let kept = rest.filter(pred);
        if pred(s.last()) {
            assert forall|i: int, j: int| 0 <= i <= j < kept.len() + 1 implies key(
                kept.push(s.last())[i],
            ) <= key(kept.push(s.last())[j]) by {
                if j == kept.len() && i < kept.len() {
                    assert(kept.contains(kept[i]));
                    rest.lemma_filter_contains_rev(pred, kept[i]);
                    let k = choose|k: int| 0 <= k < rest.len() && rest[k] == kept[i];
                    assert(rest[k] == s[k]);
                    assert(key(s[k]) <= key(s[s.len() - 1]));
                }
            }
        }
    }
}

/// Where no element passes the test, none is left.
pub proof fn lemma_filter_none<T>(s: Seq<T>, pred: spec_fn(T) -> bool)
    requires
        forall|i: int| 0 <= i < s.len() ==> !pred(#[trigger] s[i]),
    ensures
        s.filter(pred) == Seq::<T>::empty(),
    decreases s.len(),
{
    reveal(Seq::filter);
    if s.len() > 0 {
        assert forall|i: int| 0 <= i < s.drop_last().len() implies !pred(
            #[trigger] s.drop_last()[i],
        ) by {
            assert(s.drop_last()[i] == s[i]);
        }
        lemma_filter_none(s.drop_last(), pred);
    }
}

/// Merges two sorted sequences into one; of two values of equal timestamp,
/// one of `a` comes before one of `b`.
fn merge_by_time<T: Timestamped>(a: Vec<T>, b: Vec<T>) -> (merged: Vec<T>)
    requires
        is_sorted_by(a@, time_key::<T>()),
        is_sorted_by(b@, time_key::<T>()),
    ensures
        is_sorted_by(merged@, time_key::<T>()),
        forall|k: u64| #[trigger]
            merged@.filter(has_key(time_key::<T>(), k)) == a@.filter(has_key(time_key::<T>(), k))
                + b@.filter(has_key(time_key::<T>(), k)),
{
    let ghost key = time_key::<T>();
    let ghost a0 = a@;
    let ghost b0 = b@;
    let mut a = a;
    let mut b = b;
    // the end of the merged sequence, its last element first
    let mut rev: Vec<T> = Vec::new();
    let ghost mut tail: Seq<T> = Seq::empty();
    proof {
        assert(a0.take(a0.len() as int) == a0);
        assert(b0.take(b0.len() as int) == b0);
        assert forall|k: u64| #[trigger]
            tail.filter(has_key(key, k)) == a0.skip(a0.len() as int).filter(has_key(key, k))
                + b0.skip(b0.len() as int).filter(has_key(key, k)) by {
            reveal(Seq::filter);
        }
    }
    while a.len() > 0 || b.len() > 0
        invariant
            key == time_key::<T>(),
            a@.len() <= a0.len(),
            b@.len() <= b0.len(),
            a@ == a0.take(a@.len() as int),
            b@ == b0.take(b@.len() as int),
            is_sorted_by(a0, key),
            is_sorted_by(b0, key),
            rev@.reverse() == tail,
            is_sorted_by(tail, key),
            forall|i: int|
                0 <= i < a@.len() && tail.len() > 0 ==> key(#[trigger] a0[i]) <= key(tail[0]),
            forall|j: int|
                0 <= j < b@.len() && tail.len() > 0 ==> key(#[trigger] b0[j]) <= key(tail[0]),
            forall|i: int, j: int|
                a@.len() <= i < a0.len() && 0 <= j < b@.len() ==> key(#[trigger] a0[i]) > key(
                    #[trigger] b0[j],
                ),
            forall|k: u64| #[trigger]
                tail.filter(has_key(key, k)) == a0.skip(a@.len() as int).filter(has_key(key, k))
                    + b0.skip(b@.len() as int).filter(has_key(key, k)),
        decreases a.len() + b.len(),
    {
        let ghost i = a@.len() as int;
        let ghost j = b@.len() as int;
        let ghost before = tail;
        let from_a = if b.len() == 0 {
            true
        } else if a.len() == 0 {
            false
        } else {
            a[a.len() - 1].get_timestamp() > b[b.len() - 1].get_timestamp()
        };
        if from_a {
            let x = a.pop().unwrap();
            proof {
                tail = seq![x] + before;
                assert(a0.skip(i - 1) == seq![x] + a0.skip(i));
                assert forall|k: u64| #[trigger]
                    tail.filter(has_key(key, k)) == a0.skip(i - 1).filter(has_key(key, k))
                        + b0.skip(j).filter(has_key(key, k)) by {
                    before.lemma_filter_prepend(x, has_key(key, k));
                    a0.skip(i).lemma_filter_prepend(x, has_key(key, k));
                    assert(before.filter(has_key(key, k)) == a0.skip(i).filter(has_key(key, k))
                        + b0.skip(j).filter(has_key(key, k)));
                    let head = if has_key(key, k)(x) {
                        seq![x]
                    } else {
                        Seq::<T>::empty()
                    };
                    assert(head + (a0.skip(i).filter(has_key(key, k)) + b0.skip(j).filter(
                        has_key(key, k),
                    )) == head + a0.skip(i).filter(has_key(key, k)) + b0.skip(j).filter(
                        has_key(key, k),
                    ));
                }
            }
            rev.push(x);
        } else {
            let y = b.pop().unwrap();
            proof {
                tail = seq![y] + before;
                assert(b0.skip(j - 1) == seq![y] + b0.skip(j));
                assert forall|k: u64| #[trigger]
                    tail.filter(has_key(key, k)) == a0.skip(i).filter(has_key(key, k))
                        + b0.skip(j - 1).filter(has_key(key, k)) by {
                    before.lemma_filter_prepend(y, has_key(key, k));
                    b0.skip(j).lemma_filter_prepend(y, has_key(key, k));
                    assert(before.filter(has_key(key, k)) == a0.skip(i).filter(has_key(key, k))
                        + b0.skip(j).filter(has_key(key, k)));
                    if has_key(key, k)(y) {
                        // no element of `a` behind has the key of `y`
                        lemma_filter_none(a0.skip(i), has_key(key, k));
                        assert(seq![y] + (Seq::<T>::empty() + b0.skip(j).filter(has_key(key, k)))
                            == Seq::<T>::empty() + (seq![y] + b0.skip(j).filter(
                            has_key(key, k),
                        )));
                    } else {
                        assert(Seq::<T>::empty() + before.filter(has_key(key, k)) == before.filter(
                            has_key(key, k),
                        ));
                        assert(Seq::<T>::empty() + b0.skip(j).filter(has_key(key, k)) == b0.skip(
                            j,
                        ).filter(has_key(key, k)));
                    }
                }
            }
            rev.push(y);
        }
    }
    let mut merged: Vec<T> = Vec::new();
    while rev.len() > 0
        invariant
            merged@ + rev@.reverse() == tail,
        decreases rev.len(),
    {
        let x = rev.pop().unwrap();
        merged.push(x);
    }
    merged
}

/// Sorts by timestamp; values of equal timestamp keep their order.
pub fn sort_by_time<T: Timestamped>(v: Vec<T>) -> (r: Vec<T>)
    ensures
        r@ == sort_by_key(v@, time_key::<T>()),
    decreases v@.len(),
{
    let ghost key = time_key::<T>();
    let ghost given = v@;
    if v.len() <= 1 {
        proof {
            if given.len() == 1 {
                assert(sort_by_key(given.drop_last(), key) == Seq::<T>::empty());
            }
        }
        return v;
    }
    let mut first = v;
    let middle = first.len() / 2;
    let second = first.split_off(middle);
    let ghost left = first@;
    let ghost right = second@;
    let first = sort_by_time(first);
    let second = sort_by_time(second);
    proof {
        lemma_sort_is_sorted(left, key);
        lemma_sort_is_sorted(right, key);
    }
    let merged = merge_by_time(first, second);
    proof {
        assert(given == left + right);
        assert forall|k: u64| #[trigger]
            merged@.filter(has_key(key, k)) == given.filter(has_key(key, k)) by {
            lemma_sort_is_stable(left, key, k);
            lemma_sort_is_stable(right, key, k);
            Seq::filter_distributes_over_add(left, right, has_key(key, k));
        }
        lemma_sort_is_the_stable_sort(given, merged@, key);
    }
    merged
}

} // verus!
