//! The first and the last element of a sequence that pass a test.

use vstd::prelude::*;

verus! {

/// The index of the first element of `s` that passes `pred`.
pub open spec fn first_index_where<T>(s: Seq<T>, pred: spec_fn(T) -> bool) -> Option<int>
    decreases s.len(),
{
    if s.len() == 0 {
        None
    } else {
        match first_index_where(s.drop_last(), pred) {
            Some(i) => Some(i),
            None => if pred(s.last()) {
                Some(s.len() - 1)
            } else {
                None
            },
        }
    }
}

/// The index of the last element of `s` that passes `pred`.
pub open spec fn last_index_where<T>(s: Seq<T>, pred: spec_fn(T) -> bool) -> Option<int>
    decreases s.len(),
{
    if s.len() == 0 {
        None
    } else if pred(s.last()) {
        Some(s.len() - 1)
    } else {
        last_index_where(s.drop_last(), pred)
    }
}

/// `first_index_where` gives an element that passes the test and has none
/// that passes it before; it gives nothing only where no element passes.
pub proof fn lemma_first_index_where<T>(s: Seq<T>, pred: spec_fn(T) -> bool)
    ensures
        match first_index_where(s, pred) {
            Some(i) => 0 <= i < s.len() && pred(s[i]) && forall|k: int|
                0 <= k < i ==> !pred(#[trigger] s[k]),
            None => forall|k: int| 0 <= k < s.len() ==> !pred(#[trigger] s[k]),
        },
    decreases s.len(),
{
    if s.len() > 0 {
        let rest = s.drop_last();
        lemma_first_index_where(rest, pred);
        match first_index_where(rest, pred) {
            Some(i) => {
                assert(rest[i] == s[i]);
                assert forall|k: int| 0 <= k < i implies !pred(#[trigger] s[k]) by {
                    assert(rest[k] == s[k]);
                }
            },
            None => {
                assert forall|k: int| 0 <= k < s.len() - 1 implies !pred(#[trigger] s[k]) by {
                    assert(rest[k] == s[k]);
                }
            },
        }
    }
}

/// `last_index_where` gives an element that passes the test and has none
/// that passes it behind; it gives nothing only where no element passes.
pub proof fn lemma_last_index_where<T>(s: Seq<T>, pred: spec_fn(T) -> bool)
    ensures
        match last_index_where(s, pred) {
            Some(i) => 0 <= i < s.len() && pred(s[i]) && forall|k: int|
                i < k < s.len() ==> !pred(#[trigger] s[k]),
            None => forall|k: int| 0 <= k < s.len() ==> !pred(#[trigger] s[k]),
        },
    decreases s.len(),
{
    if s.len() > 0 && !pred(s.last()) {
        let rest = s.drop_last();
        lemma_last_index_where(rest, pred);
        match last_index_where(rest, pred) {
            Some(i) => {
                assert(rest[i] == s[i]);
                assert forall|k: int| i < k < s.len() implies !pred(#[trigger] s[k]) by {
                    if k < rest.len() {
                        assert(rest[k] == s[k]);
                    }
                }
            },
            None => {
                assert forall|k: int| 0 <= k < s.len() implies !pred(#[trigger] s[k]) by {
                    if k < rest.len() {
                        assert(rest[k] == s[k]);
                    }
                }
            },
        }
    }
}

/// An element that passes the test and has none that passes it before is the
/// one that `first_index_where` gives.
pub proof fn lemma_first_index_is<T>(s: Seq<T>, pred: spec_fn(T) -> bool, i: int)
    requires
        0 <= i < s.len(),
        pred(s[i]),
        forall|k: int| 0 <= k < i ==> !pred(#[trigger] s[k]),
    ensures
        first_index_where(s, pred) == Some(i),
{
    lemma_first_index_where(s, pred);
}

/// An element that passes the test and has none that passes it behind is the
/// one that `last_index_where` gives.
pub proof fn lemma_last_index_is<T>(s: Seq<T>, pred: spec_fn(T) -> bool, i: int)
    requires
        0 <= i < s.len(),
        pred(s[i]),
        forall|k: int| i < k < s.len() ==> !pred(#[trigger] s[k]),
    ensures
        last_index_where(s, pred) == Some(i),
{
    lemma_last_index_where(s, pred);
}

/// Where no element passes the test, neither search finds one.
pub proof fn lemma_no_index_where<T>(s: Seq<T>, pred: spec_fn(T) -> bool)
    requires
        forall|k: int| 0 <= k < s.len() ==> !pred(#[trigger] s[k]),
    ensures
        first_index_where(s, pred).is_none(),
        last_index_where(s, pred).is_none(),
{
    lemma_first_index_where(s, pred);
    lemma_last_index_where(s, pred);
}

} // verus!
