//! A stable sort by an integer score, as a mathematical function, with
//! its laws.

use vstd::prelude::*;

verus! {

/// Where a new item with score `score` goes in a list sorted by `key`:
/// behind the last item whose score is not larger.
pub open spec fn insertion_point<T>(s: Seq<T>, score: int, key: spec_fn(T) -> int) -> int
    decreases s.len(),
{
    if s.len() == 0 {
        0
    } else if key(s.last()) <= score {
        s.len() as int
    } else {
        insertion_point(s.drop_last(), score, key)
    }
}

/// The items of `s` in ascending order of `key`, items of equal score in
/// the order they have in `s`.
pub open spec fn stable_sort_by<T>(s: Seq<T>, key: spec_fn(T) -> int) -> Seq<T>
    decreases s.len(),
{
    if s.len() == 0 {
        Seq::empty()
    } else {
        let sorted = stable_sort_by(s.drop_last(), key);
        sorted.insert(insertion_point(sorted, key(s.last()), key), s.last())
    }
}

/// The insertion point lies within the list.
pub proof fn lemma_insertion_point_range<T>(s: Seq<T>, score: int, key: spec_fn(T) -> int)
    ensures
        0 <= insertion_point(s, score, key) <= s.len(),
    decreases s.len(),
{
    if s.len() > 0 && key(s.last()) > score {
        lemma_insertion_point_range(s.drop_last(), score, key);
    }
}

/// In a sorted list, everything before the insertion point scores at most
/// `score` and everything from it on scores more.
pub proof fn lemma_insertion_point_splits<T>(s: Seq<T>, score: int, key: spec_fn(T) -> int)
    requires
        forall|i: int, j: int| 0 <= i <= j < s.len() ==> key(s[i]) <= key(s[j]),
    ensures
        forall|i: int| 0 <= i < insertion_point(s, score, key) ==> key(#[trigger] s[i]) <= score,
        forall|i: int|
            insertion_point(s, score, key) <= i < s.len() ==> key(#[trigger] s[i]) > score,
    decreases s.len(),
{
    if s.len() > 0 {
        if key(s.last()) <= score {
            assert forall|i: int| 0 <= i < s.len() implies key(#[trigger] s[i]) <= score by {
                assert(key(s[i]) <= key(s[s.len() - 1]));
            }
        } else {
            let t = s.drop_last();
            assert forall|i: int, j: int| 0 <= i <= j < t.len() implies key(t[i]) <= key(t[j]) by {
                assert(t[i] == s[i] && t[j] == s[j]);
            }
            lemma_insertion_point_splits(t, score, key);
            lemma_insertion_point_range(t, score, key);
            assert forall|i: int| 0 <= i < insertion_point(s, score, key) implies key(
                #[trigger] s[i],
            ) <= score by {
                assert(t[i] == s[i]);
            }
            assert forall|i: int| insertion_point(s, score, key) <= i < s.len() implies key(
                #[trigger] s[i],
            ) > score by {
                if i < t.len() {
                    assert(t[i] == s[i]);
                }
            }
        }
    }
}

/// The ranking is ascending in score and keeps exactly the items it was
/// given, each as often as it occurred.
pub proof fn lemma_stable_sort_by<T>(s: Seq<T>, key: spec_fn(T) -> int)
    ensures
        stable_sort_by(s, key).len() == s.len(),
        stable_sort_by(s, key).to_multiset() == s.to_multiset(),
        forall|i: int, j: int|
            0 <= i <= j < s.len() ==> key(stable_sort_by(s, key)[i]) <= key(
                stable_sort_by(s, key)[j],
            ),
    decreases s.len(),
{
    broadcast use vstd::seq_lib::group_to_multiset_ensures;

    if s.len() == 0 {
        assert(stable_sort_by(s, key) =~= s);
    } else {
        let rest = s.drop_last();
        let x = s.last();
        let sorted = stable_sort_by(rest, key);
        let at = insertion_point(sorted, key(x), key);
        let out = stable_sort_by(s, key);
        lemma_stable_sort_by(rest, key);
        lemma_insertion_point_range(sorted, key(x), key);
        lemma_insertion_point_splits(sorted, key(x), key);
        assert(out == sorted.insert(at, x));
        assert(s =~= rest.push(x));
        vstd::seq_lib::to_multiset_insert(sorted, at, x);
        assert(out.to_multiset() =~= s.to_multiset());
        assert forall|i: int, j: int| 0 <= i <= j < s.len() implies key(out[i]) <= key(out[j]) by {
            if j < at {
                assert(out[i] == sorted[i] && out[j] == sorted[j]);
            } else if j == at {
                if i < at {
                    assert(out[i] == sorted[i]);
                }
            } else {
                assert(out[j] == sorted[j - 1]);
                if i < at {
                    assert(out[i] == sorted[i]);
                } else if i > at {
                    assert(out[i] == sorted[i - 1]);
                }
            }
        }
    }
}

/// The test for items of a given score.
pub open spec fn has_score<T>(key: spec_fn(T) -> int, score: int) -> spec_fn(T) -> bool {
    |item: T| key(item) == score
}

proof fn lemma_filter_none<T>(s: Seq<T>, pred: spec_fn(T) -> bool)
    requires
        forall|i: int| 0 <= i < s.len() ==> !pred(#[trigger] s[i]),
    ensures
        s.filter(pred) == Seq::<T>::empty(),
    decreases s.len(),
{
    reveal(Seq::filter);
    if s.len() > 0 {
        let front = s.drop_last();
        assert forall|i: int| 0 <= i < front.len() implies !pred(#[trigger] front[i]) by {
            assert(front[i] == s[i]);
        }
        lemma_filter_none(front, pred);
        assert(!pred(s[s.len() - 1]));
    } else {
        assert(s.filter(pred) =~= Seq::<T>::empty());
    }
}

/// The ranking is stable: the items of any one score come out in the
/// order in which they went in.
pub proof fn lemma_sort_is_stable<T>(s: Seq<T>, key: spec_fn(T) -> int, score: int)
    ensures
        stable_sort_by(s, key).filter(has_score(key, score)) == s.filter(has_score(key, score)),
    decreases s.len(),
{
    let pred = has_score(key, score);
    if s.len() == 0 {
        assert(stable_sort_by(s, key) =~= s);
    } else {
        let rest = s.drop_last();
        let x = s.last();
        let sorted = stable_sort_by(rest, key);
        let at = insertion_point(sorted, key(x), key);
        let out = stable_sort_by(s, key);
        lemma_sort_is_stable(rest, key, score);
        lemma_stable_sort_by(rest, key);
        lemma_insertion_point_range(sorted, key(x), key);
        lemma_insertion_point_splits(sorted, key(x), key);
        let front = sorted.take(at);
        let back = sorted.skip(at);
        assert(sorted =~= front + back);
        assert(out =~= front.push(x) + back);
        assert(s =~= rest.push(x));
        Seq::filter_distributes_over_add(front, back, pred);
        Seq::filter_distributes_over_add(front.push(x), back, pred);
        front.lemma_filter_push(x, pred);
        rest.lemma_filter_push(x, pred);
        if pred(x) {
            assert forall|i: int| 0 <= i < back.len() implies !pred(#[trigger] back[i]) by {
                assert(back[i] == sorted[at + i]);
            }
            lemma_filter_none(back, pred);
            assert(front.filter(pred) + Seq::<T>::empty() =~= front.filter(pred));
            assert(front.filter(pred).push(x) + Seq::<T>::empty() =~= front.filter(pred).push(x));
        }
    }
}

} // verus!
