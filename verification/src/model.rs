//! Helpers for relating collections to the mathematical values they hold.
use vstd::prelude::*;

verus! {

/// The values that the items of a sequence stand for, in order.
pub open spec fn views<T: View>(s: Seq<T>) -> Seq<T::V> {
    Seq::new(s.len(), |i: int| s[i]@)
}

pub broadcast proof fn views_len<T: View>(s: Seq<T>)
    ensures
        #[trigger] views(s).len() == s.len(),
{
}

pub broadcast proof fn views_index<T: View>(s: Seq<T>, i: int)
    requires
        0 <= i < s.len(),
    ensures
        #[trigger] views(s)[i] == s[i]@,
{
}

pub broadcast proof fn views_push<T: View>(s: Seq<T>, x: T)
    ensures
        #[trigger] views(s.push(x)) == views(s).push(x@),
{
    assert(views(s.push(x)) =~= views(s).push(x@));
}

pub broadcast proof fn views_update<T: View>(s: Seq<T>, i: int, x: T)
    requires
        0 <= i < s.len(),
    ensures
        #[trigger] views(s.update(i, x)) == views(s).update(i, x@),
{
    assert(views(s.update(i, x)) =~= views(s).update(i, x@));
}

pub broadcast proof fn views_remove<T: View>(s: Seq<T>, i: int)
    requires
        0 <= i < s.len(),
    ensures
        #[trigger] views(s.remove(i)) == views(s).remove(i),
{
    assert(views(s.remove(i)) =~= views(s).remove(i));
}

pub broadcast proof fn views_subrange<T: View>(s: Seq<T>, i: int, j: int)
    requires
        0 <= i <= j <= s.len(),
    ensures
        #[trigger] views(s.subrange(i, j)) == views(s).subrange(i, j),
{
    assert(views(s.subrange(i, j)) =~= views(s).subrange(i, j));
}

pub broadcast proof fn views_empty<T: View>()
    ensures
        #[trigger] views(Seq::<T>::empty()) == Seq::<T::V>::empty(),
{
    assert(views(Seq::<T>::empty()) =~= Seq::<T::V>::empty());
}

pub broadcast group group_views {
    views_len,
    views_index,
    views_push,
    views_update,
    views_remove,
    views_subrange,
    views_empty,
}

/// One more item.
pub proof fn lemma_take_push<T>(s: Seq<T>, i: int)
    requires
        0 <= i < s.len(),
    ensures
        s.take(i + 1) == s.take(i).push(s[i]),
{
    assert(s.take(i + 1) =~= s.take(i).push(s[i]));
}

/// Appending to the second of two parts.
pub proof fn lemma_add_push<T>(x: Seq<T>, y: Seq<T>, e: T)
    ensures
        x + y.push(e) == (x + y).push(e),
{
    assert(x + y.push(e) =~= (x + y).push(e));
}

/// One more item behind others.
pub proof fn lemma_add_take_push<T>(x: Seq<T>, s: Seq<T>, i: int)
    requires
        0 <= i < s.len(),
    ensures
        x + s.take(i + 1) == (x + s.take(i)).push(s[i]),
{
    assert(x + s.take(i + 1) =~= (x + s.take(i)).push(s[i]));
}

/// `i` is the first position at which `p` holds.
pub open spec fn is_first<T>(s: Seq<T>, p: spec_fn(T) -> bool, i: int) -> bool {
    &&& 0 <= i < s.len()
    &&& p(s[i])
    &&& forall|j: int| 0 <= j < i ==> !p(#[trigger] s[j])
}

/// The first position at which `p` holds, if it holds anywhere.
pub open spec fn first_where<T>(s: Seq<T>, p: spec_fn(T) -> bool) -> Option<int> {
    if exists|i: int| is_first(s, p, i) {
        Some(choose|i: int| is_first(s, p, i))
    } else {
        None
    }
}

/// `p` holds of some item.
pub open spec fn any_where<T>(s: Seq<T>, p: spec_fn(T) -> bool) -> bool {
    exists|i: int| 0 <= i < s.len() && p(#[trigger] s[i])
}

pub proof fn lemma_first_at<T>(s: Seq<T>, p: spec_fn(T) -> bool, i: int)
    requires
        is_first(s, p, i),
    ensures
        first_where(s, p) == Some(i),
{
    let k = choose|k: int| is_first(s, p, k);
    assert(is_first(s, p, k));
    if k < i {
        assert(!p(s[k]));
    } else if i < k {
        assert(!p(s[i]));
    }
}

pub proof fn lemma_first_none<T>(s: Seq<T>, p: spec_fn(T) -> bool)
    requires
        forall|j: int| 0 <= j < s.len() ==> !p(#[trigger] s[j]),
    ensures
        first_where(s, p) is None,
        !any_where(s, p),
{
}

pub proof fn lemma_first_some<T>(s: Seq<T>, p: spec_fn(T) -> bool, k: int)
    requires
        0 <= k < s.len(),
        p(s[k]),
    ensures
        first_where(s, p) is Some,
        is_first(s, p, first_where(s, p)->0),
        first_where(s, p)->0 <= k,
        any_where(s, p),
    decreases k,
{
    if forall|j: int| 0 <= j < k ==> !p(#[trigger] s[j]) {
        assert(is_first(s, p, k));
        lemma_first_at(s, p, k);
    } else {
        let j = choose|j: int| 0 <= j < k && p(#[trigger] s[j]);
        lemma_first_some(s, p, j);
    }
}

/// What `first_where` found is the first, and what it did not find is nowhere.
pub proof fn lemma_first_where<T>(s: Seq<T>, p: spec_fn(T) -> bool)
    ensures
        match first_where(s, p) {
            Some(i) => is_first(s, p, i) && any_where(s, p),
            None => !any_where(s, p) && (forall|j: int| 0 <= j < s.len() ==> !p(#[trigger] s[j])),
        },
{
    if exists|k: int| 0 <= k < s.len() && p(#[trigger] s[k]) {
        let k = choose|k: int| 0 <= k < s.len() && p(#[trigger] s[k]);
        lemma_first_some(s, p, k);
    } else {
        lemma_first_none(s, p);
    }
}

/// The items for which `p` holds, in order.
pub open spec fn keep<T>(s: Seq<T>, p: spec_fn(T) -> bool) -> Seq<T>
    decreases s.len(),
{
    if s.len() == 0 {
        Seq::empty()
    } else if p(s.last()) {
        keep(s.drop_last(), p).push(s.last())
    } else {
        keep(s.drop_last(), p)
    }
}

pub proof fn lemma_keep_step<T>(s: Seq<T>, p: spec_fn(T) -> bool, i: int)
    requires
        0 <= i < s.len(),
    ensures
        keep(s.take(i + 1), p) == if p(s[i]) {
            keep(s.take(i), p).push(s[i])
        } else {
            keep(s.take(i), p)
        },
{
    assert(s.take(i + 1).drop_last() =~= s.take(i));
    assert(s.take(i + 1).last() == s[i]);
}

/// An item survives exactly when it was there and `p` holds of it.
pub proof fn lemma_keep_contains<T>(s: Seq<T>, p: spec_fn(T) -> bool, x: T)
    ensures
        keep(s, p).contains(x) <==> s.contains(x) && p(x),
        keep(s, p).len() <= s.len(),
    decreases s.len(),
{
    if s.len() > 0 {
        let t = s.drop_last();
        lemma_keep_contains(t, p, x);
        let k = keep(t, p);
        if p(s.last()) {
            assert(k.push(s.last())[k.len() as int] == s.last());
            if k.contains(x) {
                let i = choose|i: int| 0 <= i < k.len() && k[i] == x;
                assert(k.push(s.last())[i] == x);
            }
        }
        if t.contains(x) {
            let i = choose|i: int| 0 <= i < t.len() && t[i] == x;
            assert(s[i] == x);
        }
        assert(s[s.len() - 1] == s.last());
        if s.contains(x) && x != s.last() {
            let i = choose|i: int| 0 <= i < s.len() && s[i] == x;
            assert(t[i] == x);
        }
    }
}

/// Keeping again what was kept changes nothing.
pub proof fn lemma_keep_again<T>(s: Seq<T>, p: spec_fn(T) -> bool)
    ensures
        keep(keep(s, p), p) == keep(s, p),
        forall|j: int| 0 <= j < keep(s, p).len() ==> p(#[trigger] keep(s, p)[j]),
    decreases s.len(),
{
    let k = keep(s, p);
    assert forall|j: int| 0 <= j < k.len() implies p(#[trigger] k[j]) by {
        lemma_keep_contains(s, p, k[j]);
        assert(k.contains(k[j]));
    }
    lemma_keep_all(k, p);
}

/// Where nothing is dropped, nothing changes.
pub proof fn lemma_keep_same_len<T>(s: Seq<T>, p: spec_fn(T) -> bool)
    requires
        keep(s, p).len() == s.len(),
    ensures
        keep(s, p) == s,
    decreases s.len(),
{
    if s.len() > 0 {
        let t = s.drop_last();
        if s.len() > 1 {
            lemma_keep_contains(t, p, t[0]);
        } else {
            lemma_keep_contains(t, p, s[0]);
        }
        lemma_keep_same_len(t, p);
        assert(t.push(s.last()) =~= s);
    }
}

/// Keeping everything keeps the sequence.
pub proof fn lemma_keep_all<T>(s: Seq<T>, p: spec_fn(T) -> bool)
    requires
        forall|j: int| 0 <= j < s.len() ==> p(#[trigger] s[j]),
    ensures
        keep(s, p) == s,
    decreases s.len(),
{
    if s.len() > 0 {
        assert forall|j: int| 0 <= j < s.drop_last().len() implies p(#[trigger] s.drop_last()[j]) by {
            assert(s.drop_last()[j] == s[j]);
        }
        assert(p(s[s.len() - 1]));
        lemma_keep_all(s.drop_last(), p);
        assert(s.drop_last().push(s.last()) =~= s);
    }
}

/// One more item to look at.
pub proof fn lemma_any_step<T>(s: Seq<T>, p: spec_fn(T) -> bool, i: int)
    requires
        0 <= i < s.len(),
    ensures
        any_where(s.take(i + 1), p) <==> any_where(s.take(i), p) || p(s[i]),
{
    if any_where(s.take(i), p) {
        let j = choose|j: int| 0 <= j < s.take(i).len() && p(#[trigger] s.take(i)[j]);
        assert(s.take(i + 1)[j] == s.take(i)[j]);
    }
    assert(s.take(i + 1)[i] == s[i]);
    if any_where(s.take(i + 1), p) && !p(s[i]) {
        let j = choose|j: int| 0 <= j < s.take(i + 1).len() && p(#[trigger] s.take(i + 1)[j]);
        assert(s.take(i)[j] == s.take(i + 1)[j]);
    }
}

/// What is kept of two sequences one after the other.
pub proof fn lemma_keep_add<T>(a: Seq<T>, b: Seq<T>, p: spec_fn(T) -> bool)
    ensures
        keep(a + b, p) == keep(a, p) + keep(b, p),
    decreases b.len(),
{
    if b.len() > 0 {
        let t = b.drop_last();
        lemma_keep_add(a, t, p);
        assert((a + b).drop_last() =~= a + t);
        assert((a + b).last() == b.last());
        assert(keep(a + b, p) =~= keep(a, p) + keep(b, p));
    } else {
        assert(a + b =~= a);
        assert(keep(a, p) + keep(b, p) =~= keep(a, p));
    }
}

} // verus!
