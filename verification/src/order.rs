//! The bytewise order of identifiers and text, and sorting by it.
use crate::model;
use crate::types::{uuid_eq, Uuid};
use vstd::prelude::*;

verus! {

/// How many leading bytes two sequences share.
pub open spec fn shared(a: Seq<u8>, b: Seq<u8>) -> int
    decreases a.len(),
{
    if a.len() == 0 || b.len() == 0 || a[0] != b[0] {
        0
    } else {
        1 + shared(a.skip(1), b.skip(1))
    }
}

/// `a` comes before `b`: the first byte that differs is smaller, or `a` is a
/// proper beginning of `b`.
pub open spec fn lex_lt(a: Seq<u8>, b: Seq<u8>) -> bool {
    let i = shared(a, b);
    i < b.len() && (i == a.len() || a[i] < b[i])
}

pub proof fn lemma_shared(a: Seq<u8>, b: Seq<u8>)
    ensures
        0 <= shared(a, b) <= a.len(),
        shared(a, b) <= b.len(),
        forall|j: int| 0 <= j < shared(a, b) ==> a[j] == b[j],
        shared(a, b) < a.len() && shared(a, b) < b.len() ==> a[shared(a, b)] != b[shared(a, b)],
    decreases a.len(),
{
    if a.len() > 0 && b.len() > 0 && a[0] == b[0] {
        lemma_shared(a.skip(1), b.skip(1));
        let k = shared(a.skip(1), b.skip(1));
        assert forall|j: int| 0 <= j < 1 + k implies a[j] == b[j] by {
            if j > 0 {
                assert(a.skip(1)[j - 1] == b.skip(1)[j - 1]);
            }
        }
    }
}

/// The common beginning is the one that no longer beginning extends.
pub proof fn lemma_shared_is(a: Seq<u8>, b: Seq<u8>, i: int)
    requires
        0 <= i <= a.len(),
        i <= b.len(),
        forall|j: int| 0 <= j < i ==> a[j] == b[j],
        i < a.len() && i < b.len() ==> a[i] != b[i],
    ensures
        shared(a, b) == i,
{
    lemma_shared(a, b);
    let k = shared(a, b);
    if k < i {
        assert(a[k] == b[k]);
    } else if i < k {
        assert(a[i] == b[i]);
    }
}

/// Nothing comes before itself.
pub proof fn lemma_lex_irreflexive(a: Seq<u8>)
    ensures
        !lex_lt(a, a),
{
    lemma_shared(a, a);
}

/// Of two different sequences exactly one comes first.
pub proof fn lemma_lex_total(a: Seq<u8>, b: Seq<u8>)
    ensures
        lex_lt(a, b) || lex_lt(b, a) || a == b,
        !(lex_lt(a, b) && lex_lt(b, a)),
        a == b ==> !lex_lt(a, b),
{
    lemma_shared(a, b);
    lemma_shared(b, a);
    let i = shared(a, b);
    lemma_shared_is(b, a, i);
    if !lex_lt(a, b) && !lex_lt(b, a) {
        assert(a =~= b);
    }
}

/// What comes before something comes before all that follows it.
pub proof fn lemma_lex_transitive(a: Seq<u8>, b: Seq<u8>, c: Seq<u8>)
    requires
        lex_lt(a, b),
        lex_lt(b, c),
    ensures
        lex_lt(a, c),
{
    lemma_shared(a, b);
    lemma_shared(b, c);
    let i = shared(a, b);
    let j = shared(b, c);
    let k = if i <= j {
        i
    } else {
        j
    };
    assert forall|m: int| 0 <= m < k implies a[m] == c[m] by {
        assert(a[m] == b[m]);
        assert(b[m] == c[m]);
    }
    if i < j {
        assert(b[i] == c[i]);
        lemma_shared_is(a, c, i);
    } else if j < i {
        assert(a[j] == b[j]);
        lemma_shared_is(a, c, j);
    } else {
        lemma_shared_is(a, c, i);
    }
}

/// Whether `a` comes before `b`.
pub fn bytes_lt(a: &[u8], b: &[u8]) -> (r: bool)
    ensures
        r == lex_lt(a@, b@),
{
    let n: usize = a.len();
    let m: usize = b.len();
    let mut i: usize = 0;
    while i < n && i < m && a[i] == b[i]
        invariant
            i <= n == a@.len(),
            i <= m == b@.len(),
            forall|j: int| 0 <= j < i ==> a@[j] == b@[j],
        decreases n - i,
    {
        i += 1;
    }
    proof {
        lemma_shared_is(a@, b@, i as int);
    }
    i < m && (i == n || a[i] < b[i])
}

/// Whether identifier `a` comes before `b`.
pub fn uuid_lt(a: &Uuid, b: &Uuid) -> (r: bool)
    ensures
        r == lex_lt(a@, b@),
{
    bytes_lt(a.as_slice(), b.as_slice())
}

/// Two identifiers with the same bytes are the same.
pub proof fn lemma_uuid_bytes(a: Uuid, b: Uuid)
    ensures
        a@ == b@ <==> a == b,
{
    if a@ == b@ {
        assert(a =~= b);
    }
}

/// The items with a greater key than `x`.
pub open spec fn greater<T>(x: T, key: spec_fn(T) -> Seq<u8>) -> spec_fn(T) -> bool {
    |y: T| lex_lt(key(x), key(y))
}

/// Where `x` goes: before the first item with a greater key.
pub open spec fn insert_at<T>(s: Seq<T>, x: T, key: spec_fn(T) -> Seq<u8>) -> int {
    match model::first_where(s, greater(x, key)) {
        Some(i) => i,
        None => s.len() as int,
    }
}

/// The items in order of their keys; items with equal keys stay in order.
pub open spec fn sorted<T>(s: Seq<T>, key: spec_fn(T) -> Seq<u8>) -> Seq<T>
    decreases s.len(),
{
    if s.len() == 0 {
        s
    } else {
        let t = sorted(s.drop_last(), key);
        t.insert(insert_at(t, s.last(), key), s.last())
    }
}

/// No item has a smaller key than one before it.
pub open spec fn in_order<T>(s: Seq<T>, key: spec_fn(T) -> Seq<u8>) -> bool {
    forall|i: int, j: int| 0 <= i < j < s.len() ==> !lex_lt(key(#[trigger] s[j]), key(#[trigger] s[i]))
}

pub proof fn lemma_insert_at<T>(s: Seq<T>, x: T, key: spec_fn(T) -> Seq<u8>)
    ensures
        0 <= insert_at(s, x, key) <= s.len(),
{
    model::lemma_first_where(s, greater(x, key));
}

/// Sorting orders the items and neither loses nor adds one.
pub proof fn lemma_sorted<T>(s: Seq<T>, key: spec_fn(T) -> Seq<u8>)
    ensures
        in_order(sorted(s, key), key),
        sorted(s, key).to_multiset() == s.to_multiset(),
        sorted(s, key).len() == s.len(),
    decreases s.len(),
{
    broadcast use vstd::seq_lib::group_to_multiset_ensures;

    if s.len() > 0 {
        let t = sorted(s.drop_last(), key);
        let x = s.last();
        lemma_sorted(s.drop_last(), key);
        lemma_insert_at(t, x, key);
        let k = insert_at(t, x, key);
        model::lemma_first_where(t, greater(x, key));
        let r = t.insert(k, x);
        assert(s.drop_last().push(x) =~= s);
        assert(r.to_multiset() =~= s.to_multiset());
        assert forall|i: int, j: int| 0 <= i < j < r.len() implies !lex_lt(
            key(#[trigger] r[j]),
            key(#[trigger] r[i]),
        ) by {
            if i < k && j < k {
                assert(r[i] == t[i] && r[j] == t[j]);
            } else if i > k && j > k {
                assert(r[i] == t[i - 1] && r[j] == t[j - 1]);
            } else if i < k && j > k {
                assert(r[i] == t[i] && r[j] == t[j - 1]);
            } else if j == k {
                assert(!greater(x, key)(t[i]));
                assert(r[i] == t[i]);
            } else {
                assert(r[j] == t[j - 1]);
                assert(lex_lt(key(x), key(t[k])));
                lemma_lex_total(key(x), key(t[k]));
                if j - 1 > k {
                    assert(!lex_lt(key(t[j - 1]), key(t[k])));
                    lemma_lex_total(key(t[j - 1]), key(t[k]));
                    if key(t[j - 1]) != key(t[k]) {
                        lemma_lex_transitive(key(x), key(t[k]), key(t[j - 1]));
                    }
                    lemma_lex_total(key(x), key(t[j - 1]));
                }
            }
        }
    }
}

/// Items with the same key are the same.
pub open spec fn told_apart<T>(s: Seq<T>, key: spec_fn(T) -> Seq<u8>) -> bool {
    forall|i: int, j: int|
        0 <= i < s.len() && 0 <= j < s.len() && key(#[trigger] s[i]) == key(#[trigger] s[j])
            ==> s[i] == s[j]
}

/// There is one order for items that their keys tell apart.
proof fn lemma_one_order<T>(s: Seq<T>, t: Seq<T>, key: spec_fn(T) -> Seq<u8>)
    requires
        in_order(s, key),
        in_order(t, key),
        told_apart(s, key),
        s.to_multiset() == t.to_multiset(),
    ensures
        s == t,
    decreases s.len(),
{
    broadcast use vstd::seq_lib::group_to_multiset_ensures;

    s.to_multiset_ensures();
    t.to_multiset_ensures();
    if s.len() == 0 {
        assert(s =~= t);
    } else {
        let x = s[0];
        let y = t[0];
        assert(s.contains(x) && t.contains(y));
        assert(s.to_multiset().count(y) > 0);
        assert(t.to_multiset().count(x) > 0);
        let i = choose|i: int| 0 <= i < s.len() && s[i] == y;
        let j = choose|j: int| 0 <= j < t.len() && t[j] == x;
        lemma_lex_total(key(x), key(y));
        if i > 0 {
            assert(!lex_lt(key(s[i]), key(s[0])));
        }
        if j > 0 {
            assert(!lex_lt(key(t[j]), key(t[0])));
        }
        lemma_lex_irreflexive(key(x));
        assert(key(s[0]) == key(s[i]));
        assert(x == y);
        let p = s.remove(0);
        let q = t.remove(0);
        assert(p.to_multiset() =~= q.to_multiset());
        assert forall|a: int, b: int| 0 <= a < b < p.len() implies !lex_lt(
            key(#[trigger] p[b]),
            key(#[trigger] p[a]),
        ) by {
            assert(p[a] == s[a + 1] && p[b] == s[b + 1]);
        }
        assert forall|a: int, b: int| 0 <= a < b < q.len() implies !lex_lt(
            key(#[trigger] q[b]),
            key(#[trigger] q[a]),
        ) by {
            assert(q[a] == t[a + 1] && q[b] == t[b + 1]);
        }
        assert forall|a: int, b: int|
            0 <= a < p.len() && 0 <= b < p.len() && key(#[trigger] p[a]) == key(
                #[trigger] p[b],
            ) implies p[a] == p[b] by {
            assert(p[a] == s[a + 1] && p[b] == s[b + 1]);
        }
        lemma_one_order(p, q, key);
        assert(s =~= seq![x] + p);
        assert(t =~= seq![y] + q);
    }
}

/// Sorting forgets the order in which items stood, if their keys tell them
/// apart.
pub proof fn law_sorting_forgets_order<T>(s: Seq<T>, t: Seq<T>, key: spec_fn(T) -> Seq<u8>)
    requires
        told_apart(s, key),
        s.to_multiset() == t.to_multiset(),
    ensures
        sorted(s, key) == sorted(t, key),
{
    broadcast use vstd::seq_lib::group_to_multiset_ensures;

    lemma_sorted(s, key);
    lemma_sorted(t, key);
    let p = sorted(s, key);
    assert forall|i: int, j: int|
        0 <= i < p.len() && 0 <= j < p.len() && key(#[trigger] p[i]) == key(
            #[trigger] p[j],
        ) implies p[i] == p[j] by {
        assert(p.to_multiset().count(p[i]) > 0);
        assert(p.to_multiset().count(p[j]) > 0);
        assert(s.contains(p[i]) && s.contains(p[j]));
        let a = choose|a: int| 0 <= a < s.len() && s[a] == p[i];
        let b = choose|b: int| 0 <= b < s.len() && s[b] == p[j];
        assert(s[a] == s[b]);
    }
    lemma_one_order(p, sorted(t, key), key);
}

/// Each item has a greater key than those before it.
pub open spec fn strictly<K>(s: Seq<K>, key: spec_fn(K) -> Seq<u8>) -> bool {
    forall|i: int, j: int| 0 <= i < j < s.len() ==> lex_lt(key(#[trigger] s[i]), key(#[trigger] s[j]))
}

/// `s` lists what satisfies `p`, each once and in order.
pub open spec fn is_listing<K>(
    s: Seq<K>,
    p: spec_fn(K) -> bool,
    key: spec_fn(K) -> Seq<u8>,
) -> bool {
    &&& strictly(s, key)
    &&& forall|k: K| #[trigger] s.contains(k) <==> p(k)
}

/// What satisfies `p`, each once and in order.
pub open spec fn listing<K>(p: spec_fn(K) -> bool, key: spec_fn(K) -> Seq<u8>) -> Seq<K> {
    choose|s: Seq<K>| is_listing(s, p, key)
}

/// Different items have different keys.
pub open spec fn telling<K>(key: spec_fn(K) -> Seq<u8>) -> bool {
    forall|x: K, y: K| #[trigger] key(x) == #[trigger] key(y) ==> x == y
}

/// The identifier itself as a key.
pub open spec fn uuid_key() -> spec_fn(Uuid) -> Seq<u8> {
    |u: Uuid| u@
}

/// Two identifiers as a key: the first, then the second.
pub open spec fn two_key() -> spec_fn((Uuid, Uuid)) -> Seq<u8> {
    |k: (Uuid, Uuid)| k.0@ + k.1@
}

pub proof fn lemma_uuid_key()
    ensures
        telling(uuid_key()),
{
    assert forall|x: Uuid, y: Uuid| #[trigger] uuid_key()(x) == #[trigger] uuid_key()(y) implies x
        == y by {
        lemma_uuid_bytes(x, y);
    }
}

pub proof fn lemma_two_key()
    ensures
        telling(two_key()),
{
    assert forall|x: (Uuid, Uuid), y: (Uuid, Uuid)| #[trigger] two_key()(x) == #[trigger] two_key()(
        y,
    ) implies x == y by {
        assert(x.0@ =~= two_key()(x).take(16));
        assert(y.0@ =~= two_key()(y).take(16));
        assert(x.1@ =~= two_key()(x).skip(16));
        assert(y.1@ =~= two_key()(y).skip(16));
        lemma_uuid_bytes(x.0, y.0);
        lemma_uuid_bytes(x.1, y.1);
    }
}

/// There is one listing.
pub proof fn lemma_listing_unique<K>(a: Seq<K>, b: Seq<K>, key: spec_fn(K) -> Seq<u8>)
    requires
        strictly(a, key),
        strictly(b, key),
        telling(key),
        forall|k: K| #[trigger] a.contains(k) <==> b.contains(k),
    ensures
        a == b,
    decreases a.len(),
{
    if a.len() == 0 {
        if b.len() > 0 {
            assert(b.contains(b[0]));
            assert(a.contains(b[0]));
        }
        assert(a =~= b);
    } else {
        assert(a.contains(a[0]));
        assert(b.contains(a[0]));
        let j = choose|j: int| 0 <= j < b.len() && b[j] == a[0];
        assert(b.contains(b[0]));
        assert(a.contains(b[0]));
        let i = choose|i: int| 0 <= i < a.len() && a[i] == b[0];
        if j > 0 && i > 0 {
            assert(lex_lt(key(b[0]), key(b[j])));
            assert(lex_lt(key(a[0]), key(a[i])));
            lemma_lex_total(key(a[0]), key(b[0]));
        }
        assert(a[0] == b[0]);
        let x = a.skip(1);
        let y = b.skip(1);
        assert forall|p: int, q: int| 0 <= p < q < x.len() implies lex_lt(
            key(#[trigger] x[p]),
            key(#[trigger] x[q]),
        ) by {
            assert(x[p] == a[p + 1] && x[q] == a[q + 1]);
        }
        assert forall|p: int, q: int| 0 <= p < q < y.len() implies lex_lt(
            key(#[trigger] y[p]),
            key(#[trigger] y[q]),
        ) by {
            assert(y[p] == b[p + 1] && y[q] == b[q + 1]);
        }
        assert forall|k: K| #[trigger] x.contains(k) <==> y.contains(k) by {
            lemma_rest_contains(a, key, k);
            lemma_rest_contains(b, key, k);
            assert(a.contains(k) <==> b.contains(k));
        }
        lemma_listing_unique(x, y, key);
        assert(a =~= seq![a[0]] + x);
        assert(b =~= seq![b[0]] + y);
    }
}

proof fn lemma_rest_contains<K>(a: Seq<K>, key: spec_fn(K) -> Seq<u8>, k: K)
    requires
        a.len() > 0,
        strictly(a, key),
    ensures
        a.skip(1).contains(k) <==> a.contains(k) && k != a[0],
{
    let x = a.skip(1);
    if x.contains(k) {
        let i = choose|i: int| 0 <= i < x.len() && x[i] == k;
        assert(a[i + 1] == k);
        assert(lex_lt(key(a[0]), key(a[i + 1])));
        lemma_lex_irreflexive(key(a[0]));
    }
    if a.contains(k) && k != a[0] {
        let i = choose|i: int| 0 <= i < a.len() && a[i] == k;
        assert(x[i - 1] == k);
    }
}

/// A sequence that lists `p` is the listing of `p`.
pub proof fn lemma_listing_is<K>(s: Seq<K>, p: spec_fn(K) -> bool, key: spec_fn(K) -> Seq<u8>)
    requires
        is_listing(s, p, key),
        telling(key),
    ensures
        listing(p, key) == s,
{
    let t = listing(p, key);
    assert(is_listing(t, p, key));
    assert forall|k: K| #[trigger] t.contains(k) <==> s.contains(k) by {
        assert(s.contains(k) <==> p(k));
    }
    lemma_listing_unique(t, s, key);
}

/// The items among `cand` that satisfy `p` can be put in order.
proof fn lemma_listing_among<K>(
    cand: Seq<K>,
    p: spec_fn(K) -> bool,
    key: spec_fn(K) -> Seq<u8>,
) -> (s: Seq<K>)
    requires
        telling(key),
    ensures
        strictly(s, key),
        forall|k: K| #[trigger] s.contains(k) <==> p(k) && cand.contains(k),
    decreases cand.len(),
{
    if cand.len() == 0 {
        Seq::empty()
    } else {
        let x = cand.last();
        let t = lemma_listing_among(cand.drop_last(), p, key);
        assert forall|k: K| #[trigger] cand.contains(k) <==> cand.drop_last().contains(k) || k
            == x by {
            if cand.contains(k) && k != x {
                let i = choose|i: int| 0 <= i < cand.len() && cand[i] == k;
                assert(cand.drop_last()[i] == k);
            }
            if cand.drop_last().contains(k) {
                let i = choose|i: int| 0 <= i < cand.len() - 1 && cand.drop_last()[i] == k;
                assert(cand[i] == k);
            }
            assert(cand[cand.len() - 1] == x);
        }
        if !p(x) || t.contains(x) {
            t
        } else {
            let at = insert_at(t, x, key);
            lemma_insert_at(t, x, key);
            model::lemma_first_where(t, greater(x, key));
            assert forall|j: int| 0 <= j < at implies lex_lt(key(#[trigger] t[j]), key(x)) by {
                assert(!greater(x, key)(t[j]));
                assert(t.contains(t[j]));
                lemma_lex_total(key(t[j]), key(x));
            }
            if at < t.len() {
                assert(greater(x, key)(t[at]));
            }
            lemma_insert_strictly(t, at, x, key);
            t.insert(at, x)
        }
    }
}

/// What satisfies `p` has a listing if it is all among `cand`.
pub proof fn lemma_listing_exists<K>(
    cand: Seq<K>,
    p: spec_fn(K) -> bool,
    key: spec_fn(K) -> Seq<u8>,
)
    requires
        telling(key),
        forall|k: K| #[trigger] p(k) ==> cand.contains(k),
    ensures
        is_listing(listing(p, key), p, key),
{
    let s = lemma_listing_among(cand, p, key);
    assert forall|k: K| #[trigger] s.contains(k) <==> p(k) by {}
    assert(is_listing(s, p, key));
}

/// A listing names nothing twice.
pub proof fn lemma_listing_once<K>(s: Seq<K>, key: spec_fn(K) -> Seq<u8>, i: int, j: int)
    requires
        strictly(s, key),
        0 <= i < s.len(),
        0 <= j < s.len(),
        s[i] == s[j],
    ensures
        i == j,
{
    lemma_lex_irreflexive(key(s[i]));
}

/// Putting a new item at its place keeps the order.
pub proof fn lemma_insert_strictly<K>(s: Seq<K>, k: int, x: K, key: spec_fn(K) -> Seq<u8>)
    requires
        strictly(s, key),
        0 <= k <= s.len(),
        forall|j: int| 0 <= j < k ==> lex_lt(key(#[trigger] s[j]), key(x)),
        k < s.len() ==> lex_lt(key(x), key(s[k])),
    ensures
        strictly(s.insert(k, x), key),
        forall|y: K| #[trigger] s.insert(k, x).contains(y) <==> s.contains(y) || y == x,
{
    let r = s.insert(k, x);
    assert forall|i: int, j: int| 0 <= i < j < r.len() implies lex_lt(
        key(#[trigger] r[i]),
        key(#[trigger] r[j]),
    ) by {
        if i < k && j < k {
            assert(r[i] == s[i] && r[j] == s[j]);
        } else if i < k && j == k {
            assert(r[i] == s[i]);
        } else if i < k {
            assert(r[i] == s[i] && r[j] == s[j - 1]);
        } else if i == k {
            assert(r[j] == s[j - 1]);
            if j - 1 > k {
                assert(lex_lt(key(s[k]), key(s[j - 1])));
                lemma_lex_transitive(key(x), key(s[k]), key(s[j - 1]));
            }
        } else {
            assert(r[i] == s[i - 1] && r[j] == s[j - 1]);
        }
    }
    assert forall|y: K| #[trigger] r.contains(y) <==> s.contains(y) || y == x by {
        if s.contains(y) {
            let i = choose|i: int| 0 <= i < s.len() && s[i] == y;
            if i < k {
                assert(r[i] == y);
            } else {
                assert(r[i + 1] == y);
            }
        }
        assert(r[k] == x);
        if r.contains(y) && y != x {
            let i = choose|i: int| 0 <= i < r.len() && r[i] == y;
            if i < k {
                assert(s[i] == y);
            } else {
                assert(s[i - 1] == y);
            }
        }
    }
}

/// Puts an identifier into a list in order, unless it is there.
pub fn insert_uuid(v: &mut Vec<Uuid>, u: Uuid)
    requires
        strictly(old(v)@, uuid_key()),
    ensures
        strictly(final(v)@, uuid_key()),
        forall|k: Uuid| #[trigger] final(v)@.contains(k) <==> old(v)@.contains(k) || k == u,
{
    let mut i: usize = 0;
    while i < v.len() && uuid_lt(&v[i], &u)
        invariant
            i <= v@.len(),
            v@ == old(v)@,
            forall|j: int| 0 <= j < i ==> lex_lt(uuid_key()(#[trigger] v@[j]), uuid_key()(u)),
        decreases v@.len() - i,
    {
        i += 1;
    }
    if i < v.len() && uuid_eq(&v[i], &u) {
        assert(v@.contains(v@[i as int]));
        return;
    }
    proof {
        if i < v@.len() {
            lemma_lex_total(v@[i as int]@, u@);
            lemma_uuid_bytes(v@[i as int], u);
        }
        lemma_insert_strictly(v@, i as int, u, uuid_key());
    }
    v.insert(i, u);
}

/// Whether one pair of identifiers comes before another.
pub fn two_lt(a: &(Uuid, Uuid), b: &(Uuid, Uuid)) -> (r: bool)
    ensures
        r == lex_lt(two_key()(*a), two_key()(*b)),
{
    let r = if uuid_eq(&a.0, &b.0) {
        uuid_lt(&a.1, &b.1)
    } else {
        uuid_lt(&a.0, &b.0)
    };
    proof {
        let ka = a.0@ + a.1@;
        let kb = b.0@ + b.1@;
        lemma_shared(a.0@, b.0@);
        lemma_shared(a.1@, b.1@);
        lemma_uuid_bytes(a.0, b.0);
        if a.0 == b.0 {
            let i = shared(a.1@, b.1@);
            assert forall|j: int| 0 <= j < 16 + i implies ka[j] == kb[j] by {
                if j >= 16 {
                    assert(a.1@[j - 16] == b.1@[j - 16]);
                }
            }
            lemma_shared_is(ka, kb, 16 + i);
        } else {
            let i = shared(a.0@, b.0@);
            if i == 16 {
                assert(a.0@ =~= b.0@);
            }
            lemma_shared_is(ka, kb, i);
        }
    }
    r
}

/// Puts a pair of identifiers into a list in order, unless it is there.
pub fn insert_two(v: &mut Vec<(Uuid, Uuid)>, u: (Uuid, Uuid))
    requires
        strictly(old(v)@, two_key()),
    ensures
        strictly(final(v)@, two_key()),
        forall|k: (Uuid, Uuid)| #[trigger] final(v)@.contains(k) <==> old(v)@.contains(k) || k == u,
{
    let mut i: usize = 0;
    while i < v.len() && two_lt(&v[i], &u)
        invariant
            i <= v@.len(),
            v@ == old(v)@,
            forall|j: int| 0 <= j < i ==> lex_lt(two_key()(#[trigger] v@[j]), two_key()(u)),
        decreases v@.len() - i,
    {
        i += 1;
    }
    if i < v.len() && uuid_eq(&v[i].0, &u.0) && uuid_eq(&v[i].1, &u.1) {
        assert(v@.contains(v@[i as int]));
        return;
    }
    proof {
        if i < v@.len() {
            lemma_two_key();
            lemma_lex_total(two_key()(v@[i as int]), two_key()(u));
        }
        lemma_insert_strictly(v@, i as int, u, two_key());
    }
    v.insert(i, u);
}

/// The items with a greater number than `x`.
pub open spec fn above<T>(x: T, key: spec_fn(T) -> int) -> spec_fn(T) -> bool {
    |y: T| key(x) < key(y)
}

/// Where `x` goes: before the first item with a greater number.
pub open spec fn rank_at<T>(s: Seq<T>, x: T, key: spec_fn(T) -> int) -> int {
    match model::first_where(s, above(x, key)) {
        Some(i) => i,
        None => s.len() as int,
    }
}

/// The items in order of their numbers; items with equal numbers stay in
/// order.
pub open spec fn ranked<T>(s: Seq<T>, key: spec_fn(T) -> int) -> Seq<T>
    decreases s.len(),
{
    if s.len() == 0 {
        s
    } else {
        let t = ranked(s.drop_last(), key);
        t.insert(rank_at(t, s.last(), key), s.last())
    }
}

/// Ranking orders the items and neither loses nor adds one.
pub proof fn lemma_ranked<T>(s: Seq<T>, key: spec_fn(T) -> int)
    ensures
        forall|i: int, j: int|
            0 <= i < j < ranked(s, key).len() ==> key(#[trigger] ranked(s, key)[i]) <= key(
                #[trigger] ranked(s, key)[j],
            ),
        ranked(s, key).to_multiset() == s.to_multiset(),
        ranked(s, key).len() == s.len(),
    decreases s.len(),
{
    broadcast use vstd::seq_lib::group_to_multiset_ensures;

    if s.len() > 0 {
        let t = ranked(s.drop_last(), key);
        let x = s.last();
        lemma_ranked(s.drop_last(), key);
        model::lemma_first_where(t, above(x, key));
        let k = rank_at(t, x, key);
        let r = t.insert(k, x);
        assert(s.drop_last().push(x) =~= s);
        assert(r.to_multiset() =~= s.to_multiset());
        assert forall|i: int, j: int| 0 <= i < j < r.len() implies key(#[trigger] r[i]) <= key(
            #[trigger] r[j],
        ) by {
            if i < k && j < k {
                assert(r[i] == t[i] && r[j] == t[j]);
            } else if i > k && j > k {
                assert(r[i] == t[i - 1] && r[j] == t[j - 1]);
            } else if i < k && j > k {
                assert(r[i] == t[i] && r[j] == t[j - 1]);
            } else if j == k {
                assert(!above(x, key)(t[i]));
                assert(r[i] == t[i]);
            } else {
                assert(r[j] == t[j - 1]);
                assert(above(x, key)(t[k]));
                if j - 1 > k {
                    assert(key(t[k]) <= key(t[j - 1]));
                }
            }
        }
    }
}

/// Text is ordered by its bytes.
pub open spec fn text_key() -> spec_fn(Seq<char>) -> Seq<u8> {
    |s: Seq<char>| vstd::utf8::encode_utf8(s)
}

/// Identifiers in order.
pub fn sort_uuids(v: &Vec<Uuid>) -> (r: Vec<Uuid>)
    ensures
        r@ == sorted(v@, uuid_key()),
{
    let mut out: Vec<Uuid> = Vec::new();
    let mut i: usize = 0;
    assert(v@.take(0) =~= Seq::empty());
    while i < v.len()
        invariant
            i <= v@.len(),
            out@ == sorted(v@.take(i as int), uuid_key()),
            out@.len() == i,
        decreases v@.len() - i,
    {
        let x = v[i];
        let ghost p = greater(x, uuid_key());
        let mut k: usize = 0;
        while k < out.len() && !uuid_lt(&x, &out[k])
            invariant
                k <= out@.len(),
                p == greater(x, uuid_key()),
                forall|j: int| 0 <= j < k ==> !p(#[trigger] out@[j]),
            decreases out@.len() - k,
        {
            assert(!p(out@[k as int]));
            k += 1;
        }
        proof {
            if k < out@.len() {
                assert(p(out@[k as int]));
                model::lemma_first_at(out@, p, k as int);
            } else {
                model::lemma_first_none(out@, p);
            }
            assert(v@.take(i + 1).drop_last() =~= v@.take(i as int));
            assert(v@.take(i + 1).last() == x);
        }
        out.insert(k, x);
        i += 1;
    }
    assert(v@.take(v@.len() as int) =~= v@);
    out
}

/// Pieces of text in order.
pub fn sort_texts(v: &Vec<String>) -> (r: Vec<String>)
    ensures
        model::views(r@) == sorted(model::views(v@), text_key()),
{
    broadcast use model::group_views;

    let ghost s = model::views(v@);
    let mut out: Vec<String> = Vec::new();
    let mut i: usize = 0;
    assert(s.take(0) =~= Seq::empty());
    assert(model::views(out@) =~= sorted(s.take(0), text_key()));
    while i < v.len()
        invariant
            i <= v@.len(),
            s == model::views(v@),
            model::views(out@) == sorted(s.take(i as int), text_key()),
            out@.len() == i,
        decreases v@.len() - i,
    {
        let ghost x = s[i as int];
        let ghost p = greater(x, text_key());
        let ghost t = model::views(out@);
        let mut k: usize = 0;
        while k < out.len() && !bytes_lt(v[i].as_str().as_bytes(), out[k].as_str().as_bytes())
            invariant
                k <= out@.len(),
                i < v@.len(),
                x == v@[i as int]@,
                p == greater(x, text_key()),
                t == model::views(out@),
                forall|j: int| 0 <= j < k ==> !p(#[trigger] t[j]),
            decreases out@.len() - k,
        {
            assert(t[k as int] == out@[k as int]@);
            assert(!p(t[k as int]));
            k += 1;
        }
        proof {
            if k < out@.len() {
                assert(t[k as int] == out@[k as int]@);
                assert(p(t[k as int]));
                model::lemma_first_at(t, p, k as int);
            } else {
                model::lemma_first_none(t, p);
            }
            assert(s.take(i + 1).drop_last() =~= s.take(i as int));
            assert(s.take(i + 1).last() == x);
        }
        out.insert(k, v[i].clone());
        assert(model::views(out@) =~= t.insert(k as int, x));
        i += 1;
    }
    assert(s.take(s.len() as int) =~= s);
    out
}

} // verus!
