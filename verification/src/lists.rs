//! Encoding lists: items one after the other, counted by what stands before.
use crate::wire;
use vstd::prelude::*;

verus! {

/// The encodings of all items, one after the other.
pub open spec fn enc_all<T>(s: Seq<T>, f: spec_fn(T) -> Seq<u8>) -> Seq<u8>
    decreases s.len(),
{
    if s.len() == 0 {
        Seq::empty()
    } else {
        enc_all(s.drop_last(), f) + f(s.last())
    }
}

/// Reads `n` items from position `p` on.
pub open spec fn parse_many<T>(
    d: Seq<u8>,
    p: int,
    n: nat,
    f: spec_fn(Seq<u8>, int) -> Option<(T, int)>,
) -> Option<(Seq<T>, int)>
    decreases n,
{
    if n == 0 {
        Some((Seq::empty(), p))
    } else {
        match parse_many(d, p, (n - 1) as nat, f) {
            Some((xs, q)) => match f(d, q) {
                Some((x, r)) => Some((xs.push(x), r)),
                None => None,
            },
            None => None,
        }
    }
}

/// One more item.
pub proof fn lemma_enc_step<T>(s: Seq<T>, f: spec_fn(T) -> Seq<u8>, i: int)
    requires
        0 <= i < s.len(),
    ensures
        enc_all(s.take(i + 1), f) == enc_all(s.take(i), f) + f(s[i]),
{
    assert(s.take(i + 1).drop_last() =~= s.take(i));
}

/// Where an item cannot be read, no longer list can be.
pub proof fn lemma_parse_stuck<T>(
    d: Seq<u8>,
    p: int,
    i: nat,
    n: nat,
    f: spec_fn(Seq<u8>, int) -> Option<(T, int)>,
)
    requires
        i <= n,
        parse_many(d, p, i, f) is None,
    ensures
        parse_many(d, p, n, f) is None,
    decreases n,
{
    if i < n {
        lemma_parse_stuck(d, p, i, (n - 1) as nat, f);
    }
}

/// A list that was read has as many items as were asked for.
pub proof fn lemma_parse_len<T>(
    d: Seq<u8>,
    p: int,
    n: nat,
    f: spec_fn(Seq<u8>, int) -> Option<(T, int)>,
)
    ensures
        parse_many(d, p, n, f) matches Some((xs, _)) ==> xs.len() == n,
    decreases n,
{
    if n > 0 {
        lemma_parse_len(d, p, (n - 1) as nat, f);
    }
}

/// The reader `f` gives back `x` wherever its encoding stands.
pub open spec fn reads_back<T>(
    d: Seq<u8>,
    x: T,
    e: Seq<u8>,
    f: spec_fn(Seq<u8>, int) -> Option<(T, int)>,
) -> bool {
    forall|q: int| #[trigger]
        wire::stands_at(d, q, e) ==> f(d, q) == Some((x, q + e.len()))
}

/// Reading a list gives back the list that was encoded.
pub proof fn lemma_many<T>(
    d: Seq<u8>,
    p: int,
    s: Seq<T>,
    g: spec_fn(T) -> Seq<u8>,
    f: spec_fn(Seq<u8>, int) -> Option<(T, int)>,
)
    requires
        wire::stands_at(d, p, enc_all(s, g)),
        forall|i: int|
            0 <= i < s.len() ==> reads_back(d, #[trigger] s[i], g(s[i]), f),
    ensures
        parse_many(d, p, s.len(), f) == Some((s, p + enc_all(s, g).len())),
    decreases s.len(),
{
    if s.len() > 0 {
        let t = s.drop_last();
        wire::lemma_stands_split(d, p, enc_all(t, g), g(s.last()));
        assert forall|i: int| 0 <= i < t.len() implies reads_back(d, #[trigger] t[i], g(t[i]), f) by {
            assert(t[i] == s[i]);
        }
        lemma_many(d, p, t, g, f);
        assert(reads_back(d, s[s.len() - 1], g(s[s.len() - 1]), f));
        assert(t.push(s.last()) =~= s);
    } else {
        assert(s =~= Seq::empty());
    }
}

/// Lists whose items are encoded alike are encoded alike.
pub proof fn lemma_enc_same<T>(a: Seq<T>, b: Seq<T>, f: spec_fn(T) -> Seq<u8>)
    requires
        a.len() == b.len(),
        forall|i: int| 0 <= i < a.len() ==> f(#[trigger] a[i]) == f(b[i]),
    ensures
        enc_all(a, f) == enc_all(b, f),
    decreases a.len(),
{
    if a.len() > 0 {
        let x = a.drop_last();
        let y = b.drop_last();
        assert forall|i: int| 0 <= i < x.len() implies f(#[trigger] x[i]) == f(y[i]) by {
            assert(x[i] == a[i] && y[i] == b[i]);
        }
        lemma_enc_same(x, y, f);
        assert(f(a[a.len() - 1]) == f(b[a.len() - 1]));
    }
}

/// What `f` reads of the first `n` bytes lies within them, and it reads the same
/// of all of them.
pub open spec fn steady<T>(
    d: Seq<u8>,
    n: int,
    f: spec_fn(Seq<u8>, int) -> Option<(T, int)>,
) -> bool {
    forall|p: int|
        0 <= p ==> (#[trigger] f(d.take(n), p) matches Some((x, q)) ==> p <= q <= n && f(d, p)
            == Some((x, q)))
}

pub proof fn lemma_many_steady<T>(
    d: Seq<u8>,
    n: int,
    p: int,
    k: nat,
    f: spec_fn(Seq<u8>, int) -> Option<(T, int)>,
)
    requires
        0 <= p <= n <= d.len(),
        steady(d, n, f),
    ensures
        parse_many(d.take(n), p, k, f) matches Some((xs, q)) ==> p <= q <= n && parse_many(
            d,
            p,
            k,
            f,
        ) == Some((xs, q)),
    decreases k,
{
    if k > 0 {
        lemma_many_steady(d, n, p, (k - 1) as nat, f);
    }
}

} // verus!
