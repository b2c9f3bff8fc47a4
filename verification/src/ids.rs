//! Identifiers and positions of sessions.
use crate::find;
use crate::model;
use crate::types::{uuid_eq, ActiveConnection, Node, OwnerView};
use vstd::prelude::*;

verus! {

/// The session identifiers in use: those of sessions and of those asked for.
pub open spec fn used_ids(o: OwnerView) -> Seq<u16> {
    Seq::new(o.active_connections.len(), |i: int| o.active_connections[i].id) + Seq::new(
        o.pending_connections.len(),
        |i: int| o.pending_connections[i].our_conn_id,
    )
}

/// The largest of some identifiers, or zero.
pub open spec fn highest(ids: Seq<u16>) -> u16
    decreases ids.len(),
{
    if ids.len() == 0 {
        0
    } else {
        let m = highest(ids.drop_last());
        if ids.last() > m {
            ids.last()
        } else {
            m
        }
    }
}

/// The smallest identifier from `from` on that is not among `ids`.
pub open spec fn lowest_free(ids: Seq<u16>, from: int) -> u16
    decreases 65536 - from,
{
    if from >= 65536 || from < 0 {
        0
    } else if !ids.contains(from as u16) {
        from as u16
    } else {
        lowest_free(ids, from + 1)
    }
}

/// The next identifier: one above the largest in use, or, where the largest
/// there is is taken, the smallest free one.
pub open spec fn next_id(ids: Seq<u16>) -> u16 {
    if highest(ids) < 65535 {
        (highest(ids) + 1) as u16
    } else {
        lowest_free(ids, 0)
    }
}

proof fn lemma_highest(ids: Seq<u16>)
    ensures
        forall|i: int| 0 <= i < ids.len() ==> #[trigger] ids[i] <= highest(ids),
    decreases ids.len(),
{
    if ids.len() > 0 {
        lemma_highest(ids.drop_last());
        assert forall|i: int| 0 <= i < ids.len() implies #[trigger] ids[i] <= highest(ids) by {
            if i < ids.len() - 1 {
                assert(ids.drop_last()[i] == ids[i]);
            }
        }
    }
}

/// Fewer identifiers than there are leave one free.
proof fn lemma_free_id(ids: Seq<u16>)
    requires
        ids.len() < 65536,
    ensures
        exists|x: u16| !#[trigger] ids.contains(x),
{
    if forall|x: u16| #[trigger] ids.contains(x) {
        let s = ids.map_values(|x: u16| x as int).to_set();
        let r = vstd::set_lib::set_int_range(0, 65536);
        vstd::set_lib::lemma_int_range(0, 65536);
        ids.map_values(|x: u16| x as int).lemma_cardinality_of_set();
        assert forall|x: int| #[trigger] r.contains(x) implies s.contains(x) by {
            assert(ids.contains(x as u16));
            let i = choose|i: int| 0 <= i < ids.len() && ids[i] == x as u16;
            assert(ids.map_values(|x: u16| x as int)[i] == x);
        }
        assert(r.subset_of(s));
        vstd::set_lib::lemma_len_subset(r, s);
    }
}

proof fn lemma_lowest_free(ids: Seq<u16>, from: int, x: u16)
    requires
        0 <= from <= x,
        !ids.contains(x),
    ensures
        !ids.contains(lowest_free(ids, from)),
        from <= lowest_free(ids, from) <= x,
    decreases 65536 - from,
{
    if ids.contains(from as u16) {
        lemma_lowest_free(ids, from + 1, x);
    }
}

/// The next identifier is not in use.
pub proof fn law_next_id_is_free(ids: Seq<u16>)
    requires
        ids.len() < 65536,
    ensures
        !ids.contains(next_id(ids)),
{
    lemma_highest(ids);
    lemma_free_id(ids);
    let x = choose|x: u16| !#[trigger] ids.contains(x);
    lemma_lowest_free(ids, 0, x);
    if highest(ids) < 65535 && ids.contains(next_id(ids)) {
        let i = choose|i: int| 0 <= i < ids.len() && ids[i] == next_id(ids);
        assert(ids[i] <= highest(ids));
    }
}

fn collect_ids(node: &Node) -> (r: Vec<u16>)
    ensures
        r@ == used_ids(node@.owner),
{
    let active = &node.owner.active_connections;
    let pending = &node.owner.pending_connections;
    let mut out: Vec<u16> = Vec::new();
    let mut i: usize = 0;
    while i < active.len()
        invariant
            i <= active@.len(),
            out@.len() == i,
            forall|j: int| 0 <= j < i ==> #[trigger] out@[j] == active@[j].id,
        decreases active@.len() - i,
    {
        out.push(active[i].id);
        i += 1;
    }
    let mut j: usize = 0;
    while j < pending.len()
        invariant
            j <= pending@.len(),
            out@.len() == active@.len() + j,
            forall|k: int| 0 <= k < active@.len() ==> #[trigger] out@[k] == active@[k].id,
            forall|k: int|
                active@.len() <= k < out@.len() ==> #[trigger] out@[k] == pending@[k
                    - active@.len()].our_conn_id,
        decreases pending@.len() - j,
    {
        out.push(pending[j].our_conn_id);
        j += 1;
    }
    assert(out@ =~= used_ids(node@.owner));
    out
}

fn max_id(ids: &Vec<u16>) -> (r: u16)
    ensures
        r == highest(ids@),
{
    let mut m: u16 = 0;
    let mut i: usize = 0;
    assert(ids@.take(0) =~= Seq::empty());
    while i < ids.len()
        invariant
            i <= ids@.len(),
            m == highest(ids@.take(i as int)),
        decreases ids@.len() - i,
    {
        proof {
            assert(ids@.take(i + 1).drop_last() =~= ids@.take(i as int));
            assert(ids@.take(i + 1).last() == ids@[i as int]);
        }
        if ids[i] > m {
            m = ids[i];
        }
        i += 1;
    }
    assert(ids@.take(ids@.len() as int) =~= ids@);
    m
}

fn has_id(ids: &Vec<u16>, x: u16) -> (r: bool)
    ensures
        r == ids@.contains(x),
{
    let mut i: usize = 0;
    while i < ids.len()
        invariant
            i <= ids@.len(),
            forall|j: int| 0 <= j < i ==> #[trigger] ids@[j] != x,
        decreases ids@.len() - i,
    {
        if ids[i] == x {
            return true;
        }
        i += 1;
    }
    false
}

/// The next identifier after those in use; zero if every one is in use.
pub fn pick_id(ids: &Vec<u16>) -> (r: u16)
    ensures
        r == next_id(ids@),
{
    let max: u16 = max_id(ids);
    if max < 65535 {
        return max + 1;
    }
    let mut candidate: u16 = 0;
    while has_id(ids, candidate)
        invariant
            lowest_free(ids@, 0) == lowest_free(ids@, candidate as int),
            highest(ids@) == 65535,
        decreases 65536 - candidate,
    {
        if candidate == 65535 {
            assert(lowest_free(ids@, 65535) == lowest_free(ids@, 65536));
            return 0;
        }
        candidate += 1;
    }
    candidate
}

/// An identifier that no session, and none asked for, has.
pub fn allocate_conn_id(node: &Node) -> (r: u16)
    requires
        node.owner.active_connections@.len() + node.owner.pending_connections@.len() < 65536,
    ensures
        r == next_id(used_ids(node@.owner)),
        !used_ids(node@.owner).contains(r),
{
    let ids = collect_ids(node);
    proof {
        law_next_id_is_free(ids@);
    }
    pick_id(&ids)
}

/// A session that stays when `c` is put among the sessions: one with another
/// identifier and, if old sessions with the same device go, with another device.
pub open spec fn stays_beside(c: ActiveConnection, evict: bool) -> spec_fn(
    ActiveConnection,
) -> bool {
    |x: ActiveConnection| x.id != c.id && (!evict || x.device_uuid != c.device_uuid)
}

/// The sessions with `c` among them.
pub open spec fn with_conn(
    conns: Seq<ActiveConnection>,
    c: ActiveConnection,
    evict: bool,
) -> Seq<ActiveConnection> {
    model::keep(conns, stays_beside(c, evict)).push(c)
}

/// Puts `c` among the sessions.
pub fn put_conn(conns: &mut Vec<ActiveConnection>, c: ActiveConnection, evict: bool)
    ensures
        final(conns)@ == with_conn(old(conns)@, c, evict),
{
    let ghost s = conns@;
    let ghost p = stays_beside(c, evict);
    let mut out: Vec<ActiveConnection> = Vec::new();
    let mut i: usize = 0;
    assert(out@ =~= model::keep(s.take(0), p));
    while i < conns.len()
        invariant
            i <= conns@.len(),
            s == conns@,
            p == stays_beside(c, evict),
            out@ == model::keep(s.take(i as int), p),
        decreases conns@.len() - i,
    {
        let x = conns[i];
        if x.id != c.id && (!evict || !uuid_eq(&x.device_uuid, &c.device_uuid)) {
            out.push(x);
        }
        proof {
            model::lemma_keep_step(s, p, i as int);
        }
        i += 1;
    }
    assert(s.take(s.len() as int) =~= s);
    out.push(c);
    *conns = out;
}

/// The session put last is the one found under its identifier.
pub proof fn law_put_then_find(conns: Seq<ActiveConnection>, c: ActiveConnection, evict: bool)
    ensures
        ({
            let s = with_conn(conns, c, evict);
            &&& model::first_where(s, find::conn_has_id(c.id)) == Some(s.len() - 1)
            &&& s[s.len() - 1] == c
        }),
{
    let k = model::keep(conns, stays_beside(c, evict));
    let s = k.push(c);
    let i = k.len() as int;
    model::lemma_keep_again(conns, stays_beside(c, evict));
    assert forall|j: int| 0 <= j < i implies !find::conn_has_id(c.id)(#[trigger] s[j]) by {
        assert(s[j] == k[j]);
        assert(stays_beside(c, evict)(k[j]));
    }
    assert(model::is_first(s, find::conn_has_id(c.id), i));
    model::lemma_first_at(s, find::conn_has_id(c.id), i);
}

/// With eviction, at most one session per device is left: the new one.
pub proof fn law_eviction_leaves_one(conns: Seq<ActiveConnection>, c: ActiveConnection, i: int)
    requires
        0 <= i < with_conn(conns, c, true).len(),
        with_conn(conns, c, true)[i].device_uuid == c.device_uuid,
    ensures
        i == with_conn(conns, c, true).len() - 1,
{
    let k = model::keep(conns, stays_beside(c, true));
    model::lemma_keep_again(conns, stays_beside(c, true));
    if i < k.len() {
        assert(stays_beside(c, true)(k[i]));
    }
}

} // verus!
