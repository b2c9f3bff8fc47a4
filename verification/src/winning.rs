//! Who wins a merge, told by the entries of the two logs alone: by the ranks of
//! their writers and the numbers of their versions.
use crate::cards;
use crate::change;
use crate::change::ChangeView;
use crate::healing;
use crate::merge;
use crate::merge::ClaimView;
use crate::model;
use crate::order;
use crate::types::{SyncVersion, Uuid, WriteLogEntryView};
use vstd::prelude::*;

verus! {

/// A writer has a rank: that of its last mention, or the lowest there is if it is
/// not mentioned.
pub open spec fn ranked_at(ranks: Seq<(Uuid, u32)>, w: Uuid, r: u32) -> bool {
    ||| exists|i: int|
        0 <= i < ranks.len() && #[trigger] ranks[i] == (w, r) && forall|j: int|
            i < j < ranks.len() ==> (#[trigger] ranks[j]).0 != w
    ||| r == u32::MAX && forall|i: int| 0 <= i < ranks.len() ==> (#[trigger] ranks[i]).0 != w
}

/// What was committed at `a` yields to what was committed at `b`: its writer has
/// the worse rank, or, with equal ranks, its epoch is smaller, or, in the same
/// epoch, its number; at last the smaller identifier yields.
pub open spec fn yields(a: SyncVersion, b: SyncVersion, ranks: Seq<(Uuid, u32)>) -> bool {
    exists|x: u32, y: u32| #[trigger]
        ranked_at(ranks, a.writer_sg_uuid, x) && #[trigger] ranked_at(ranks, b.writer_sg_uuid, y)
            && (x > y || x == y && (a.epoch < b.epoch || a.epoch == b.epoch && (a.seq < b.seq
            || a.seq == b.seq && order::lex_lt(a.writer_sg_uuid@, b.writer_sg_uuid@))))
}

/// The entries of a log.
pub open spec fn held(log: Seq<WriteLogEntryView>) -> spec_fn(WriteLogEntryView) -> bool {
    |e: WriteLogEntryView| log.contains(e)
}

/// The entries of either log; where both have a version, that of the first.
pub open spec fn either(
    a: Seq<WriteLogEntryView>,
    b: Seq<WriteLogEntryView>,
) -> spec_fn(WriteLogEntryView) -> bool {
    |e: WriteLogEntryView|
        a.contains(e) || b.contains(e) && forall|l: WriteLogEntryView| #[trigger]
            a.contains(l) ==> l.version != e.version
}

pub open spec fn is_add(e: WriteLogEntryView, d: Uuid, id: Uuid) -> bool {
    change::parse_change(e.change_payload) matches Some(
        ChangeView::AddApplication { device_uuid, app_id, .. },
    ) && device_uuid == d && app_id == id
}

pub open spec fn is_removal(e: WriteLogEntryView, d: Uuid, id: Uuid) -> bool {
    change::parse_change(e.change_payload) == Some(
        ChangeView::RemoveApplication { device_uuid: d, app_id: id },
    )
}

pub open spec fn is_rename(e: WriteLogEntryView, d: Uuid, id: Uuid) -> bool {
    change::parse_change(e.change_payload) matches Some(
        ChangeView::UpdateApplicationAlias { device_uuid, app_id, .. },
    ) && device_uuid == d && app_id == id
}

/// The entries have an application: one adds it and none removes it.
pub open spec fn present(
    all: spec_fn(WriteLogEntryView) -> bool,
    d: Uuid,
    id: Uuid,
) -> bool {
    &&& exists|e: WriteLogEntryView| #[trigger] all(e) && is_add(e, d, id)
    &&& forall|e: WriteLogEntryView| #[trigger] all(e) ==> !is_removal(e, d, id)
}

/// The entry `e` gives an application its name: all other renamings yield to it,
/// or, if there is none, all other additions do.
pub open spec fn names(
    all: spec_fn(WriteLogEntryView) -> bool,
    ranks: Seq<(Uuid, u32)>,
    d: Uuid,
    id: Uuid,
    e: WriteLogEntryView,
) -> bool {
    &&& all(e)
    &&& if exists|f: WriteLogEntryView| #[trigger] all(f) && is_rename(f, d, id) {
        &&& is_rename(e, d, id)
        &&& forall|f: WriteLogEntryView| #[trigger]
            all(f) && is_rename(f, d, id) ==> yields(f.version, e.version, ranks) || f.version
                == e.version && f.change_payload == e.change_payload
    } else {
        &&& is_add(e, d, id)
        &&& forall|f: WriteLogEntryView| #[trigger]
            all(f) && is_add(f, d, id) ==> yields(f.version, e.version, ranks) || f.version
                == e.version && f.change_payload == e.change_payload
    }
}

/// The name in an entry that adds or renames an application.
pub open spec fn name_of(e: WriteLogEntryView) -> Seq<char> {
    match change::parse_change(e.change_payload) {
        Some(ChangeView::AddApplication { app_alias, .. }) => app_alias,
        Some(ChangeView::UpdateApplicationAlias { new_alias, .. }) => new_alias,
        _ => Seq::empty(),
    }
}

/// What a merge changes on this side.
pub open spec fn outcome(
    local: Seq<WriteLogEntryView>,
    peer: Seq<WriteLogEntryView>,
    ranks: Seq<(Uuid, u32)>,
) -> Seq<ChangeView> {
    if merge::news(local, peer).len() == 0 {
        Seq::empty()
    } else {
        merge::difference(
            merge::claims_of(local),
            merge::claims_of(merge::merged(local, peer)),
            ranks,
        )
    }
}

proof fn lemma_rank(ranks: Seq<(Uuid, u32)>, w: Uuid, r: u32)
    requires
        ranked_at(ranks, w, r),
    ensures
        merge::rank_of(ranks, w) == r,
    decreases ranks.len(),
{
    if ranks.len() > 0 && ranks.last().0 != w {
        let t = ranks.drop_last();
        assert(ranks[ranks.len() - 1] == ranks.last());
        if exists|i: int|
            0 <= i < ranks.len() && #[trigger] ranks[i] == (w, r) && forall|j: int|
                i < j < ranks.len() ==> (#[trigger] ranks[j]).0 != w {
            let i = choose|i: int|
                0 <= i < ranks.len() && #[trigger] ranks[i] == (w, r) && forall|j: int|
                    i < j < ranks.len() ==> (#[trigger] ranks[j]).0 != w;
            assert(t[i] == (w, r));
            assert forall|j: int| i < j < t.len() implies (#[trigger] t[j]).0 != w by {
                assert(t[j] == ranks[j]);
            }
        } else {
            assert forall|j: int| 0 <= j < t.len() implies (#[trigger] t[j]).0 != w by {
                assert(t[j] == ranks[j]);
            }
        }
        lemma_rank(t, w, r);
    } else if ranks.len() > 0 {
        let n = ranks.len() - 1;
        assert(ranks[n].0 == w);
        if exists|i: int|
            0 <= i < ranks.len() && #[trigger] ranks[i] == (w, r) && forall|j: int|
                i < j < ranks.len() ==> (#[trigger] ranks[j]).0 != w {
            let i = choose|i: int|
                0 <= i < ranks.len() && #[trigger] ranks[i] == (w, r) && forall|j: int|
                    i < j < ranks.len() ==> (#[trigger] ranks[j]).0 != w;
            assert(i == n);
        }
    }
}

proof fn lemma_yields(a: SyncVersion, b: SyncVersion, ranks: Seq<(Uuid, u32)>)
    requires
        yields(a, b, ranks),
    ensures
        merge::weaker(merge::strength(a, ranks), merge::strength(b, ranks)),
{
    let (x, y) = choose|x: u32, y: u32| #[trigger]
        ranked_at(ranks, a.writer_sg_uuid, x) && #[trigger] ranked_at(ranks, b.writer_sg_uuid, y)
            && (x > y || x == y && (a.epoch < b.epoch || a.epoch == b.epoch && (a.seq < b.seq
            || a.seq == b.seq && order::lex_lt(a.writer_sg_uuid@, b.writer_sg_uuid@))));
    lemma_rank(ranks, a.writer_sg_uuid, x);
    lemma_rank(ranks, b.writer_sg_uuid, y);
}

/// A set of entries is that of a log.
pub open spec fn lists(
    log: Seq<WriteLogEntryView>,
    all: spec_fn(WriteLogEntryView) -> bool,
) -> bool {
    forall|e: WriteLogEntryView| #[trigger] all(e) <==> log.contains(e)
}

/// If all others yield to `e`, the strongest claim says what `e` says.
proof fn lemma_strongest_says(
    log: Seq<WriteLogEntryView>,
    ranks: Seq<(Uuid, u32)>,
    p: spec_fn(ClaimView) -> bool,
    e: WriteLogEntryView,
)
    requires
        log.contains(e),
        p(merge::claim_of(e)),
        forall|f: WriteLogEntryView| #[trigger]
            log.contains(f) && p(merge::claim_of(f)) ==> yields(f.version, e.version, ranks)
                || f.version == e.version && f.change_payload == e.change_payload,
    ensures
        model::any_where(merge::claims_of(log), p),
        ({
            let c = merge::claims_of(log);
            c[merge::strongest(c, p, ranks)] == merge::claim_of(e)
        }),
{
    let c = merge::claims_of(log);
    let k = choose|k: int| 0 <= k < log.len() && log[k] == e;
    assert(c[k] == merge::claim_of(e));
    assert(p(c[k]));
    merge::lemma_strongest_exists(c, p, ranks);
    let s = merge::strongest(c, p, ranks);
    assert(p(c[s]));
    assert(log.contains(log[s]));
    assert(c[s] == merge::claim_of(log[s]));
    if yields(log[s].version, e.version, ranks) {
        lemma_yields(log[s].version, e.version, ranks);
        merge::lemma_weaker(log[s].version, e.version, ranks);
        assert(false);
    }
}

proof fn lemma_app_named(
    log: Seq<WriteLogEntryView>,
    all: spec_fn(WriteLogEntryView) -> bool,
    ranks: Seq<(Uuid, u32)>,
    d: Uuid,
    id: Uuid,
    e: WriteLogEntryView,
)
    requires
        lists(log, all),
        present(all, d, id),
        names(all, ranks, d, id, e),
    ensures
        merge::app_in(merge::claims_of(log), ranks, d, id) == Some(name_of(e)),
{
    let c = merge::claims_of(log);
    let add = choose|f: WriteLogEntryView| #[trigger] all(f) && is_add(f, d, id);
    assert(log.contains(add));
    let a = choose|a: int| 0 <= a < log.len() && log[a] == add;
    assert(merge::adds_app(d, id)(c[a]));
    if model::any_where(c, merge::removes_app(d, id)) {
        let i = choose|i: int|
            0 <= i < c.len() && merge::removes_app(d, id)(#[trigger] c[i]);
        assert(log.contains(log[i]));
        assert(all(log[i]));
        assert(is_removal(log[i], d, id));
    }
    if exists|f: WriteLogEntryView| #[trigger] all(f) && is_rename(f, d, id) {
        let p = merge::renames_app(d, id);
        assert forall|f: WriteLogEntryView| #[trigger]
            log.contains(f) && p(merge::claim_of(f)) implies yields(f.version, e.version, ranks)
            || f.version == e.version && f.change_payload == e.change_payload by {
            assert(all(f) && is_rename(f, d, id));
        }
        lemma_strongest_says(log, ranks, p, e);
    } else {
        let p = merge::adds_app(d, id);
        assert forall|f: WriteLogEntryView| #[trigger]
            log.contains(f) && p(merge::claim_of(f)) implies yields(f.version, e.version, ranks)
            || f.version == e.version && f.change_payload == e.change_payload by {
            assert(all(f) && is_add(f, d, id));
        }
        lemma_strongest_says(log, ranks, p, e);
        if model::any_where(c, merge::renames_app(d, id)) {
            let i = choose|i: int|
                0 <= i < c.len() && merge::renames_app(d, id)(#[trigger] c[i]);
            assert(log.contains(log[i]));
            assert(all(log[i]) && is_rename(log[i], d, id));
        }
    }
}

proof fn lemma_app_absent(
    log: Seq<WriteLogEntryView>,
    all: spec_fn(WriteLogEntryView) -> bool,
    ranks: Seq<(Uuid, u32)>,
    d: Uuid,
    id: Uuid,
)
    requires
        lists(log, all),
        !present(all, d, id),
    ensures
        merge::app_in(merge::claims_of(log), ranks, d, id) is None,
{
    let c = merge::claims_of(log);
    if exists|e: WriteLogEntryView| #[trigger] all(e) && is_add(e, d, id) {
        let e = choose|e: WriteLogEntryView| #[trigger] all(e) && is_removal(e, d, id);
        assert(log.contains(e));
        let i = choose|i: int| 0 <= i < log.len() && log[i] == e;
        assert(merge::removes_app(d, id)(c[i]));
    } else if model::any_where(c, merge::adds_app(d, id)) {
        let i = choose|i: int| 0 <= i < c.len() && merge::adds_app(d, id)(#[trigger] c[i]);
        assert(log.contains(log[i]));
        assert(all(log[i]) && is_add(log[i], d, id));
    }
}

proof fn lemma_either(a: Seq<WriteLogEntryView>, b: Seq<WriteLogEntryView>)
    ensures
        lists(merge::merged(a, b), either(a, b)),
{
    let m = merge::merged(a, b);
    let n = merge::news(a, b);
    let all = either(a, b);
    assert forall|e: WriteLogEntryView| #[trigger] all(e) <==> m.contains(e) by {
        model::lemma_keep_contains(b, merge::unknown_to(a), e);
        let known = model::any_where(a, merge::at_version(e.version));
        if known {
            let i = choose|i: int|
                0 <= i < a.len() && merge::at_version(e.version)(#[trigger] a[i]);
            assert(a.contains(a[i]));
        }
        if exists|l: WriteLogEntryView| #[trigger] a.contains(l) && l.version == e.version {
            let l = choose|l: WriteLogEntryView| #[trigger]
                a.contains(l) && l.version == e.version;
            let i = choose|i: int| 0 <= i < a.len() && a[i] == l;
            assert(merge::at_version(e.version)(a[i]));
        }
        if a.contains(e) {
            let i = choose|i: int| 0 <= i < a.len() && a[i] == e;
            assert(m[i] == e);
        }
        if n.contains(e) {
            let i = choose|i: int| 0 <= i < n.len() && n[i] == e;
            assert(m[a.len() + i] == e);
        }
        if m.contains(e) {
            let i = choose|i: int| 0 <= i < m.len() && m[i] == e;
            if i < a.len() {
                assert(a[i] == e);
            } else {
                assert(n[i - a.len()] == e);
            }
        }
    }
}

/// What a merge takes over of the peer's log are its entries at versions that
/// the own log does not have.
pub proof fn law_news_are_unknown(
    local: Seq<WriteLogEntryView>,
    peer: Seq<WriteLogEntryView>,
    e: WriteLogEntryView,
)
    ensures
        merge::news(local, peer).contains(e) <==> peer.contains(e) && forall|i: int|
            0 <= i < local.len() ==> (#[trigger] local[i]).version != e.version,
{
    model::lemma_keep_contains(peer, merge::unknown_to(local), e);
    if model::any_where(local, merge::at_version(e.version)) {
        let i = choose|i: int|
            0 <= i < local.len() && merge::at_version(e.version)(#[trigger] local[i]);
        assert(local[i].version == e.version);
    } else {
        assert forall|i: int| 0 <= i < local.len() implies (#[trigger] local[i]).version
            != e.version by {
            assert(!merge::at_version(e.version)(local[i]));
        }
    }
}

/// Where the logs differ in what they say, there is news.
proof fn lemma_no_news(local: Seq<WriteLogEntryView>, peer: Seq<WriteLogEntryView>)
    requires
        merge::news(local, peer).len() == 0,
    ensures
        merge::merged(local, peer) == local,
{
    assert(merge::merged(local, peer) =~= local);
}

/// The parts of what a merge changes.
proof fn lemma_in_difference(
    cur: Seq<ClaimView>,
    tgt: Seq<ClaimView>,
    ranks: Seq<(Uuid, u32)>,
    c: ChangeView,
)
    ensures
        merge::difference(cur, tgt, ranks).contains(c) <==> {
            ||| exists|u: Uuid| #[trigger]
                merge::new_device(cur, tgt)(u) && merge::device_in(tgt, u) == Some(c)
            ||| exists|k: (Uuid, Uuid)| #[trigger]
                merge::new_app(cur, tgt, ranks)(k) && merge::app_change(cur, tgt, ranks, k) == c
            ||| exists|k: (Uuid, Uuid)| #[trigger]
                merge::gone_app(cur, tgt, ranks)(k) && (ChangeView::RemoveApplication {
                    device_uuid: k.0,
                    app_id: k.1,
                }) == c
            ||| exists|u: Uuid| #[trigger]
                merge::new_contact(cur, tgt, ranks)(u) && merge::contact_in(tgt, ranks, u) == Some(
                    c,
                )
        },
{
    let dk = order::listing(merge::new_device(cur, tgt), order::uuid_key());
    let ak = order::listing(merge::new_app(cur, tgt, ranks), order::two_key());
    let gk = order::listing(merge::gone_app(cur, tgt, ranks), order::two_key());
    let ck = order::listing(merge::new_contact(cur, tgt, ranks), order::uuid_key());
    let c1 = merge::device_changes(tgt, dk);
    let c2 = merge::app_changes(cur, tgt, ranks, ak);
    let c3 = merge::gone_changes(gk);
    let c4 = merge::contact_changes(tgt, ranks, ck);
    let all = merge::difference(cur, tgt, ranks);
    healing::lemma_parts(cur, tgt, ranks);
    if all.contains(c) {
        let i = choose|i: int| 0 <= i < all.len() && all[i] == c;
        if i < c1.len() {
            assert(all[i] == c1[i]);
            assert(dk.contains(dk[i]));
            assert(merge::new_device(cur, tgt)(dk[i]));
        } else if i < c1.len() + c2.len() {
            let j = i - c1.len();
            assert(all[i] == c2[j]);
            assert(ak.contains(ak[j]));
            assert(merge::new_app(cur, tgt, ranks)(ak[j]));
        } else if i < c1.len() + c2.len() + c3.len() {
            let j = i - c1.len() - c2.len();
            assert(all[i] == c3[j]);
            assert(gk.contains(gk[j]));
            assert(merge::gone_app(cur, tgt, ranks)(gk[j]));
        } else {
            let j = i - c1.len() - c2.len() - c3.len();
            assert(all[i] == c4[j]);
            assert(ck.contains(ck[j]));
            assert(merge::new_contact(cur, tgt, ranks)(ck[j]));
        }
    }
    if exists|u: Uuid| #[trigger]
        merge::new_device(cur, tgt)(u) && merge::device_in(tgt, u) == Some(c) {
        let u = choose|u: Uuid| #[trigger]
            merge::new_device(cur, tgt)(u) && merge::device_in(tgt, u) == Some(c);
        assert(dk.contains(u));
        let j = choose|j: int| 0 <= j < dk.len() && dk[j] == u;
        assert(all[j] == c1[j]);
    }
    if exists|k: (Uuid, Uuid)| #[trigger]
        merge::new_app(cur, tgt, ranks)(k) && merge::app_change(cur, tgt, ranks, k) == c {
        let k = choose|k: (Uuid, Uuid)| #[trigger]
            merge::new_app(cur, tgt, ranks)(k) && merge::app_change(cur, tgt, ranks, k) == c;
        assert(ak.contains(k));
        let j = choose|j: int| 0 <= j < ak.len() && ak[j] == k;
        assert(all[c1.len() + j] == c2[j]);
    }
    if exists|k: (Uuid, Uuid)| #[trigger]
        merge::gone_app(cur, tgt, ranks)(k) && (ChangeView::RemoveApplication {
            device_uuid: k.0,
            app_id: k.1,
        }) == c {
        let k = choose|k: (Uuid, Uuid)| #[trigger]
            merge::gone_app(cur, tgt, ranks)(k) && (ChangeView::RemoveApplication {
                device_uuid: k.0,
                app_id: k.1,
            }) == c;
        assert(gk.contains(k));
        let j = choose|j: int| 0 <= j < gk.len() && gk[j] == k;
        assert(all[c1.len() + c2.len() + j] == c3[j]);
    }
    if exists|u: Uuid| #[trigger]
        merge::new_contact(cur, tgt, ranks)(u) && merge::contact_in(tgt, ranks, u) == Some(c) {
        let u = choose|u: Uuid| #[trigger]
            merge::new_contact(cur, tgt, ranks)(u) && merge::contact_in(tgt, ranks, u) == Some(c);
        assert(ck.contains(u));
        let j = choose|j: int| 0 <= j < ck.len() && ck[j] == u;
        assert(all[c1.len() + c2.len() + c3.len() + j] == c4[j]);
    }
}

/// A change in what a merge brings about that speaks of an application makes it
/// what the merged log says of it.
proof fn lemma_app_changes(
    local: Seq<WriteLogEntryView>,
    peer: Seq<WriteLogEntryView>,
    ranks: Seq<(Uuid, u32)>,
    d: Uuid,
    id: Uuid,
    c: ChangeView,
)
    requires
        healing::on_app(c, d, id),
    ensures
        ({
            let cur = merge::app_in(merge::claims_of(local), ranks, d, id);
            let tgt = merge::app_in(merge::claims_of(merge::merged(local, peer)), ranks, d, id);
            outcome(local, peer, ranks).contains(c) <==> cur != tgt && c == match (cur, tgt) {
                (None, Some(a)) => ChangeView::AddApplication {
                    device_uuid: d,
                    app_id: id,
                    app_alias: a,
                },
                (Some(_), Some(a)) => ChangeView::UpdateApplicationAlias {
                    device_uuid: d,
                    app_id: id,
                    new_alias: a,
                },
                _ => ChangeView::RemoveApplication { device_uuid: d, app_id: id },
            }
        }),
{
    let cur = merge::claims_of(local);
    let tgt = merge::claims_of(merge::merged(local, peer));
    if merge::news(local, peer).len() == 0 {
        lemma_no_news(local, peer);
    } else {
        lemma_in_difference(cur, tgt, ranks, c);
        let k = (d, id);
        if exists|u: Uuid| #[trigger]
            merge::new_device(cur, tgt)(u) && merge::device_in(tgt, u) == Some(c) {
            let u = choose|u: Uuid| #[trigger]
                merge::new_device(cur, tgt)(u) && merge::device_in(tgt, u) == Some(c);
            merge::lemma_device_in(tgt, u);
        }
        if exists|u: Uuid| #[trigger]
            merge::new_contact(cur, tgt, ranks)(u) && merge::contact_in(tgt, ranks, u) == Some(c) {
            let u = choose|u: Uuid| #[trigger]
                merge::new_contact(cur, tgt, ranks)(u) && merge::contact_in(tgt, ranks, u) == Some(
                    c,
                );
            merge::lemma_contact_in(tgt, ranks, u);
        }
        if merge::new_app(cur, tgt, ranks)(k) {
            assert(merge::app_change(cur, tgt, ranks, k) == merge::app_change(cur, tgt, ranks, k));
        }
        if merge::gone_app(cur, tgt, ranks)(k) {
            assert(k.0 == d);
        }
    }
}

/// After a merge an application is called as the entry says to which all other
/// renamings in either log yield: by the rank of their writers, then by epoch,
/// then by number. What was called otherwise is renamed, what was not there is
/// added, and nothing else is done about it.
pub proof fn law_winner_gives_the_name(
    local: Seq<WriteLogEntryView>,
    peer: Seq<WriteLogEntryView>,
    ranks: Seq<(Uuid, u32)>,
    d: Uuid,
    id: Uuid,
    e: WriteLogEntryView,
    c: ChangeView,
)
    requires
        present(either(local, peer), d, id),
        names(either(local, peer), ranks, d, id, e),
        healing::on_app(c, d, id),
    ensures
        !present(held(local), d, id) ==> (outcome(local, peer, ranks).contains(c) <==> c == (
        ChangeView::AddApplication { device_uuid: d, app_id: id, app_alias: name_of(e) })),
        present(held(local), d, id) ==> forall|f: WriteLogEntryView| #[trigger]
            names(held(local), ranks, d, id, f) ==> (outcome(local, peer, ranks).contains(c)
                <==> name_of(f) != name_of(e) && c == (ChangeView::UpdateApplicationAlias {
                device_uuid: d,
                app_id: id,
                new_alias: name_of(e),
            })),
{
    lemma_either(local, peer);
    lemma_app_named(merge::merged(local, peer), either(local, peer), ranks, d, id, e);
    lemma_app_changes(local, peer, ranks, d, id, c);
    if present(held(local), d, id) {
        assert forall|f: WriteLogEntryView| #[trigger]
            names(held(local), ranks, d, id, f) implies (outcome(local, peer, ranks).contains(c)
            <==> name_of(f) != name_of(e) && c == (ChangeView::UpdateApplicationAlias {
            device_uuid: d,
            app_id: id,
            new_alias: name_of(e),
        })) by {
            lemma_app_named(local, held(local), ranks, d, id, f);
        }
    } else {
        lemma_app_absent(local, held(local), ranks, d, id);
    }
}

/// After a merge an application is gone that an entry of either log removes,
/// and nothing else is done about it.
pub proof fn law_removed_in_either_log(
    local: Seq<WriteLogEntryView>,
    peer: Seq<WriteLogEntryView>,
    ranks: Seq<(Uuid, u32)>,
    d: Uuid,
    id: Uuid,
    f: WriteLogEntryView,
    c: ChangeView,
)
    requires
        !present(either(local, peer), d, id),
        healing::on_app(c, d, id),
    ensures
        present(held(local), d, id) && names(held(local), ranks, d, id, f) ==> (outcome(
            local,
            peer,
            ranks,
        ).contains(c) <==> c == (ChangeView::RemoveApplication { device_uuid: d, app_id: id })),
        !present(held(local), d, id) ==> !outcome(local, peer, ranks).contains(c),
{
    lemma_either(local, peer);
    lemma_app_absent(merge::merged(local, peer), either(local, peer), ranks, d, id);
    lemma_app_changes(local, peer, ranks, d, id, c);
    if !present(held(local), d, id) {
        lemma_app_absent(local, held(local), ranks, d, id);
    } else if names(held(local), ranks, d, id, f) {
        lemma_app_named(local, held(local), ranks, d, id, f);
    }
}

pub open spec fn is_contact(e: WriteLogEntryView, u: Uuid) -> bool {
    change::parse_change(e.change_payload) matches Some(ChangeView::UpsertContact { uuid, .. })
        && uuid == u
}

/// The entry `e` says what a contact is: all others that set it yield to it.
pub open spec fn describes(
    all: spec_fn(WriteLogEntryView) -> bool,
    ranks: Seq<(Uuid, u32)>,
    u: Uuid,
    e: WriteLogEntryView,
) -> bool {
    &&& all(e) && is_contact(e, u)
    &&& forall|f: WriteLogEntryView| #[trigger]
        all(f) && is_contact(f, u) ==> yields(f.version, e.version, ranks) || f.version
            == e.version && f.change_payload == e.change_payload
}

/// The contact in an entry, with its cards in normal order.
pub open spec fn contact_of(e: WriteLogEntryView) -> Option<ChangeView> {
    match change::parse_change(e.change_payload) {
        Some(ChangeView::UpsertContact { uuid, alias, public_key, devices }) => Some(
            ChangeView::UpsertContact {
                uuid,
                alias,
                public_key,
                devices: cards::normal_cards(devices),
            },
        ),
        _ => None,
    }
}

proof fn lemma_contact_described(
    log: Seq<WriteLogEntryView>,
    all: spec_fn(WriteLogEntryView) -> bool,
    ranks: Seq<(Uuid, u32)>,
    u: Uuid,
    e: WriteLogEntryView,
)
    requires
        lists(log, all),
        describes(all, ranks, u, e),
    ensures
        merge::contact_in(merge::claims_of(log), ranks, u) == contact_of(e),
{
    let p = merge::sets_contact(u);
    assert(log.contains(e));
    assert forall|f: WriteLogEntryView| #[trigger]
        log.contains(f) && p(merge::claim_of(f)) implies yields(f.version, e.version, ranks)
        || f.version == e.version && f.change_payload == e.change_payload by {
        assert(all(f) && is_contact(f, u));
    }
    lemma_strongest_says(log, ranks, p, e);
}

/// After a merge a contact is as the entry says to which all others in either
/// log yield that set it. It is set if it was not there or was otherwise, and
/// nothing else is done about it.
pub proof fn law_winner_describes_the_contact(
    local: Seq<WriteLogEntryView>,
    peer: Seq<WriteLogEntryView>,
    ranks: Seq<(Uuid, u32)>,
    u: Uuid,
    e: WriteLogEntryView,
    c: ChangeView,
)
    requires
        describes(either(local, peer), ranks, u, e),
        healing::on_contact(c, u),
    ensures
        (forall|f: WriteLogEntryView| #[trigger] local.contains(f) ==> !is_contact(f, u)) ==> (
        outcome(local, peer, ranks).contains(c) <==> Some(c) == contact_of(e)),
        forall|f: WriteLogEntryView| #[trigger]
            describes(held(local), ranks, u, f) ==> (outcome(local, peer, ranks).contains(c)
                <==> contact_of(f) != contact_of(e) && Some(c) == contact_of(e)),
{
    let cur = merge::claims_of(local);
    let tgt = merge::claims_of(merge::merged(local, peer));
    lemma_either(local, peer);
    lemma_contact_described(merge::merged(local, peer), either(local, peer), ranks, u, e);
    let out = outcome(local, peer, ranks);
    assert(out.contains(c) <==> merge::contact_in(cur, ranks, u) != merge::contact_in(tgt, ranks, u)
        && Some(c) == contact_of(e)) by {
        if merge::news(local, peer).len() == 0 {
            lemma_no_news(local, peer);
        } else {
            lemma_in_difference(cur, tgt, ranks, c);
            if exists|v: Uuid| #[trigger]
                merge::new_device(cur, tgt)(v) && merge::device_in(tgt, v) == Some(c) {
                let v = choose|v: Uuid| #[trigger]
                    merge::new_device(cur, tgt)(v) && merge::device_in(tgt, v) == Some(c);
                merge::lemma_device_in(tgt, v);
            }
            if exists|v: Uuid| #[trigger]
                merge::new_contact(cur, tgt, ranks)(v) && merge::contact_in(tgt, ranks, v) == Some(
                    c,
                ) {
                let v = choose|v: Uuid| #[trigger]
                    merge::new_contact(cur, tgt, ranks)(v) && merge::contact_in(tgt, ranks, v)
                        == Some(c);
                merge::lemma_contact_in(tgt, ranks, v);
                assert(v == u);
            }
            if merge::new_contact(cur, tgt, ranks)(u) {
                assert(merge::contact_in(tgt, ranks, u) == contact_of(e));
            }
        }
    }
    if forall|f: WriteLogEntryView| #[trigger] local.contains(f) ==> !is_contact(f, u) {
        if model::any_where(cur, merge::sets_contact(u)) {
            let i = choose|i: int| 0 <= i < cur.len() && merge::sets_contact(u)(#[trigger] cur[i]);
            assert(local.contains(local[i]));
        }
    }
    assert forall|f: WriteLogEntryView| #[trigger]
        describes(held(local), ranks, u, f) implies (out.contains(c) <==> contact_of(f)
        != contact_of(e) && Some(c) == contact_of(e)) by {
        lemma_contact_described(local, held(local), ranks, u, f);
    }
}

pub open spec fn is_device(e: WriteLogEntryView, u: Uuid) -> bool {
    change::parse_change(e.change_payload) matches Some(ChangeView::AddDevice { uuid, .. })
        && uuid == u
}

/// `a` was committed before `b`: in an earlier epoch, or in the same one under a
/// smaller number, or at last by the writer with the smaller identifier.
pub open spec fn before(a: SyncVersion, b: SyncVersion) -> bool {
    a.epoch < b.epoch || a.epoch == b.epoch && (a.seq < b.seq || a.seq == b.seq && order::lex_lt(
        a.writer_sg_uuid@,
        b.writer_sg_uuid@,
    ))
}

/// After a merge a device that was not there is added as the first entry of
/// either log says that adds it; a device that was there is left alone.
pub proof fn law_first_describes_the_device(
    local: Seq<WriteLogEntryView>,
    peer: Seq<WriteLogEntryView>,
    ranks: Seq<(Uuid, u32)>,
    u: Uuid,
    e: WriteLogEntryView,
    c: ChangeView,
)
    requires
        either(local, peer)(e) && is_device(e, u),
        forall|f: WriteLogEntryView| #[trigger]
            either(local, peer)(f) && is_device(f, u) ==> before(e.version, f.version) || f.version
                == e.version && f.change_payload == e.change_payload,
        c matches ChangeView::AddDevice { uuid, .. } && uuid == u,
    ensures
        outcome(local, peer, ranks).contains(c) <==> (forall|f: WriteLogEntryView| #[trigger]
            local.contains(f) ==> !is_device(f, u)) && Some(c) == change::parse_change(
            e.change_payload,
        ),
{
    let all = either(local, peer);
    let log = merge::merged(local, peer);
    let cur = merge::claims_of(local);
    let tgt = merge::claims_of(log);
    let p = merge::adds_device(u);
    lemma_either(local, peer);
    assert(all(e));
    assert(log.contains(e));
    let k = choose|k: int| 0 <= k < log.len() && log[k] == e;
    assert(p(tgt[k]));
    merge::lemma_earliest_exists(tgt, p);
    let s = merge::earliest(tgt, p);
    assert(p(tgt[s]));
    assert(log.contains(log[s]));
    assert(all(log[s]) && is_device(log[s], u));
    merge::lemma_earlier(e.version, log[s].version);
    assert(merge::device_in(tgt, u) == change::parse_change(e.change_payload));
    merge::lemma_device_in(cur, u);
    if model::any_where(cur, p) {
        let i = choose|i: int| 0 <= i < cur.len() && p(#[trigger] cur[i]);
        assert(local.contains(local[i]));
        assert(is_device(local[i], u));
    } else {
        assert forall|f: WriteLogEntryView| #[trigger] local.contains(f) implies !is_device(f, u) by {
            let i = choose|i: int| 0 <= i < local.len() && local[i] == f;
            assert(!p(cur[i]));
        }
    }
    if merge::news(local, peer).len() == 0 {
        lemma_no_news(local, peer);
    } else {
        lemma_in_difference(cur, tgt, ranks, c);
        if exists|v: Uuid| #[trigger]
            merge::new_device(cur, tgt)(v) && merge::device_in(tgt, v) == Some(c) {
            let v = choose|v: Uuid| #[trigger]
                merge::new_device(cur, tgt)(v) && merge::device_in(tgt, v) == Some(c);
            merge::lemma_device_in(tgt, v);
            assert(v == u);
        }
        if exists|v: Uuid| #[trigger]
            merge::new_contact(cur, tgt, ranks)(v) && merge::contact_in(tgt, ranks, v) == Some(c) {
            let v = choose|v: Uuid| #[trigger]
                merge::new_contact(cur, tgt, ranks)(v) && merge::contact_in(tgt, ranks, v) == Some(
                    c,
                );
            merge::lemma_contact_in(tgt, ranks, v);
        }
        if merge::device_in(cur, u) is None {
            assert(merge::new_device(cur, tgt)(u));
        }
    }
}

/// Devices come before everything else in what a merge changes, so that the
/// applications on them find them.
pub proof fn law_devices_come_first(
    local: Seq<WriteLogEntryView>,
    peer: Seq<WriteLogEntryView>,
    ranks: Seq<(Uuid, u32)>,
    i: int,
    j: int,
)
    requires
        0 <= i < j < outcome(local, peer, ranks).len(),
        outcome(local, peer, ranks)[j] is AddDevice,
    ensures
        outcome(local, peer, ranks)[i] is AddDevice,
{
    let cur = merge::claims_of(local);
    let tgt = merge::claims_of(merge::merged(local, peer));
    let dk = order::listing(merge::new_device(cur, tgt), order::uuid_key());
    let ck = order::listing(merge::new_contact(cur, tgt, ranks), order::uuid_key());
    let all = merge::difference(cur, tgt, ranks);
    healing::lemma_parts(cur, tgt, ranks);
    assert forall|x: int| 0 <= x < dk.len() implies all[x] is AddDevice by {
        assert(dk.contains(dk[x]));
        merge::lemma_device_in(tgt, dk[x]);
    }
    let rest = all.len() - ck.len();
    if j >= rest {
        assert(ck.contains(ck[j - rest]));
        merge::lemma_contact_in(tgt, ranks, ck[j - rest]);
    }
    assert(j < dk.len());
}

} // verus!
