//! What a merge makes of a server's state: afterwards the state says what the
//! merged log says.
use crate::apply;
use crate::cards;
use crate::change::ChangeView;
use crate::find;
use crate::merge;
use crate::merge::ClaimView;
use crate::model;
use crate::order;
use crate::reconcile;
use crate::sync;
use crate::types::{ApplicationView, NodeView, OwnerView, Scope, Uuid, WriteLogEntryView};
use vstd::prelude::*;

verus! {

/// The name under which a state has an application, if it has it.
pub open spec fn app_of(o: OwnerView, d: Uuid, id: Uuid) -> Option<Seq<char>> {
    match o.device_index(d) {
        Some(i) => {
            let apps = o.user.devices[i].applications;
            match model::first_where(apps, find::app_is(id)) {
                Some(j) => Some(apps[j].alias),
                None => None,
            }
        },
        None => None,
    }
}

/// A state has a contact as a change describes it.
pub open spec fn contact_as(o: OwnerView, u: Uuid, c: ChangeView) -> bool {
    match (o.contact_index(u), c) {
        (
            Some(i),
            ChangeView::UpsertContact { uuid, alias, public_key, devices },
        ) => apply::contact_unchanged(o.contact_users[i], alias, public_key, devices),
        _ => false,
    }
}

/// A change that speaks of an application.
pub open spec fn on_app(c: ChangeView, d: Uuid, id: Uuid) -> bool {
    match c {
        ChangeView::AddApplication { device_uuid, app_id, .. } => device_uuid == d && app_id == id,
        ChangeView::RemoveApplication { device_uuid, app_id } => device_uuid == d && app_id == id,
        ChangeView::UpdateApplicationAlias { device_uuid, app_id, .. } => device_uuid == d && app_id
            == id,
        _ => false,
    }
}

/// A change that speaks of a contact.
pub open spec fn on_contact(c: ChangeView, u: Uuid) -> bool {
    c matches ChangeView::UpsertContact { uuid, .. } && uuid == u
}

/// The state after a change, or the same if it cannot be made.
pub open spec fn after(o: OwnerView, c: ChangeView) -> OwnerView {
    match apply::applied(o, c) {
        Some((_, p)) => p,
        None => o,
    }
}

/// The state after changes, one after the other.
pub open spec fn after_all(o: OwnerView, cs: Seq<ChangeView>) -> OwnerView {
    reconcile::applied_all(o, cs).1
}

proof fn lemma_step_apps(
    o: OwnerView,
    u: Uuid,
    i: int,
    apps: Seq<ApplicationView>,
    d: Uuid,
)
    requires
        o.device_index(u) == Some(i),
    ensures
        o.with_apps(i, apps).device_index(d) == o.device_index(d),
        d != u ==> (o.device_index(d) matches Some(j) ==> o.with_apps(i, apps).user.devices[j]
            == o.user.devices[j]),
        d == u ==> o.with_apps(i, apps).user.devices[i].applications == apps,
{
    let p = o.with_apps(i, apps);
    model::lemma_first_where(o.user.devices, find::device_is(u));
    model::lemma_first_where(o.user.devices, find::device_is(d));
    assert(find::device_is(u)(o.user.devices[i]));
    match o.device_index(d) {
        Some(j) => {
            assert(find::device_is(d)(o.user.devices[j]));
            assert forall|k: int| 0 <= k < j implies !find::device_is(d)(
                #[trigger] p.user.devices[k],
            ) by {
                assert(!find::device_is(d)(o.user.devices[k]));
            }
            assert(find::device_is(d)(p.user.devices[j]));
            model::lemma_first_at(p.user.devices, find::device_is(d), j);
        },
        None => {
            assert forall|k: int| 0 <= k < p.user.devices.len() implies !find::device_is(d)(
                #[trigger] p.user.devices[k],
            ) by {
                assert(!find::device_is(d)(o.user.devices[k]));
            }
            model::lemma_first_none(p.user.devices, find::device_is(d));
        },
    }
}

proof fn lemma_push_app(apps: Seq<ApplicationView>, a: ApplicationView, id: Uuid)
    ensures
        model::first_where(apps.push(a), find::app_is(id)) == match model::first_where(
            apps,
            find::app_is(id),
        ) {
            Some(j) => Some(j),
            None => if a.id == id {
                Some(apps.len() as int)
            } else {
                None
            },
        },
{
    let t = apps.push(a);
    let p = find::app_is(id);
    model::lemma_first_where(apps, p);
    match model::first_where(apps, p) {
        Some(j) => {
            assert(p(t[j]));
            assert forall|k: int| 0 <= k < j implies !p(#[trigger] t[k]) by {
                assert(!p(apps[k]));
            }
            model::lemma_first_at(t, p, j);
        },
        None => {
            let n = apps.len() as int;
            assert forall|k: int| 0 <= k < n implies !p(#[trigger] t[k]) by {
                assert(!p(apps[k]));
            }
            if a.id == id {
                assert(p(t[n]));
                model::lemma_first_at(t, p, n);
            } else {
                assert(!p(t[n]));
                model::lemma_first_none(t, p);
            }
        },
    }
}

/// The name of the first application with an identifier.
pub open spec fn name_in(apps: Seq<ApplicationView>, id: Uuid) -> Option<Seq<char>> {
    match model::first_where(apps, find::app_is(id)) {
        Some(j) => Some(apps[j].alias),
        None => None,
    }
}

proof fn lemma_keep_others(apps: Seq<ApplicationView>, gone: Uuid, id: Uuid)
    ensures
        name_in(model::keep(apps, find::app_is_not(gone)), id) == if id == gone {
            None
        } else {
            name_in(apps, id)
        },
    decreases apps.len(),
{
    let p = find::app_is_not(gone);
    if apps.len() == 0 {
        model::lemma_first_none(apps, find::app_is(id));
        model::lemma_first_none(model::keep(apps, p), find::app_is(id));
    } else {
        let t = apps.drop_last();
        let a = apps.last();
        lemma_keep_others(t, gone, id);
        assert(t.push(a) =~= apps);
        lemma_push_app(t, a, id);
        lemma_push_app(model::keep(t, p), a, id);
        model::lemma_first_where(t, find::app_is(id));
        model::lemma_first_where(model::keep(t, p), find::app_is(id));
    }
}

proof fn lemma_rename(apps: Seq<ApplicationView>, j: int, alias: Seq<char>, id: Uuid)
    requires
        0 <= j < apps.len(),
        model::first_where(apps, find::app_is(apps[j].id)) == Some(j),
    ensures
        name_in(apps.update(j, ApplicationView { alias, ..apps[j] }), id) == if id == apps[j].id {
            Some(alias)
        } else {
            name_in(apps, id)
        },
{
    let t = apps.update(j, ApplicationView { alias, ..apps[j] });
    let p = find::app_is(id);
    model::lemma_first_where(apps, p);
    match model::first_where(apps, p) {
        Some(i) => {
            assert(p(apps[i]));
            assert(p(t[i]));
            assert forall|k: int| 0 <= k < i implies !p(#[trigger] t[k]) by {
                assert(!p(apps[k]));
            }
            model::lemma_first_at(t, p, i);
        },
        None => {
            assert forall|k: int| 0 <= k < t.len() implies !p(#[trigger] t[k]) by {
                assert(!p(apps[k]));
            }
            model::lemma_first_none(t, p);
            assert(!p(apps[j]));
        },
    }
}

/// What one change does to an application.
proof fn lemma_app_step(o: OwnerView, c: ChangeView, d: Uuid, id: Uuid)
    ensures
        o.device_index(d) is Some ==> after(o, c).device_index(d) is Some,
        !(c is AddDevice) ==> after(o, c).device_index(d) == o.device_index(d),
        !on_app(c, d, id) ==> app_of(after(o, c), d, id) == app_of(o, d, id),
        on_app(c, d, id) ==> match c {
            ChangeView::AddApplication { app_alias, .. } => o.device_index(d) is Some && app_of(
                o,
                d,
                id,
            ) is None ==> app_of(after(o, c), d, id) == Some(app_alias),
            ChangeView::UpdateApplicationAlias { new_alias, .. } => app_of(o, d, id) is Some
                ==> app_of(after(o, c), d, id) == Some(new_alias),
            _ => app_of(after(o, c), d, id) is None,
        },
{
    let p = after(o, c);
    match c {
        ChangeView::AddApplication { device_uuid, app_id, app_alias } => {
            if let Some(i) = o.device_index(device_uuid) {
                let apps = o.user.devices[i].applications;
                let a = cards::public_app(app_id, app_alias);
                model::lemma_first_where(apps, find::app_is(app_id));
                if !model::any_where(apps, find::app_is(app_id)) {
                    lemma_step_apps(o, device_uuid, i, apps.push(a), d);
                    lemma_push_app(apps, a, id);
                    model::lemma_first_where(apps, find::app_is(id));
                }
            }
        },
        ChangeView::RemoveApplication { device_uuid, app_id } => {
            if let Some(i) = o.device_index(device_uuid) {
                let apps = o.user.devices[i].applications;
                let kept = model::keep(apps, find::app_is_not(app_id));
                lemma_step_apps(o, device_uuid, i, kept, d);
                lemma_keep_others(apps, app_id, id);
            }
        },
        ChangeView::UpdateApplicationAlias { device_uuid, app_id, new_alias } => {
            if let Some(i) = o.device_index(device_uuid) {
                let apps = o.user.devices[i].applications;
                model::lemma_first_where(apps, find::app_is(app_id));
                if let Some(j) = model::first_where(apps, find::app_is(app_id)) {
                    assert(find::app_is(app_id)(apps[j]));
                    let renamed = apps.update(j, ApplicationView { alias: new_alias, ..apps[j] });
                    lemma_step_apps(o, device_uuid, i, renamed, d);
                    lemma_rename(apps, j, new_alias, id);
                }
            }
        },
        ChangeView::AddDevice { uuid, alias, grade, sg_rank, hosts } => {
            lemma_device_step(o, c, d);
        },
        ChangeView::UpsertContact { .. } => {},
    }
}

/// A new device comes without applications, and changes nothing for others.
proof fn lemma_device_step(o: OwnerView, c: ChangeView, d: Uuid)
    requires
        c is AddDevice,
    ensures
        after(o, c).device_index(d) is Some <==> o.device_index(d) is Some || apply::named_device(c)
            == d,
        match o.device_index(d) {
            Some(j) => after(o, c).device_index(d) == Some(j) && after(o, c).user.devices[j]
                == o.user.devices[j],
            None => after(o, c).device_index(d) matches Some(j) ==> after(
                o,
                c,
            ).user.devices[j].applications == Seq::<ApplicationView>::empty(),
        },
        forall|id: Uuid| #[trigger] app_of(after(o, c), d, id) == app_of(o, d, id),
{
    let p = after(o, c);
    let u = apply::named_device(c);
    let named = find::device_is(d);
    model::lemma_first_where(o.user.devices, named);
    model::lemma_first_where(o.user.devices, find::device_is(u));
    if !model::any_where(o.user.devices, find::device_is(u)) {
        let n = o.user.devices.len() as int;
        assert(p.user.devices[n].uuid == u);
        match o.device_index(d) {
            Some(j) => {
                assert forall|k: int| 0 <= k < j implies !named(#[trigger] p.user.devices[k]) by {
                    assert(!named(o.user.devices[k]));
                }
                assert(named(p.user.devices[j]));
                model::lemma_first_at(p.user.devices, named, j);
            },
            None => {
                assert forall|k: int| 0 <= k < n implies !named(#[trigger] p.user.devices[k]) by {
                    assert(!named(o.user.devices[k]));
                }
                if u == d {
                    assert(named(p.user.devices[n]));
                    model::lemma_first_at(p.user.devices, named, n);
                } else {
                    assert(!named(p.user.devices[n]));
                    model::lemma_first_none(p.user.devices, named);
                }
            },
        }
    }
    assert forall|id: Uuid| #[trigger] app_of(p, d, id) == app_of(o, d, id) by {
        model::lemma_first_none(Seq::<ApplicationView>::empty(), find::app_is(id));
    }
}

proof fn lemma_after_push(o: OwnerView, cs: Seq<ChangeView>)
    requires
        cs.len() > 0,
    ensures
        after_all(o, cs) == after(after_all(o, cs.drop_last()), cs.last()),
{
}

proof fn lemma_after_add(o: OwnerView, a: Seq<ChangeView>, b: Seq<ChangeView>)
    ensures
        after_all(o, a + b) == after_all(after_all(o, a), b),
    decreases b.len(),
{
    if b.len() == 0 {
        assert(a + b =~= a);
    } else {
        assert((a + b).drop_last() =~= a + b.drop_last());
        assert((a + b).last() == b.last());
        lemma_after_add(o, a, b.drop_last());
        lemma_after_push(o, a + b);
        lemma_after_push(after_all(o, a), b);
    }
}

/// Changes that do not speak of an application leave it alone.
proof fn lemma_app_untouched(o: OwnerView, cs: Seq<ChangeView>, d: Uuid, id: Uuid)
    requires
        forall|i: int| 0 <= i < cs.len() ==> !on_app(#[trigger] cs[i], d, id),
    ensures
        app_of(after_all(o, cs), d, id) == app_of(o, d, id),
    decreases cs.len(),
{
    if cs.len() > 0 {
        let t = cs.drop_last();
        assert forall|i: int| 0 <= i < t.len() implies !on_app(#[trigger] t[i], d, id) by {
            assert(!on_app(cs[i], d, id));
        }
        lemma_app_untouched(o, t, d, id);
        lemma_after_push(o, cs);
        assert(!on_app(cs[cs.len() - 1], d, id));
        lemma_app_step(after_all(o, t), cs.last(), d, id);
    }
}

/// Only new devices change which devices there are.
proof fn lemma_devices_untouched(o: OwnerView, cs: Seq<ChangeView>, d: Uuid)
    ensures
        o.device_index(d) is Some ==> after_all(o, cs).device_index(d) is Some,
        (forall|i: int| 0 <= i < cs.len() ==> !(#[trigger] cs[i] is AddDevice)) ==> after_all(
            o,
            cs,
        ).device_index(d) == o.device_index(d),
    decreases cs.len(),
{
    if cs.len() > 0 {
        let t = cs.drop_last();
        lemma_devices_untouched(o, t, d);
        lemma_after_push(o, cs);
        lemma_app_step(after_all(o, t), cs.last(), d, d);
        if forall|i: int| 0 <= i < cs.len() ==> !(#[trigger] cs[i] is AddDevice) {
            assert forall|i: int| 0 <= i < t.len() implies !(#[trigger] t[i] is AddDevice) by {
                assert(!(cs[i] is AddDevice));
            }
            assert(!(cs[cs.len() - 1] is AddDevice));
        }
    }
}

/// If one change speaks of an application, that one decides.
proof fn lemma_app_touched_once(o: OwnerView, cs: Seq<ChangeView>, k: int, d: Uuid, id: Uuid)
    requires
        0 <= k < cs.len(),
        forall|i: int| 0 <= i < cs.len() && i != k ==> !on_app(#[trigger] cs[i], d, id),
        forall|i: int| 0 <= i < cs.len() ==> !(#[trigger] cs[i] is AddDevice),
    ensures
        ({
            let p = after_all(o, cs.take(k));
            &&& app_of(p, d, id) == app_of(o, d, id)
            &&& p.device_index(d) == o.device_index(d)
            &&& app_of(after_all(o, cs), d, id) == app_of(after(p, cs[k]), d, id)
        }),
{
    let a = cs.take(k);
    let b = cs.skip(k + 1);
    let m = cs.take(k + 1);
    let p = after_all(o, a);
    assert(cs =~= m + b);
    assert(m.drop_last() =~= a);
    lemma_after_add(o, m, b);
    lemma_after_push(o, m);
    assert forall|i: int| 0 <= i < a.len() implies !on_app(#[trigger] a[i], d, id) by {
        assert(!on_app(cs[i], d, id));
    }
    assert forall|i: int| 0 <= i < b.len() implies !on_app(#[trigger] b[i], d, id) by {
        assert(!on_app(cs[i + k + 1], d, id));
    }
    assert forall|i: int| 0 <= i < a.len() implies !(#[trigger] a[i] is AddDevice) by {
        assert(!(cs[i] is AddDevice));
    }
    lemma_app_untouched(o, a, d, id);
    lemma_devices_untouched(o, a, d);
    lemma_app_untouched(after_all(o, m), b, d, id);
}

/// The identifiers that an entry of a log is about.
pub open spec fn entry_about(e: ClaimView) -> (Uuid, Uuid) {
    match e.says {
        Some(ChangeView::AddApplication { device_uuid, app_id, .. }) => (device_uuid, app_id),
        Some(ChangeView::AddDevice { uuid, .. }) => (uuid, uuid),
        Some(ChangeView::UpsertContact { uuid, .. }) => (uuid, uuid),
        _ => arbitrary(),
    }
}

proof fn lemma_pairs_listed(
    log: Seq<ClaimView>,
    p: spec_fn((Uuid, Uuid)) -> bool,
)
    requires
        forall|k: (Uuid, Uuid)| #[trigger]
            p(k) ==> model::any_where(log, merge::adds_app(k.0, k.1)),
    ensures
        order::is_listing(order::listing(p, order::two_key()), p, order::two_key()),
{
    let cand = Seq::new(log.len(), |i: int| entry_about(log[i]));
    assert forall|k: (Uuid, Uuid)| #[trigger] p(k) implies cand.contains(k) by {
        let i = choose|i: int|
            0 <= i < log.len() && merge::adds_app(k.0, k.1)(#[trigger] log[i]);
        assert(cand[i] == k);
    }
    order::lemma_two_key();
    order::lemma_listing_exists(cand, p, order::two_key());
}

proof fn lemma_named_listed(log: Seq<ClaimView>, p: spec_fn(Uuid) -> bool)
    requires
        forall|k: Uuid| #[trigger]
            p(k) ==> model::any_where(log, merge::adds_device(k)) || model::any_where(
                log,
                merge::sets_contact(k),
            ),
    ensures
        order::is_listing(order::listing(p, order::uuid_key()), p, order::uuid_key()),
{
    let cand = Seq::new(log.len(), |i: int| entry_about(log[i]).0);
    assert forall|k: Uuid| #[trigger] p(k) implies cand.contains(k) by {
        if model::any_where(log, merge::adds_device(k)) {
            let i = choose|i: int| 0 <= i < log.len() && merge::adds_device(k)(#[trigger] log[i]);
            assert(cand[i] == k);
        } else {
            let i = choose|i: int| 0 <= i < log.len() && merge::sets_contact(k)(#[trigger] log[i]);
            assert(cand[i] == k);
        }
    }
    order::lemma_uuid_key();
    order::lemma_listing_exists(cand, p, order::uuid_key());
}

/// The four parts of the changes that lead from one log to another are what
/// their names say.
pub proof fn lemma_parts(cur: Seq<ClaimView>, tgt: Seq<ClaimView>, ranks: Seq<(Uuid, u32)>)
    ensures
        order::is_listing(
            order::listing(merge::new_device(cur, tgt), order::uuid_key()),
            merge::new_device(cur, tgt),
            order::uuid_key(),
        ),
        order::is_listing(
            order::listing(merge::new_app(cur, tgt, ranks), order::two_key()),
            merge::new_app(cur, tgt, ranks),
            order::two_key(),
        ),
        order::is_listing(
            order::listing(merge::gone_app(cur, tgt, ranks), order::two_key()),
            merge::gone_app(cur, tgt, ranks),
            order::two_key(),
        ),
        order::is_listing(
            order::listing(merge::new_contact(cur, tgt, ranks), order::uuid_key()),
            merge::new_contact(cur, tgt, ranks),
            order::uuid_key(),
        ),
{
    lemma_named_listed(tgt, merge::new_device(cur, tgt));
    lemma_pairs_listed(tgt, merge::new_app(cur, tgt, ranks));
    lemma_pairs_listed(cur, merge::gone_app(cur, tgt, ranks));
    lemma_named_listed(tgt, merge::new_contact(cur, tgt, ranks));
}

/// A merge leads to the names that the merged log gives: an application that
/// the state had as its own log says, it has afterwards as the merged log says,
/// on every device that it knows.
pub proof fn law_merge_reaches_apps(
    o: OwnerView,
    cur: Seq<ClaimView>,
    tgt: Seq<ClaimView>,
    ranks: Seq<(Uuid, u32)>,
    d: Uuid,
    id: Uuid,
)
    requires
        app_of(o, d, id) == merge::app_in(cur, ranks, d, id),
    ensures
        ({
            let p = after_all(o, merge::difference(cur, tgt, ranks));
            p.device_index(d) is Some ==> app_of(p, d, id) == merge::app_in(tgt, ranks, d, id)
        }),
{
    let dk = order::listing(merge::new_device(cur, tgt), order::uuid_key());
    let ak = order::listing(merge::new_app(cur, tgt, ranks), order::two_key());
    let gk = order::listing(merge::gone_app(cur, tgt, ranks), order::two_key());
    let ck = order::listing(merge::new_contact(cur, tgt, ranks), order::uuid_key());
    let c1 = merge::device_changes(tgt, dk);
    let c2 = merge::app_changes(cur, tgt, ranks, ak);
    let c3 = merge::gone_changes(gk);
    let c4 = merge::contact_changes(tgt, ranks, ck);
    lemma_parts(cur, tgt, ranks);
    let o1 = after_all(o, c1);
    let o2 = after_all(o1, c2);
    let o3 = after_all(o2, c3);
    let o4 = after_all(o3, c4);
    lemma_after_add(o, c1 + c2 + c3, c4);
    lemma_after_add(o, c1 + c2, c3);
    lemma_after_add(o, c1, c2);
    assert(o4 == after_all(o, merge::difference(cur, tgt, ranks)));

    assert forall|i: int| 0 <= i < c1.len() implies !on_app(#[trigger] c1[i], d, id) by {
        assert(dk.contains(dk[i]));
        merge::lemma_device_in(tgt, dk[i]);
    }
    lemma_app_untouched(o, c1, d, id);

    let k = (d, id);
    assert forall|i: int| 0 <= i < c2.len() implies !(#[trigger] c2[i] is AddDevice) by {}
    lemma_devices_untouched(o1, c2, d);
    if merge::new_app(cur, tgt, ranks)(k) {
        assert(ak.contains(k));
        let j = choose|j: int| 0 <= j < ak.len() && ak[j] == k;
        assert forall|i: int| 0 <= i < c2.len() && i != j implies !on_app(#[trigger] c2[i], d, id) by {
            if ak[i] == k {
                order::lemma_listing_once(ak, order::two_key(), i, j);
            }
        }
        lemma_app_touched_once(o1, c2, j, d, id);
        lemma_app_step(after_all(o1, c2.take(j)), c2[j], d, id);
    } else {
        assert forall|i: int| 0 <= i < c2.len() implies !on_app(#[trigger] c2[i], d, id) by {
            assert(ak.contains(ak[i]));
        }
        lemma_app_untouched(o1, c2, d, id);
    }

    assert forall|i: int| 0 <= i < c3.len() implies !(#[trigger] c3[i] is AddDevice) by {}
    lemma_devices_untouched(o2, c3, d);
    if merge::gone_app(cur, tgt, ranks)(k) {
        assert(gk.contains(k));
        let j = choose|j: int| 0 <= j < gk.len() && gk[j] == k;
        assert forall|i: int| 0 <= i < c3.len() && i != j implies !on_app(#[trigger] c3[i], d, id) by {
            if gk[i] == k {
                order::lemma_listing_once(gk, order::two_key(), i, j);
            }
        }
        lemma_app_touched_once(o2, c3, j, d, id);
        lemma_app_step(after_all(o2, c3.take(j)), c3[j], d, id);
    } else {
        assert forall|i: int| 0 <= i < c3.len() implies !on_app(#[trigger] c3[i], d, id) by {
            assert(gk.contains(gk[i]));
        }
        lemma_app_untouched(o2, c3, d, id);
    }

    assert forall|i: int| 0 <= i < c4.len() implies c4[i] is UpsertContact by {
        assert(ck.contains(ck[i]));
        merge::lemma_contact_in(tgt, ranks, ck[i]);
    }
    assert forall|i: int| 0 <= i < c4.len() implies !on_app(#[trigger] c4[i], d, id) by {}
    assert forall|i: int| 0 <= i < c4.len() implies !(#[trigger] c4[i] is AddDevice) by {}
    lemma_app_untouched(o3, c4, d, id);
    lemma_devices_untouched(o3, c4, d);
}

/// A merge loses no device, and brings every device that the merged log has.
pub proof fn law_merge_reaches_devices(
    o: OwnerView,
    cur: Seq<ClaimView>,
    tgt: Seq<ClaimView>,
    ranks: Seq<(Uuid, u32)>,
    u: Uuid,
)
    requires
        merge::device_in(cur, u) is Some ==> o.device_index(u) is Some,
    ensures
        ({
            let p = after_all(o, merge::difference(cur, tgt, ranks));
            o.device_index(u) is Some || merge::device_in(tgt, u) is Some ==> p.device_index(
                u,
            ) is Some
        }),
{
    let cs = merge::difference(cur, tgt, ranks);
    lemma_devices_untouched(o, cs, u);
    if o.device_index(u) is None && merge::device_in(tgt, u) is Some {
        let dk = order::listing(merge::new_device(cur, tgt), order::uuid_key());
        lemma_parts(cur, tgt, ranks);
        assert(merge::new_device(cur, tgt)(u));
        assert(dk.contains(u));
        let j = choose|j: int| 0 <= j < dk.len() && dk[j] == u;
        assert(cs[j] == merge::device_changes(tgt, dk)[j]);
        merge::lemma_device_in(tgt, u);
        let m = cs.take(j + 1);
        assert(cs =~= m + cs.skip(j + 1));
        assert(m.last() == cs[j]);
        lemma_after_add(o, m, cs.skip(j + 1));
        lemma_after_push(o, m);
        lemma_device_step(after_all(o, m.drop_last()), cs[j], u);
        lemma_devices_untouched(after_all(o, m), cs.skip(j + 1), u);
    }
}

/// What one change does to a contact.
proof fn lemma_contact_step(o: OwnerView, c: ChangeView, u: Uuid, k: ChangeView)
    ensures
        !on_contact(c, u) && contact_as(o, u, k) ==> contact_as(after(o, c), u, k),
        on_contact(c, u) ==> contact_as(after(o, c), u, c),
{
    let p = after(o, c);
    let named = find::contact_is(u);
    if let ChangeView::UpsertContact { uuid, alias, public_key, devices } = c {
        cards::lemma_cards_of_card_devices(devices);
        let at = match o.contact_index(uuid) {
            Some(i) => i,
            None => o.contact_users.len() as int,
        };
        model::lemma_first_where(o.contact_users, find::contact_is(uuid));
        model::lemma_first_where(o.contact_users, named);
        if uuid == u {
            assert forall|j: int| 0 <= j < at implies !named(#[trigger] p.contact_users[j]) by {
                assert(!named(o.contact_users[j]));
            }
            assert(named(p.contact_users[at]));
            model::lemma_first_at(p.contact_users, named, at);
        } else if let Some(j) = o.contact_index(u) {
            assert(named(o.contact_users[j]));
            assert forall|i: int| 0 <= i < j implies !named(#[trigger] p.contact_users[i]) by {
                assert(!named(o.contact_users[i]));
            }
            assert(j != at);
            assert(named(p.contact_users[j]));
            model::lemma_first_at(p.contact_users, named, j);
        }
    }
}

proof fn lemma_contact_untouched(o: OwnerView, cs: Seq<ChangeView>, u: Uuid, k: ChangeView)
    requires
        contact_as(o, u, k),
        forall|i: int| 0 <= i < cs.len() ==> !on_contact(#[trigger] cs[i], u),
    ensures
        contact_as(after_all(o, cs), u, k),
    decreases cs.len(),
{
    if cs.len() > 0 {
        let t = cs.drop_last();
        assert forall|i: int| 0 <= i < t.len() implies !on_contact(#[trigger] t[i], u) by {
            assert(!on_contact(cs[i], u));
        }
        lemma_contact_untouched(o, t, u, k);
        lemma_after_push(o, cs);
        assert(!on_contact(cs[cs.len() - 1], u));
        lemma_contact_step(after_all(o, t), cs.last(), u, k);
    }
}

/// A merge leads to the contacts that the merged log describes: one that the
/// state had as its own log says, it has afterwards as the merged log says, and
/// one that it had not at all is there.
pub proof fn law_merge_reaches_contacts(
    o: OwnerView,
    cur: Seq<ClaimView>,
    tgt: Seq<ClaimView>,
    ranks: Seq<(Uuid, u32)>,
    u: Uuid,
)
    requires
        merge::contact_in(cur, ranks, u) matches Some(c) ==> contact_as(o, u, c),
    ensures
        merge::contact_in(tgt, ranks, u) matches Some(c) ==> contact_as(
            after_all(o, merge::difference(cur, tgt, ranks)),
            u,
            c,
        ),
{
    let dk = order::listing(merge::new_device(cur, tgt), order::uuid_key());
    let ak = order::listing(merge::new_app(cur, tgt, ranks), order::two_key());
    let gk = order::listing(merge::gone_app(cur, tgt, ranks), order::two_key());
    let ck = order::listing(merge::new_contact(cur, tgt, ranks), order::uuid_key());
    let c1 = merge::device_changes(tgt, dk);
    let c2 = merge::app_changes(cur, tgt, ranks, ak);
    let c3 = merge::gone_changes(gk);
    let c4 = merge::contact_changes(tgt, ranks, ck);
    let head = c1 + c2 + c3;
    let cs = merge::difference(cur, tgt, ranks);
    lemma_parts(cur, tgt, ranks);
    assert(cs == head + c4);
    assert forall|i: int| 0 <= i < head.len() implies !on_contact(#[trigger] head[i], u) by {
        if i < c1.len() {
            assert(head[i] == c1[i]);
            assert(dk.contains(dk[i]));
            merge::lemma_device_in(tgt, dk[i]);
        } else if i < c1.len() + c2.len() {
            assert(head[i] == c2[i - c1.len()]);
        } else {
            assert(head[i] == c3[i - c1.len() - c2.len()]);
        }
    }
    assert forall|i: int| 0 <= i < c4.len() implies on_contact(#[trigger] c4[i], ck[i]) by {
        assert(ck.contains(ck[i]));
        merge::lemma_contact_in(tgt, ranks, ck[i]);
    }
    if let Some(c) = merge::contact_in(tgt, ranks, u) {
        if merge::new_contact(cur, tgt, ranks)(u) {
            assert(ck.contains(u));
            let j = choose|j: int| 0 <= j < ck.len() && ck[j] == u;
            let m = head + c4.take(j + 1);
            let rest = c4.skip(j + 1);
            assert(cs =~= m + rest);
            assert(m.last() == c4[j]);
            assert(c4[j] == c);
            lemma_after_add(o, m, rest);
            lemma_after_push(o, m);
            lemma_contact_step(after_all(o, m.drop_last()), c, u, c);
            assert forall|i: int| 0 <= i < rest.len() implies !on_contact(#[trigger] rest[i], u) by {
                assert(rest[i] == c4[i + j + 1]);
                if ck[i + j + 1] == u {
                    order::lemma_listing_once(ck, order::uuid_key(), i + j + 1, j);
                }
            }
            lemma_contact_untouched(after_all(o, m), rest, u, c);
        } else {
            assert forall|i: int| 0 <= i < cs.len() implies !on_contact(#[trigger] cs[i], u) by {
                if i < head.len() {
                    assert(cs[i] == head[i]);
                } else {
                    assert(cs[i] == c4[i - head.len()]);
                    assert(ck.contains(ck[i - head.len()]));
                }
            }
            lemma_contact_untouched(o, cs, u, c);
        }
    }
}

/// The state of a server after it took a proposal over, as far as the user's
/// devices go: that of its own state with the changes made that are called for.
proof fn lemma_merged_state(
    n: NodeView,
    from: Uuid,
    scope: Scope,
    entries: Seq<WriteLogEntryView>,
    now: u64,
    retention: u64,
    d: Uuid,
    id: Uuid,
)
    requires
        app_of(n.owner, d, id) == merge::app_in(
            merge::claims_of(model::keep(n.owner.write_log, reconcile::in_scope(scope))),
            reconcile::ranks_of(n.owner.user.devices),
            d,
            id,
        ),
    ensures
        ({
            let m = reconcile::merged_in(n, from, scope, entries, now, retention).1;
            let local = model::keep(n.owner.write_log, reconcile::in_scope(scope));
            m.owner.device_index(d) is Some ==> app_of(m.owner, d, id) == merge::app_in(
                merge::claims_of(merge::merged(local, entries)),
                reconcile::ranks_of(n.owner.user.devices),
                d,
                id,
            )
        }),
{
    let local = model::keep(n.owner.write_log, reconcile::in_scope(scope));
    let ranks = reconcile::ranks_of(n.owner.user.devices);
    let o = OwnerView {
        received_merge_proposals: reconcile::with_proposal(
            n.owner.received_merge_proposals,
            from,
            entries,
        ),
        write_log: sync::pruned(
            n.owner.write_log + merge::news(local, entries),
            now,
            retention,
        ),
        ..n.owner
    };
    let cs = reconcile::merge_changes(n.owner, scope, entries);
    let m = reconcile::merged_in(n, from, scope, entries, now, retention).1;
    assert(o.device_index(d) == n.owner.device_index(d));
    assert(m.owner.user.devices == after_all(o, cs).user.devices);
    if merge::news(local, entries).len() == 0 {
        assert(merge::merged(local, entries) =~= local);
    } else {
        law_merge_reaches_apps(
            o,
            merge::claims_of(local),
            merge::claims_of(merge::merged(local, entries)),
            ranks,
            d,
            id,
        );
    }
}

/// Two servers that were apart agree again once each has taken over the log of
/// the other: on every device that both know, the same applications under the
/// same names.
pub proof fn law_partition_heals(
    a: NodeView,
    b: NodeView,
    scope: Scope,
    now: u64,
    retention: u64,
    d: Uuid,
    id: Uuid,
)
    requires
        reconcile::ranks_of(a.owner.user.devices) == reconcile::ranks_of(b.owner.user.devices),
        ({
            let la = model::keep(a.owner.write_log, reconcile::in_scope(scope));
            let lb = model::keep(b.owner.write_log, reconcile::in_scope(scope));
            let ranks = reconcile::ranks_of(a.owner.user.devices);
            &&& merge::agreeing(la, la)
            &&& merge::agreeing(lb, lb)
            &&& merge::agreeing(la, lb)
            &&& app_of(a.owner, d, id) == merge::app_in(merge::claims_of(la), ranks, d, id)
            &&& app_of(b.owner, d, id) == merge::app_in(merge::claims_of(lb), ranks, d, id)
        }),
    ensures
        ({
            let la = model::keep(a.owner.write_log, reconcile::in_scope(scope));
            let lb = model::keep(b.owner.write_log, reconcile::in_scope(scope));
            let x = reconcile::merged_in(a, b.device_uuid, scope, lb, now, retention).1;
            let y = reconcile::merged_in(b, a.device_uuid, scope, la, now, retention).1;
            x.owner.device_index(d) is Some && y.owner.device_index(d) is Some ==> app_of(
                x.owner,
                d,
                id,
            ) == app_of(y.owner, d, id)
        }),
{
    let la = model::keep(a.owner.write_log, reconcile::in_scope(scope));
    let lb = model::keep(b.owner.write_log, reconcile::in_scope(scope));
    let ranks = reconcile::ranks_of(a.owner.user.devices);
    lemma_merged_state(a, b.device_uuid, scope, lb, now, retention, d, id);
    lemma_merged_state(b, a.device_uuid, scope, la, now, retention, d, id);
    merge::law_merge_converges(la, lb, ranks, d, id, d);
}

} // verus!
