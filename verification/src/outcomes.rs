//! What each change does, told by the devices, applications and contacts before
//! and after it alone.
use crate::apply;
use crate::cards;
use crate::change::ChangeView;
use crate::device_wire::CardView;
use crate::find;
use crate::model;
use crate::types;
use crate::types::{
    ApplicationView, DeviceGrade, DeviceView, OwnerView, PublicKey, SyncVersion, Uuid,
};
use vstd::prelude::*;

verus! {

/// The `i`-th device is the user's device with an identifier: the first that has
/// it.
pub open spec fn device_at(o: OwnerView, u: Uuid, i: int) -> bool {
    &&& 0 <= i < o.user.devices.len()
    &&& o.user.devices[i].uuid == u
    &&& forall|j: int| 0 <= j < i ==> (#[trigger] o.user.devices[j]).uuid != u
}

/// The user has no device with an identifier.
pub open spec fn no_device(o: OwnerView, u: Uuid) -> bool {
    forall|j: int|
        0 <= j < o.user.devices.len() ==> (#[trigger] o.user.devices[j]).uuid != u
}

/// The `j`-th application of a list is the first with an identifier.
pub open spec fn app_at(apps: Seq<ApplicationView>, a: Uuid, j: int) -> bool {
    &&& 0 <= j < apps.len()
    &&& apps[j].id == a
    &&& forall|k: int| 0 <= k < j ==> (#[trigger] apps[k]).id != a
}

/// No application of a list has an identifier.
pub open spec fn no_app(apps: Seq<ApplicationView>, a: Uuid) -> bool {
    forall|j: int| 0 <= j < apps.len() ==> (#[trigger] apps[j]).id != a
}

/// The `i`-th contact is the first with an identifier.
pub open spec fn contact_at(o: OwnerView, u: Uuid, i: int) -> bool {
    &&& 0 <= i < o.contact_users.len()
    &&& o.contact_users[i].user.uuid == u
    &&& forall|j: int| 0 <= j < i ==> (#[trigger] o.contact_users[j]).user.uuid != u
}

/// Nobody among the contacts has an identifier.
pub open spec fn no_contact(o: OwnerView, u: Uuid) -> bool {
    forall|j: int|
        0 <= j < o.contact_users.len() ==> (#[trigger] o.contact_users[j]).user.uuid != u
}

/// Two states differ in the applications of the `i`-th device at most.
pub open spec fn same_but_apps(o: OwnerView, p: OwnerView, i: int) -> bool {
    &&& p.contact_users == o.contact_users
    &&& p.user.alias == o.user.alias
    &&& p.user.uuid == o.user.uuid
    &&& p.public_version == o.public_version
    &&& p.private_version == o.private_version
    &&& p.write_log == o.write_log
    &&& p.active_connections == o.active_connections
    &&& p.user.devices.len() == o.user.devices.len()
    &&& forall|k: int|
        0 <= k < o.user.devices.len() && k != i ==> #[trigger] p.user.devices[k]
            == o.user.devices[k]
    &&& p.user.devices[i].uuid == o.user.devices[i].uuid
    &&& p.user.devices[i].alias == o.user.devices[i].alias
    &&& p.user.devices[i].grade == o.user.devices[i].grade
    &&& p.user.devices[i].sg_rank == o.user.devices[i].sg_rank
    &&& p.user.devices[i].hosts == o.user.devices[i].hosts
}

pub proof fn lemma_device_at(o: OwnerView, u: Uuid, i: int)
    requires
        device_at(o, u, i),
    ensures
        o.device_index(u) == Some(i),
{
    let s = o.user.devices;
    let p = find::device_is(u);
    assert(p(s[i]));
    assert forall|j: int| 0 <= j < i implies !p(#[trigger] s[j]) by {}
    model::lemma_first_at(s, p, i);
}

pub proof fn lemma_no_device(o: OwnerView, u: Uuid)
    requires
        no_device(o, u),
    ensures
        o.device_index(u) is None,
        !model::any_where(o.user.devices, find::device_is(u)),
{
    let s = o.user.devices;
    let p = find::device_is(u);
    assert forall|j: int| 0 <= j < s.len() implies !p(#[trigger] s[j]) by {}
    model::lemma_first_none(s, p);
}

pub proof fn lemma_app_at(apps: Seq<ApplicationView>, a: Uuid, j: int)
    requires
        app_at(apps, a, j),
    ensures
        model::first_where(apps, find::app_is(a)) == Some(j),
        model::any_where(apps, find::app_is(a)),
{
    let p = find::app_is(a);
    assert(p(apps[j]));
    assert forall|k: int| 0 <= k < j implies !p(#[trigger] apps[k]) by {}
    model::lemma_first_at(apps, p, j);
}

pub proof fn lemma_no_app(apps: Seq<ApplicationView>, a: Uuid)
    requires
        no_app(apps, a),
    ensures
        model::first_where(apps, find::app_is(a)) is None,
        !model::any_where(apps, find::app_is(a)),
{
    let p = find::app_is(a);
    assert forall|k: int| 0 <= k < apps.len() implies !p(#[trigger] apps[k]) by {}
    model::lemma_first_none(apps, p);
}

pub proof fn lemma_contact_at(o: OwnerView, u: Uuid, i: int)
    requires
        contact_at(o, u, i),
    ensures
        o.contact_index(u) == Some(i),
{
    let s = o.contact_users;
    let p = find::contact_is(u);
    assert(p(s[i]));
    assert forall|j: int| 0 <= j < i implies !p(#[trigger] s[j]) by {}
    model::lemma_first_at(s, p, i);
}

pub proof fn lemma_no_contact(o: OwnerView, u: Uuid)
    requires
        no_contact(o, u),
    ensures
        o.contact_index(u) is None,
{
    let s = o.contact_users;
    let p = find::contact_is(u);
    assert forall|j: int| 0 <= j < s.len() implies !p(#[trigger] s[j]) by {}
    model::lemma_first_none(s, p);
}

/// Adding an application that a device does not have puts it behind the others,
/// approved, without an address and without a token. One that it has is left as
/// it is, whatever its name.
pub proof fn law_application_is_added(
    o: OwnerView,
    u: Uuid,
    i: int,
    a: Uuid,
    alias: Seq<char>,
)
    requires
        device_at(o, u, i),
    ensures
        ({
            let c = ChangeView::AddApplication { device_uuid: u, app_id: a, app_alias: alias };
            let before = o.user.devices[i].applications;
            match apply::applied(o, c) {
                Some((changed, p)) => {
                    let after = p.user.devices[i].applications;
                    &&& changed <==> no_app(before, a)
                    &&& !changed ==> p == o
                    &&& changed ==> {
                        &&& same_but_apps(o, p, i)
                        &&& after.len() == before.len() + 1
                        &&& forall|k: int|
                            0 <= k < before.len() ==> #[trigger] after[k] == before[k]
                        &&& after.last().id == a
                        &&& after.last().alias == alias
                        &&& after.last().user_approved
                        &&& after.last().protocol.len() == 0
                        &&& after.last().token == types::spec_nil()
                        &&& after.last().host == types::spec_no_host()
                    }
                },
                None => false,
            }
        }),
{
    lemma_device_at(o, u, i);
    let before = o.user.devices[i].applications;
    if no_app(before, a) {
        lemma_no_app(before, a);
    } else {
        let j = choose|j: int| 0 <= j < before.len() && (#[trigger] before[j]).id == a;
        assert(find::app_is(a)(before[j]));
    }
}

/// Removing an application takes away all that have its identifier, and no
/// other.
pub proof fn law_application_is_removed(o: OwnerView, u: Uuid, i: int, a: Uuid)
    requires
        device_at(o, u, i),
    ensures
        ({
            let c = ChangeView::RemoveApplication { device_uuid: u, app_id: a };
            let before = o.user.devices[i].applications;
            match apply::applied(o, c) {
                Some((changed, p)) => {
                    let after = p.user.devices[i].applications;
                    &&& changed <==> !no_app(before, a)
                    &&& same_but_apps(o, p, i)
                    &&& no_app(after, a)
                    &&& forall|x: ApplicationView|
                        x.id != a ==> (#[trigger] after.contains(x) <==> before.contains(x))
                },
                None => false,
            }
        }),
{
    lemma_device_at(o, u, i);
    let before = o.user.devices[i].applications;
    let p = find::app_is_not(a);
    let after = model::keep(before, p);
    model::lemma_keep_again(before, p);
    assert forall|k: int| 0 <= k < after.len() implies (#[trigger] after[k]).id != a by {
        assert(p(after[k]));
    }
    assert forall|x: ApplicationView| x.id != a implies (#[trigger] after.contains(x)
        <==> before.contains(x)) by {
        model::lemma_keep_contains(before, p, x);
    }
    if no_app(before, a) {
        assert forall|k: int| 0 <= k < before.len() implies p(#[trigger] before[k]) by {}
        model::lemma_keep_all(before, p);
    } else {
        let j = choose|j: int| 0 <= j < before.len() && (#[trigger] before[j]).id == a;
        if after.len() == before.len() {
            model::lemma_keep_same_len(before, p);
            assert(after[j].id == a);
        }
    }
}

/// Renaming an application gives it the new name and leaves all else as it is.
pub proof fn law_application_is_renamed(
    o: OwnerView,
    u: Uuid,
    i: int,
    a: Uuid,
    j: int,
    alias: Seq<char>,
)
    requires
        device_at(o, u, i),
        app_at(o.user.devices[i].applications, a, j),
    ensures
        ({
            let c = ChangeView::UpdateApplicationAlias {
                device_uuid: u,
                app_id: a,
                new_alias: alias,
            };
            let before = o.user.devices[i].applications;
            match apply::applied(o, c) {
                Some((changed, p)) => {
                    let after = p.user.devices[i].applications;
                    &&& changed <==> before[j].alias != alias
                    &&& same_but_apps(o, p, i)
                    &&& after.len() == before.len()
                    &&& forall|k: int|
                        0 <= k < before.len() && k != j ==> #[trigger] after[k] == before[k]
                    &&& after[j].alias == alias
                    &&& after[j].id == a
                    &&& after[j].protocol == before[j].protocol
                    &&& after[j].host == before[j].host
                    &&& after[j].user_approved == before[j].user_approved
                    &&& after[j].token == before[j].token
                },
                None => false,
            }
        }),
{
    lemma_device_at(o, u, i);
    lemma_app_at(o.user.devices[i].applications, a, j);
}

/// Renaming an application that is not there changes nothing.
pub proof fn law_nothing_to_rename(o: OwnerView, u: Uuid, i: int, a: Uuid, alias: Seq<char>)
    requires
        device_at(o, u, i),
        no_app(o.user.devices[i].applications, a),
    ensures
        apply::applied(
            o,
            ChangeView::UpdateApplicationAlias { device_uuid: u, app_id: a, new_alias: alias },
        ) == Some((false, o)),
{
    lemma_device_at(o, u, i);
    lemma_no_app(o.user.devices[i].applications, a);
}

/// Adding a device puts it behind the others as it is described, without
/// applications; a known one is left as it is.
pub proof fn law_device_is_added(
    o: OwnerView,
    u: Uuid,
    alias: Seq<char>,
    grade: DeviceGrade,
    sg_rank: Option<u32>,
    hosts: Seq<Seq<char>>,
)
    ensures
        ({
            let c = ChangeView::AddDevice { uuid: u, alias, grade, sg_rank, hosts };
            match apply::applied(o, c) {
                Some((changed, p)) => {
                    let d = p.user.devices.last();
                    &&& changed <==> no_device(o, u)
                    &&& !changed ==> p == o
                    &&& changed ==> {
                        &&& p.contact_users == o.contact_users
                        &&& p.user.devices.len() == o.user.devices.len() + 1
                        &&& forall|k: int|
                            0 <= k < o.user.devices.len() ==> #[trigger] p.user.devices[k]
                                == o.user.devices[k]
                        &&& d.uuid == u
                        &&& d.alias == alias
                        &&& d.grade == grade
                        &&& d.sg_rank == sg_rank
                        &&& d.hosts == hosts
                        &&& d.applications.len() == 0
                    }
                },
                None => false,
            }
        }),
{
    if no_device(o, u) {
        lemma_no_device(o, u);
    } else {
        let j = choose|j: int|
            0 <= j < o.user.devices.len() && (#[trigger] o.user.devices[j]).uuid == u;
        assert(find::device_is(u)(o.user.devices[j]));
    }
}

/// A contact that is described anew has the name, the key and the devices of the
/// description, and what was seen of its versions stays. The other contacts stay
/// as they are.
pub proof fn law_contact_is_described(
    o: OwnerView,
    u: Uuid,
    i: int,
    alias: Seq<char>,
    public_key: PublicKey,
    devices: Seq<CardView>,
)
    requires
        contact_at(o, u, i),
    ensures
        ({
            let c = ChangeView::UpsertContact { uuid: u, alias, public_key, devices };
            match apply::applied(o, c) {
                Some((changed, p)) => {
                    &&& p.user == o.user
                    &&& p.contact_users.len() == o.contact_users.len()
                    &&& forall|k: int|
                        0 <= k < o.contact_users.len() && k != i
                            ==> #[trigger] p.contact_users[k] == o.contact_users[k]
                    &&& p.contact_users[i].user.uuid == u
                    &&& p.contact_users[i].user.alias == alias
                    &&& p.contact_users[i].public_key == public_key
                    &&& p.contact_users[i].last_seen_public_version
                        == o.contact_users[i].last_seen_public_version
                    &&& cards::cards_of(p.contact_users[i].user.devices) == cards::normal_cards(
                        devices,
                    )
                    &&& !changed ==> p == o
                    &&& changed ==> described(p.contact_users[i].user.devices, devices)
                },
                None => false,
            }
        }),
{
    lemma_contact_at(o, u, i);
    cards::lemma_cards_of_card_devices(devices);
}

/// Devices as cards describe them, one for one: with their applications, all of
/// which count as approved.
pub open spec fn described(devices: Seq<DeviceView>, by: Seq<CardView>) -> bool {
    &&& devices.len() == by.len()
    &&& forall|k: int|
        0 <= k < by.len() ==> {
            &&& (#[trigger] devices[k]).uuid == by[k].uuid
            &&& devices[k].alias == by[k].alias
            &&& devices[k].grade == by[k].grade
            &&& devices[k].sg_rank == by[k].sg_rank
            &&& devices[k].hosts == by[k].hosts
            &&& devices[k].applications.len() == by[k].apps.len()
            &&& forall|j: int|
                0 <= j < by[k].apps.len() ==> {
                    &&& (#[trigger] devices[k].applications[j]).id == by[k].apps[j].0
                    &&& devices[k].applications[j].alias == by[k].apps[j].1
                    &&& devices[k].applications[j].user_approved
                    &&& devices[k].applications[j].token == types::spec_nil()
                }
        }
}

/// An unknown contact is put behind the others as it is described, with nothing
/// seen of its versions.
pub proof fn law_contact_is_added(
    o: OwnerView,
    u: Uuid,
    alias: Seq<char>,
    public_key: PublicKey,
    devices: Seq<CardView>,
)
    requires
        no_contact(o, u),
    ensures
        ({
            let c = ChangeView::UpsertContact { uuid: u, alias, public_key, devices };
            match apply::applied(o, c) {
                Some((changed, p)) => {
                    let x = p.contact_users.last();
                    &&& changed
                    &&& p.user == o.user
                    &&& p.contact_users.len() == o.contact_users.len() + 1
                    &&& forall|k: int|
                        0 <= k < o.contact_users.len() ==> #[trigger] p.contact_users[k]
                            == o.contact_users[k]
                    &&& x.user.uuid == u
                    &&& x.user.alias == alias
                    &&& x.public_key == public_key
                    &&& described(x.user.devices, devices)
                    &&& x.last_seen_public_version.epoch == 0
                    &&& x.last_seen_public_version.seq == 0
                },
                None => false,
            }
        }),
{
    lemma_no_contact(o, u);
}

/// A change to the applications of a device that the user does not have is
/// refused; no other change is.
pub proof fn law_only_unknown_devices_are_refused(o: OwnerView, c: ChangeView)
    ensures
        apply::applied(o, c) is None <==> match c {
            ChangeView::AddApplication { device_uuid, .. } => no_device(o, device_uuid),
            ChangeView::RemoveApplication { device_uuid, .. } => no_device(o, device_uuid),
            ChangeView::UpdateApplicationAlias { device_uuid, .. } => no_device(o, device_uuid),
            _ => false,
        },
{
    let u = apply::named_device(c);
    let s = o.user.devices;
    if no_device(o, u) {
        lemma_no_device(o, u);
    } else {
        let j = choose|j: int| 0 <= j < s.len() && (#[trigger] s[j]).uuid == u;
        model::lemma_first_some(s, find::device_is(u), j);
    }
}

/// The version after a change that took effect: of the writer, one further in its
/// own history or the first of the next epoch.
pub open spec fn succeeds(v: SyncVersion, w: SyncVersion, writer: Uuid) -> bool {
    &&& w.writer_sg_uuid == writer
    &&& v.writer_sg_uuid == writer ==> w.epoch == v.epoch && w.seq == v.seq + 1
    &&& v.writer_sg_uuid != writer ==> w.epoch == v.epoch + 1 && w.seq == 1
}

/// A change that took effect moves the public version by one step and leaves the
/// private one; one that found nothing to do moves neither.
pub proof fn law_change_moves_the_version(o: OwnerView, c: ChangeView, writer: Uuid)
    requires
        o.public_version.room(1),
    ensures
        match apply::committed(o, c, writer) {
            Some((changed, p)) => {
                &&& p.private_version == o.private_version
                &&& changed ==> succeeds(o.public_version, p.public_version, writer)
                &&& !changed ==> p == o
            },
            None => true,
        },
{
    apply::law_no_change_is_no_change(o, c);
}

} // verus!
