//! Applying changes to what a node holds for its user.
use crate::cards;
use crate::cards::{cards_eq, cards_to_devices, devices_to_cards, new_public_app, normalize_cards};
use crate::change;
use crate::change::{change_scopes, Change, ChangeView};
use crate::device_wire::ContactDeviceCard;
use crate::find;
use crate::find::{find_app, find_contact, find_device};
use crate::model;
use crate::text;
use crate::text::{put, put_dec};
use crate::types::{
    clone_strings, key_eq, uuid_eq, Application, ApplicationView, Contact, ContactView, Device,
    DeviceView, Owner, OwnerView, PublicKey, Scope, SyncVersion, User, UserView, Uuid,
};
use vstd::prelude::*;

verus! {

/// Why a change was not made.
#[derive(Debug, PartialEq, Eq)]
pub enum WriteError {
    /// No server that could take the change is reachable.
    Unreachable,
    /// The change speaks of something that is not there.
    Validation(String),
}

/// The bytes of an identifier, in decimal, from the `i`-th on.
pub open spec fn byte_list(u: Seq<u8>, i: int) -> Seq<char>
    decreases u.len() - i,
{
    if i < 0 || i >= u.len() {
        Seq::empty()
    } else if i == u.len() - 1 {
        text::dec(u[i] as nat)
    } else {
        text::dec(u[i] as nat) + seq![',', ' '] + byte_list(u, i + 1)
    }
}

/// What is said of an unknown device.
pub open spec fn unknown_device(u: Uuid) -> Seq<char> {
    "unknown device_uuid ["@ + byte_list(u@, 0) + "]"@
}

/// What is said of an unknown device.
fn unknown_device_text(u: &Uuid) -> (r: String)
    ensures
        r@ == unknown_device(*u),
{
    let mut s = String::new();
    put(&mut s, "unknown device_uuid [");
    let ghost start = s@;
    let mut i: usize = 0;
    while i < 16
        invariant
            i <= 16,
            s@ + byte_list(u@, i as int) == start + byte_list(u@, 0),
        decreases 16 - i,
    {
        let ghost before = s@;
        put_dec(&mut s, u[i] as u64);
        if i < 15 {
            s.push(',');
            s.push(' ');
            assert(s@ + byte_list(u@, i + 1) =~= before + byte_list(u@, i as int));
        } else {
            assert(s@ + byte_list(u@, i + 1) =~= before + byte_list(u@, i as int));
        }
        i += 1;
    }
    assert(s@ =~= s@ + byte_list(u@, 16));
    put(&mut s, "]");
    assert(s@ =~= unknown_device(*u));
    s
}

impl OwnerView {
    pub open spec fn with_devices(self, devices: Seq<DeviceView>) -> OwnerView {
        OwnerView { user: UserView { devices, ..self.user }, ..self }
    }

    /// The same, with the applications of the `i`-th device replaced.
    pub open spec fn with_apps(self, i: int, applications: Seq<ApplicationView>) -> OwnerView {
        self.with_devices(
            self.user.devices.update(i, DeviceView { applications, ..self.user.devices[i] }),
        )
    }

    pub open spec fn with_contacts(self, contact_users: Seq<ContactView>) -> OwnerView {
        OwnerView { contact_users, ..self }
    }

    /// The position of one of the user's devices.
    pub open spec fn device_index(self, u: Uuid) -> Option<int> {
        model::first_where(self.user.devices, find::device_is(u))
    }

    /// The position of a contact.
    pub open spec fn contact_index(self, u: Uuid) -> Option<int> {
        model::first_where(self.contact_users, find::contact_is(u))
    }
}

/// What is known of a contact says the same as an incoming snapshot.
pub open spec fn contact_unchanged(
    c: ContactView,
    alias: Seq<char>,
    public_key: PublicKey,
    devices: Seq<crate::device_wire::CardView>,
) -> bool {
    &&& c.user.alias == alias
    &&& c.public_key == public_key
    &&& cards::cards_of(c.user.devices) == cards::normal_cards(devices)
}

/// What a change makes of `o`, and whether it changes anything; `None` when it
/// speaks of a device that is not there.
pub open spec fn applied(o: OwnerView, c: ChangeView) -> Option<(bool, OwnerView)> {
    match c {
        ChangeView::AddApplication { device_uuid, app_id, app_alias } => match o.device_index(
            device_uuid,
        ) {
            Some(i) => {
                let apps = o.user.devices[i].applications;
                if model::any_where(apps, find::app_is(app_id)) {
                    Some((false, o))
                } else {
                    Some((true, o.with_apps(i, apps.push(cards::public_app(app_id, app_alias)))))
                }
            },
            None => None,
        },
        ChangeView::RemoveApplication { device_uuid, app_id } => match o.device_index(
            device_uuid,
        ) {
            Some(i) => {
                let apps = o.user.devices[i].applications;
                let kept = model::keep(apps, find::app_is_not(app_id));
                Some((kept.len() != apps.len(), o.with_apps(i, kept)))
            },
            None => None,
        },
        ChangeView::AddDevice { uuid, alias, grade, sg_rank, hosts } => if model::any_where(
            o.user.devices,
            find::device_is(uuid),
        ) {
            Some((false, o))
        } else {
            Some(
                (
                    true,
                    o.with_devices(
                        o.user.devices.push(
                            DeviceView {
                                uuid,
                                alias,
                                grade,
                                sg_rank,
                                hosts,
                                applications: Seq::empty(),
                            },
                        ),
                    ),
                ),
            )
        },
        ChangeView::UpdateApplicationAlias { device_uuid, app_id, new_alias } =>
            match o.device_index(device_uuid) {
                Some(i) => {
                    let apps = o.user.devices[i].applications;
                    match model::first_where(apps, find::app_is(app_id)) {
                        Some(j) => if apps[j].alias != new_alias {
                            Some(
                                (
                                    true,
                                    o.with_apps(
                                        i,
                                        apps.update(
                                            j,
                                            ApplicationView { alias: new_alias, ..apps[j] },
                                        ),
                                    ),
                                ),
                            )
                        } else {
                            Some((false, o))
                        },
                        None => Some((false, o)),
                    }
                },
                None => None,
            },
        ChangeView::UpsertContact { uuid, alias, public_key, devices } => match o.contact_index(
            uuid,
        ) {
            Some(i) => {
                let c = o.contact_users[i];
                if contact_unchanged(c, alias, public_key, devices) {
                    Some((false, o))
                } else {
                    let user = UserView {
                        alias,
                        uuid: c.user.uuid,
                        devices: cards::card_devices(devices),
                    };
                    Some(
                        (
                            true,
                            o.with_contacts(
                                o.contact_users.update(i, ContactView { user, public_key, ..c }),
                            ),
                        ),
                    )
                }
            },
            None => {
                let user = UserView { alias, uuid, devices: cards::card_devices(devices) };
                Some(
                    (
                        true,
                        o.with_contacts(
                            o.contact_users.push(
                                ContactView {
                                    user,
                                    public_key,
                                    last_seen_public_version: SyncVersion::spec_zero(),
                                },
                            ),
                        ),
                    ),
                )
            },
        },
    }
}

/// The device that a change speaks of.
pub open spec fn named_device(c: ChangeView) -> Uuid {
    match c {
        ChangeView::AddApplication { device_uuid, .. } => device_uuid,
        ChangeView::RemoveApplication { device_uuid, .. } => device_uuid,
        ChangeView::AddDevice { uuid, .. } => uuid,
        ChangeView::UpdateApplicationAlias { device_uuid, .. } => device_uuid,
        ChangeView::UpsertContact { uuid, .. } => uuid,
    }
}

/// Removes the applications with the identifier `id`.
pub fn remove_apps(v: &mut Vec<Application>, id: &Uuid)
    ensures
        model::views(final(v)@) == model::keep(model::views(old(v)@), find::app_is_not(*id)),
{
    broadcast use model::group_views;

    let ghost s = model::views(v@);
    let mut out: Vec<Application> = Vec::new();
    let mut i: usize = 0;
    assert(model::views(out@) =~= model::keep(s.take(0), find::app_is_not(*id)));
    while i < v.len()
        invariant
            i <= v@.len(),
            s == model::views(v@),
            model::views(out@) == model::keep(s.take(i as int), find::app_is_not(*id)),
        decreases v@.len() - i,
    {
        if !uuid_eq(&v[i].id, id) {
            out.push(v[i].clone());
        }
        proof {
            model::lemma_keep_step(s, find::app_is_not(*id), i as int);
        }
        i += 1;
    }
    assert(s.take(s.len() as int) =~= s);
    *v = out;
}

/// Whether what is known of a contact says the same as an incoming snapshot.
fn same_contact(
    c: &Contact,
    alias: &String,
    public_key: &PublicKey,
    devices: &Vec<ContactDeviceCard>,
) -> (r: bool)
    ensures
        r == contact_unchanged(c@, alias@, *public_key, model::views(devices@)),
{
    let incoming = normalize_cards(devices);
    let known = devices_to_cards(&c.user.devices);
    c.user.alias == *alias && key_eq(&c.public_key, public_key) && cards_eq(&known, &incoming)
}

/// Makes a change. `Ok` tells whether anything changed; an error leaves
/// everything as it was.
pub fn apply_change_to_owner(owner: &mut Owner, change: &Change) -> (r: Result<bool, WriteError>)
    ensures
        match applied(old(owner)@, change@) {
            Some((b, o)) => r == Ok::<bool, WriteError>(b) && final(owner)@ == o,
            None => {
                &&& r matches Err(WriteError::Validation(m)) && m@ == unknown_device(
                    named_device(change@),
                )
                &&& final(owner)@ == old(owner)@
            },
        },
{
    broadcast use model::group_views;

    match change {
        Change::AddApplication { device_uuid, app_id, app_alias } => {
            match find_device(&owner.user.devices, device_uuid) {
                Some(i) => {
                    match find_app(&owner.user.devices[i].applications, app_id) {
                        Some(_) => Ok(false),
                        None => {
                            owner.user.devices[i].applications.push(
                                new_public_app(*app_id, app_alias.clone()),
                            );
                            assert(owner@ =~= applied(old(owner)@, change@).unwrap().1);
                            Ok(true)
                        },
                    }
                },
                None => Err(WriteError::Validation(unknown_device_text(device_uuid))),
            }
        },
        Change::RemoveApplication { device_uuid, app_id } => {
            match find_device(&owner.user.devices, device_uuid) {
                Some(i) => {
                    let before: usize = owner.user.devices[i].applications.len();
                    remove_apps(&mut owner.user.devices[i].applications, app_id);
                    assert(owner@ =~= applied(old(owner)@, change@).unwrap().1);
                    Ok(before != owner.user.devices[i].applications.len())
                },
                None => Err(WriteError::Validation(unknown_device_text(device_uuid))),
            }
        },
        Change::AddDevice { uuid, alias, grade, sg_rank, hosts } => {
            proof {
                model::lemma_first_where(owner@.user.devices, find::device_is(*uuid));
            }
            match find_device(&owner.user.devices, uuid) {
                Some(_) => Ok(false),
                None => {
                    let d = Device {
                        uuid: *uuid,
                        alias: alias.clone(),
                        grade: *grade,
                        sg_rank: *sg_rank,
                        hosts: clone_strings(hosts),
                        applications: Vec::new(),
                    };
                    owner.user.devices.push(d);
                    assert(owner@ =~= applied(old(owner)@, change@).unwrap().1);
                    Ok(true)
                },
            }
        },
        Change::UpdateApplicationAlias { device_uuid, app_id, new_alias } => {
            match find_device(&owner.user.devices, device_uuid) {
                Some(i) => {
                    match find_app(&owner.user.devices[i].applications, app_id) {
                        Some(j) => {
                            if owner.user.devices[i].applications[j].alias == *new_alias {
                                Ok(false)
                            } else {
                                owner.user.devices[i].applications[j].alias = new_alias.clone();
                                assert(owner@ =~= applied(old(owner)@, change@).unwrap().1);
                                Ok(true)
                            }
                        },
                        None => Ok(false),
                    }
                },
                None => Err(WriteError::Validation(unknown_device_text(device_uuid))),
            }
        },
        Change::UpsertContact { uuid, alias, public_key, devices } => {
            match find_contact(&owner.contact_users, uuid) {
                Some(i) => {
                    if same_contact(&owner.contact_users[i], alias, public_key, devices) {
                        Ok(false)
                    } else {
                        owner.contact_users[i].user.alias = alias.clone();
                        owner.contact_users[i].public_key = *public_key;
                        owner.contact_users[i].user.devices = cards_to_devices(devices);
                        assert(owner@ =~= applied(old(owner)@, change@).unwrap().1);
                        Ok(true)
                    }
                },
                None => {
                    let user = User {
                        alias: alias.clone(),
                        uuid: *uuid,
                        devices: cards_to_devices(devices),
                    };
                    owner.contact_users.push(
                        Contact {
                            user,
                            public_key: *public_key,
                            last_seen_public_version: SyncVersion::zero(),
                        },
                    );
                    assert(owner@ =~= applied(old(owner)@, change@).unwrap().1);
                    Ok(true)
                },
            }
        },
    }
}

/// A change that reports nothing changed leaves everything as it was.
pub proof fn law_no_change_is_no_change(o: OwnerView, c: ChangeView)
    ensures
        applied(o, c) matches Some((b, p)) ==> (!b ==> p == o),
{
    if let ChangeView::RemoveApplication { device_uuid, app_id } = c {
        if let Some(i) = o.device_index(device_uuid) {
            model::lemma_first_where(o.user.devices, find::device_is(device_uuid));
            let apps = o.user.devices[i].applications;
            if model::keep(apps, find::app_is_not(app_id)).len() == apps.len() {
                model::lemma_keep_same_len(apps, find::app_is_not(app_id));
                assert(o.user.devices.update(i, o.user.devices[i]) =~= o.user.devices);
            }
        }
    }
}

/// Making a change again changes nothing more.
pub proof fn law_apply_twice(o: OwnerView, c: ChangeView)
    requires
        applied(o, c) is Some,
    ensures
        applied(applied(o, c).unwrap().1, c) == Some((false, applied(o, c).unwrap().1)),
{
    let (b, p) = applied(o, c).unwrap();
    law_no_change_is_no_change(o, c);
    match c {
        ChangeView::AddApplication { device_uuid, app_id, app_alias } => {
            if b {
                let i = o.device_index(device_uuid).unwrap();
                lemma_same_device(o, device_uuid, i, p.user.devices[i].applications);
                let apps = o.user.devices[i].applications;
                let added = apps.push(cards::public_app(app_id, app_alias));
                assert(added[apps.len() as int].id == app_id);
                model::lemma_first_some(added, find::app_is(app_id), apps.len() as int);
            }
        },
        ChangeView::RemoveApplication { device_uuid, app_id } => {
            let i = o.device_index(device_uuid).unwrap();
            let apps = o.user.devices[i].applications;
            let kept = model::keep(apps, find::app_is_not(app_id));
            lemma_same_device(o, device_uuid, i, kept);
            model::lemma_keep_again(apps, find::app_is_not(app_id));
            assert(p.with_apps(i, kept) =~= p);
        },
        ChangeView::AddDevice { uuid, alias, grade, sg_rank, hosts } => {
            if b {
                let n = o.user.devices.len() as int;
                assert(find::device_is(uuid)(p.user.devices[n]));
                model::lemma_first_some(p.user.devices, find::device_is(uuid), n);
            }
        },
        ChangeView::UpdateApplicationAlias { device_uuid, app_id, new_alias } => {
            if b {
                let i = o.device_index(device_uuid).unwrap();
                let apps = o.user.devices[i].applications;
                let j = model::first_where(apps, find::app_is(app_id)).unwrap();
                model::lemma_first_where(apps, find::app_is(app_id));
                let renamed = apps.update(j, ApplicationView { alias: new_alias, ..apps[j] });
                lemma_same_device(o, device_uuid, i, renamed);
                assert forall|k: int| 0 <= k < j implies !find::app_is(app_id)(
                    #[trigger] renamed[k],
                ) by {
                    assert(renamed[k] == apps[k]);
                }
                assert(model::is_first(renamed, find::app_is(app_id), j));
                model::lemma_first_at(renamed, find::app_is(app_id), j);
            }
        },
        ChangeView::UpsertContact { uuid, alias, public_key, devices } => {
            cards::lemma_cards_of_card_devices(devices);
            model::lemma_first_where(o.contact_users, find::contact_is(uuid));
            if b {
                let k = match o.contact_index(uuid) {
                    Some(i) => i,
                    None => o.contact_users.len() as int,
                };
                assert forall|j: int| 0 <= j < k implies !find::contact_is(uuid)(
                    #[trigger] p.contact_users[j],
                ) by {
                    assert(p.contact_users[j] == o.contact_users[j]);
                }
                assert(model::is_first(p.contact_users, find::contact_is(uuid), k));
                model::lemma_first_at(p.contact_users, find::contact_is(uuid), k);
            }
        },
    }
}

/// Replacing the applications of a device leaves it where it was.
pub proof fn lemma_same_device(o: OwnerView, u: Uuid, i: int, apps: Seq<ApplicationView>)
    requires
        o.device_index(u) == Some(i),
    ensures
        o.with_apps(i, apps).device_index(u) == Some(i),
        0 <= i < o.user.devices.len(),
        o.with_apps(i, apps).user.devices[i].applications == apps,
        o.with_apps(i, apps).user.devices.len() == o.user.devices.len(),
{
    model::lemma_first_where(o.user.devices, find::device_is(u));
    let d = o.with_apps(i, apps).user.devices;
    assert forall|j: int| 0 <= j < i implies !find::device_is(u)(#[trigger] d[j]) by {
        assert(d[j] == o.user.devices[j]);
    }
    assert(model::is_first(d, find::device_is(u), i));
    model::lemma_first_at(d, find::device_is(u), i);
}

/// A change touches the user's devices and the contacts, and nothing else.
pub proof fn law_apply_frame(o: OwnerView, c: ChangeView)
    ensures
        applied(o, c) matches Some((b, p)) ==> p == (OwnerView {
            user: UserView { devices: p.user.devices, ..o.user },
            contact_users: p.contact_users,
            ..o
        }),
{
}

/// The versions after a change: those that it moves are advanced, unless
/// nothing changed.
pub open spec fn committed(o: OwnerView, c: ChangeView, writer: Uuid) -> Option<(bool, OwnerView)> {
    match applied(o, c) {
        Some((b, p)) => Some((b, if b { p.with_bump(Scope::Public, writer) } else { p })),
        None => None,
    }
}

/// Makes a change and advances the versions that it moves, unless nothing
/// changed. Gives the private and the public version then current.
pub fn apply_change_locally(owner: &mut Owner, change: &Change, writer_uuid: Uuid) -> (r: Result<
    (SyncVersion, SyncVersion),
    WriteError,
>)
    requires
        old(owner).public_version.room(1),
    ensures
        match committed(old(owner)@, change@, writer_uuid) {
            Some((_, o)) => {
                &&& r == Ok::<(SyncVersion, SyncVersion), WriteError>(
                    (o.private_version, o.public_version),
                )
                &&& final(owner)@ == o
            },
            None => {
                &&& r matches Err(WriteError::Validation(m)) && m@ == unknown_device(
                    named_device(change@),
                )
                &&& final(owner)@ == old(owner)@
            },
        },
{
    proof {
        law_apply_frame(owner@, change@);
    }
    match apply_change_to_owner(owner, change) {
        Ok(changed) => {
            if changed {
                let scopes = change_scopes(change);
                assert(scopes@.len() == 1 && scopes@[0] == Scope::Public);
                owner.bump_version(scopes[0], writer_uuid);
            }
            Ok((owner.private_version, owner.public_version))
        },
        Err(e) => Err(e),
    }
}

} // verus!
