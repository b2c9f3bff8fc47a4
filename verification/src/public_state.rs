//! The public state of a user as it travels between the user's own nodes.
use crate::cards;
use crate::cards::{cards_to_devices, card_to_device, new_public_app, plain_cards};
use crate::device_wire;
use crate::device_wire::{push_cards, read_cards, CardView, ContactDeviceCard};
use crate::find;
use crate::find::{find_app, find_contact, find_device};
use crate::keys;
use crate::lists;
use crate::model;
use crate::types::{
    clone_strings, uuid_eq, Application, ApplicationView, Contact, ContactView, Device, DeviceView,
    Node, NodeView, OwnerView, PublicKey, SyncVersion, User, UserView, Uuid,
};
use crate::wire;
use crate::wire::{push_key, push_str, push_uuid, read_byte, read_key, read_str, read_uuid};
use vstd::prelude::*;

verus! {

/// What the public state says of a contact.
pub struct ContactCard {
    pub alias: String,
    pub uuid: Uuid,
    pub public_key: PublicKey,
    pub devices: Vec<ContactDeviceCard>,
}

#[verifier::ext_equal]
pub struct ContactCardView {
    pub alias: Seq<char>,
    pub uuid: Uuid,
    pub public_key: PublicKey,
    pub devices: Seq<CardView>,
}

impl View for ContactCard {
    type V = ContactCardView;

    open spec fn view(&self) -> ContactCardView {
        ContactCardView {
            alias: self.alias@,
            uuid: self.uuid,
            public_key: self.public_key,
            devices: model::views(self.devices@),
        }
    }
}

/// A user's public state.
pub struct PublicState {
    pub user_alias: String,
    pub user_uuid: Uuid,
    pub devices: Vec<ContactDeviceCard>,
    pub contacts: Vec<ContactCard>,
}

#[verifier::ext_equal]
pub struct PublicStateView {
    pub user_alias: Seq<char>,
    pub user_uuid: Uuid,
    pub devices: Seq<CardView>,
    pub contacts: Seq<ContactCardView>,
}

impl View for PublicState {
    type V = PublicStateView;

    open spec fn view(&self) -> PublicStateView {
        PublicStateView {
            user_alias: self.user_alias@,
            user_uuid: self.user_uuid,
            devices: model::views(self.devices@),
            contacts: model::views(self.contacts@),
        }
    }
}

/// What is public of a contact.
pub open spec fn contact_card(c: ContactView) -> ContactCardView {
    ContactCardView {
        alias: c.user.alias,
        uuid: c.user.uuid,
        public_key: c.public_key,
        devices: cards::device_cards(c.user.devices),
    }
}

pub open spec fn contact_cards(s: Seq<ContactView>) -> Seq<ContactCardView> {
    Seq::new(s.len(), |i: int| contact_card(s[i]))
}

/// The public part of what a node holds.
pub open spec fn public_part(n: NodeView) -> PublicStateView {
    PublicStateView {
        user_alias: n.owner.user.alias,
        user_uuid: n.owner.user.uuid,
        devices: cards::device_cards(n.owner.user.devices),
        contacts: contact_cards(n.owner.contact_users),
    }
}

pub open spec fn enc_contact_card(c: ContactCardView) -> Seq<u8> {
    wire::enc_str(c.alias) + c.uuid@ + c.public_key@ + device_wire::enc_cards(c.devices)
}

pub open spec fn parse_contact_card(d: Seq<u8>, p: int) -> Option<(ContactCardView, int)> {
    match wire::parse_str(d, p) {
        Some((alias, p1)) => match wire::parse_uuid(d, p1) {
            Some((uuid, p2)) => match wire::parse_key(d, p2) {
                Some((public_key, p3)) => match device_wire::parse_cards(d, p3) {
                    Some((devices, p4)) => Some(
                        (ContactCardView { alias, uuid, public_key, devices }, p4),
                    ),
                    None => None,
                },
                None => None,
            },
            None => None,
        },
        None => None,
    }
}

pub open spec fn contact_enc() -> spec_fn(ContactCardView) -> Seq<u8> {
    |c: ContactCardView| enc_contact_card(c)
}

pub open spec fn contact_parser() -> spec_fn(Seq<u8>, int) -> Option<(ContactCardView, int)> {
    |d: Seq<u8>, p: int| parse_contact_card(d, p)
}

/// A count byte and the first 255 contacts.
pub open spec fn enc_contact_cards(s: Seq<ContactCardView>) -> Seq<u8> {
    let n = wire::least(s.len() as int, 255);
    seq![n as u8] + lists::enc_all(s.take(n), contact_enc())
}

/// The layout of a public state.
pub open spec fn enc_public_state(s: PublicStateView) -> Seq<u8> {
    wire::enc_str(s.user_alias) + s.user_uuid@ + device_wire::enc_cards(s.devices)
        + enc_contact_cards(s.contacts)
}

/// The public state that a blob holds. Bytes behind it are passed over.
pub open spec fn parse_public_state(d: Seq<u8>) -> Option<PublicStateView> {
    match wire::parse_str(d, 0) {
        Some((user_alias, p1)) => match wire::parse_uuid(d, p1) {
            Some((user_uuid, p2)) => match device_wire::parse_cards(d, p2) {
                Some((devices, p3)) => match wire::parse_byte(d, p3) {
                    Some((n, p4)) => match lists::parse_many(d, p4, n as nat, contact_parser()) {
                        Some((contacts, _)) => Some(
                            PublicStateView { user_alias, user_uuid, devices, contacts },
                        ),
                        None => None,
                    },
                    None => None,
                },
                None => None,
            },
            None => None,
        },
        None => None,
    }
}

/// Encodes the public part of what a node holds.
pub fn serialize_public_state(node: &Node) -> (r: Vec<u8>)
    ensures
        r@ == enc_public_state(public_part(node@)),
{
    broadcast use model::group_views;

    let mut buf: Vec<u8> = Vec::new();
    push_str(&mut buf, node.owner.user.alias.as_str());
    push_uuid(&mut buf, &node.owner.user.uuid);
    let devices = plain_cards(&node.owner.user.devices);
    push_cards(&mut buf, &devices);

    let contacts = &node.owner.contact_users;
    let ghost cv = contact_cards(node@.owner.contact_users);
    let mut n: usize = contacts.len();
    if n > 255 {
        n = 255;
    }
    buf.push(n as u8);
    let ghost start = buf@;
    let ghost h = cv.take(n as int);
    let mut i: usize = 0;
    assert(buf@ =~= start + lists::enc_all(h.take(0), contact_enc()));
    while i < n
        invariant
            i <= n <= contacts@.len(),
            cv == contact_cards(model::views(contacts@)),
            h == cv.take(n as int),
            buf@ == start + lists::enc_all(h.take(i as int), contact_enc()),
        decreases n - i,
    {
        let c = &contacts[i];
        let ghost before = buf@;
        push_str(&mut buf, c.user.alias.as_str());
        push_uuid(&mut buf, &c.user.uuid);
        push_key(&mut buf, &c.public_key);
        let cards = plain_cards(&c.user.devices);
        push_cards(&mut buf, &cards);
        proof {
            lists::lemma_enc_step(h, contact_enc(), i as int);
            assert(h[i as int] == contact_card(contacts@[i as int]@));
            assert(buf@ =~= before + enc_contact_card(h[i as int]));
        }
        i += 1;
        assert(buf@ =~= start + lists::enc_all(h.take(i as int), contact_enc()));
    }
    assert(h.take(n as int) =~= h);
    assert(buf@ =~= enc_public_state(public_part(node@)));
    buf
}

fn read_contact_card(data: &[u8], pos: &mut usize) -> (r: Option<ContactCard>)
    requires
        *old(pos) <= data@.len(),
    ensures
        *final(pos) <= data@.len(),
        match parse_contact_card(data@, *old(pos) as int) {
            Some((c, q)) => r is Some && r->0@ == c && *final(pos) == q,
            None => r is None,
        },
{
    let alias = match read_str(data, pos) {
        Some(s) => s,
        None => { return None; },
    };
    let uuid: Uuid = match read_uuid(data, pos) {
        Some(u) => u,
        None => { return None; },
    };
    let public_key: PublicKey = match read_key(data, pos) {
        Some(k) => k,
        None => { return None; },
    };
    match read_cards(data, pos) {
        Some(devices) => Some(ContactCard { alias, uuid, public_key, devices }),
        None => None,
    }
}

/// Decodes a public state; `None` if the blob is malformed.
pub fn deserialize_public_state(data: &[u8]) -> (r: Option<PublicState>)
    ensures
        match parse_public_state(data@) {
            Some(s) => r is Some && r->0@ == s,
            None => r is None,
        },
{
    broadcast use model::group_views;

    let mut pos: usize = 0;
    let user_alias = match read_str(data, &mut pos) {
        Some(s) => s,
        None => { return None; },
    };
    let user_uuid: Uuid = match read_uuid(data, &mut pos) {
        Some(u) => u,
        None => { return None; },
    };
    let devices = match read_cards(data, &mut pos) {
        Some(c) => c,
        None => { return None; },
    };
    let ghost p3 = pos as int;
    let n: u8 = match read_byte(data, &mut pos) {
        Some(b) => b,
        None => { return None; },
    };
    let ghost p = pos as int;
    let mut contacts: Vec<ContactCard> = Vec::new();
    let mut i: u8 = 0;
    while i < n
        invariant
            i <= n,
            pos <= data@.len(),
            lists::parse_many(data@, p, i as nat, contact_parser()) == Some(
                (model::views(contacts@), pos as int),
            ),
            parse_public_state(data@) is Some ==> lists::parse_many(
                data@,
                p,
                n as nat,
                contact_parser(),
            ) is Some,
        decreases n - i,
    {
        match read_contact_card(data, &mut pos) {
            Some(c) => {
                contacts.push(c);
                i += 1;
            },
            None => {
                proof {
                    lists::lemma_parse_stuck(
                        data@,
                        p,
                        (i + 1) as nat,
                        n as nat,
                        contact_parser(),
                    );
                }
                return None;
            },
        }
    }
    Some(PublicState { user_alias, user_uuid, devices, contacts })
}

pub open spec fn not_among(apps: Seq<ApplicationView>) -> spec_fn((Uuid, Seq<char>)) -> bool {
    |a: (Uuid, Seq<char>)| !model::any_where(apps, find::app_is(a.0))
}

pub open spec fn pair_is(id: Uuid) -> spec_fn((Uuid, Seq<char>)) -> bool {
    |a: (Uuid, Seq<char>)| a.0 == id
}

pub open spec fn listed_in(inc: Seq<(Uuid, Seq<char>)>) -> spec_fn(ApplicationView) -> bool {
    |a: ApplicationView| model::any_where(inc, pair_is(a.id))
}

/// The applications of this device after a pull: its own, as they are, and
/// those reported that it does not have.
pub open spec fn add_missing(
    apps: Seq<ApplicationView>,
    inc: Seq<(Uuid, Seq<char>)>,
) -> Seq<ApplicationView> {
    apps + cards::public_apps(model::keep(inc, not_among(apps)))
}

/// Takes over the reported aliases, one after the other, adding what is not
/// there.
pub open spec fn adopt(
    apps: Seq<ApplicationView>,
    inc: Seq<(Uuid, Seq<char>)>,
) -> Seq<ApplicationView>
    decreases inc.len(),
{
    if inc.len() == 0 {
        apps
    } else {
        let before = adopt(apps, inc.drop_last());
        let (id, alias) = inc.last();
        match model::first_where(before, find::app_is(id)) {
            Some(i) => before.update(i, ApplicationView { alias, ..before[i] }),
            None => before.push(cards::public_app(id, alias)),
        }
    }
}

/// The applications of another device after a pull: those reported. One that
/// was known keeps its private part.
pub open spec fn take_over(
    apps: Seq<ApplicationView>,
    inc: Seq<(Uuid, Seq<char>)>,
) -> Seq<ApplicationView> {
    adopt(model::keep(apps, listed_in(inc)), inc)
}

/// A known device after a pull.
pub open spec fn refreshed(d: DeviceView, c: CardView, is_local: bool) -> DeviceView {
    DeviceView {
        uuid: d.uuid,
        alias: c.alias,
        grade: c.grade,
        sg_rank: c.sg_rank,
        hosts: c.hosts,
        applications: if is_local {
            add_missing(d.applications, c.apps)
        } else {
            take_over(d.applications, c.apps)
        },
    }
}

/// The user's devices after one reported device was taken over.
pub open spec fn merge_device(devs: Seq<DeviceView>, c: CardView, local: Uuid) -> Seq<DeviceView> {
    match model::first_where(devs, find::device_is(c.uuid)) {
        Some(i) => devs.update(i, refreshed(devs[i], c, c.uuid == local)),
        None => devs.push(cards::card_device(c)),
    }
}

/// The user's devices after all reported devices were taken over.
pub open spec fn merge_devices(
    devs: Seq<DeviceView>,
    reported: Seq<CardView>,
    local: Uuid,
) -> Seq<DeviceView>
    decreases reported.len(),
{
    if reported.len() == 0 {
        devs
    } else {
        merge_device(merge_devices(devs, reported.drop_last(), local), reported.last(), local)
    }
}

/// The contacts after one reported contact was taken over.
pub open spec fn merge_contact(cs: Seq<ContactView>, c: ContactCardView) -> Seq<ContactView> {
    match model::first_where(cs, find::contact_is(c.uuid)) {
        Some(i) => cs.update(
            i,
            ContactView {
                user: UserView {
                    alias: c.alias,
                    uuid: cs[i].user.uuid,
                    devices: cards::card_devices(c.devices),
                },
                public_key: c.public_key,
                last_seen_public_version: cs[i].last_seen_public_version,
            },
        ),
        None => cs.push(
            ContactView {
                user: UserView {
                    alias: c.alias,
                    uuid: c.uuid,
                    devices: cards::card_devices(c.devices),
                },
                public_key: c.public_key,
                last_seen_public_version: SyncVersion::spec_zero(),
            },
        ),
    }
}

/// The contacts after all reported contacts were taken over.
pub open spec fn merge_contacts(cs: Seq<ContactView>, reported: Seq<ContactCardView>) -> Seq<
    ContactView,
>
    decreases reported.len(),
{
    if reported.len() == 0 {
        cs
    } else {
        merge_contact(merge_contacts(cs, reported.drop_last()), reported.last())
    }
}

/// The node after a pulled public state was taken over.
pub open spec fn pulled(n: NodeView, s: PublicStateView) -> NodeView {
    NodeView {
        owner: OwnerView {
            user: UserView {
                alias: s.user_alias,
                uuid: s.user_uuid,
                devices: merge_devices(n.owner.user.devices, s.devices, n.device_uuid),
            },
            contact_users: merge_contacts(n.owner.contact_users, s.contacts),
            ..n.owner
        },
        ..n
    }
}

/// Adds the reported applications that are not there.
fn add_missing_apps(v: &mut Vec<Application>, inc: &Vec<(Uuid, String)>)
    ensures
        model::views(final(v)@) == add_missing(
            model::views(old(v)@),
            device_wire::app_pairs(inc@),
        ),
{
    broadcast use model::group_views;

    let ghost apps = model::views(v@);
    let ghost s = device_wire::app_pairs(inc@);
    let n: usize = v.len();
    let mut i: usize = 0;
    assert(model::views(v@) =~= apps + cards::public_apps(model::keep(s.take(0), not_among(apps))));
    while i < inc.len()
        invariant
            i <= inc@.len(),
            n <= v@.len(),
            n == apps.len(),
            apps == model::views(old(v)@),
            s == device_wire::app_pairs(inc@),
            model::views(v@) == apps + cards::public_apps(
                model::keep(s.take(i as int), not_among(apps)),
            ),
        decreases inc@.len() - i,
    {
        let mut known = false;
        let mut j: usize = 0;
        while j < n
            invariant
                j <= n <= v@.len(),
                i < inc@.len(),
                n == apps.len(),
                model::views(v@) == apps + cards::public_apps(
                    model::keep(s.take(i as int), not_among(apps)),
                ),
                known == model::any_where(apps.take(j as int), find::app_is(inc@[i as int].0)),
            decreases n - j,
        {
            proof {
                model::lemma_any_step(apps, find::app_is(inc@[i as int].0), j as int);
                assert(model::views(v@)[j as int] == apps[j as int]);
            }
            if uuid_eq(&v[j].id, &inc[i].0) {
                known = true;
            }
            j += 1;
        }
        proof {
            assert(apps.take(n as int) =~= apps);
            model::lemma_keep_step(s, not_among(apps), i as int);
        }
        if !known {
            let ghost kept = model::keep(s.take(i as int), not_among(apps));
            proof {
                assert(cards::public_apps(kept.push(s[i as int])) =~= cards::public_apps(
                    kept,
                ).push(cards::public_app(s[i as int].0, s[i as int].1)));
                model::lemma_add_push(
                    apps,
                    cards::public_apps(kept),
                    cards::public_app(s[i as int].0, s[i as int].1),
                );
            }
            v.push(new_public_app(inc[i].0, inc[i].1.clone()));
        }
        i += 1;
    }
    assert(s.take(s.len() as int) =~= s);
}

/// Whether an application is among those reported.
fn is_listed(inc: &Vec<(Uuid, String)>, id: &Uuid) -> (r: bool)
    ensures
        r == model::any_where(device_wire::app_pairs(inc@), pair_is(*id)),
{
    let ghost s = device_wire::app_pairs(inc@);
    let mut i: usize = 0;
    while i < inc.len()
        invariant
            i <= inc@.len(),
            s == device_wire::app_pairs(inc@),
            forall|j: int| 0 <= j < i ==> !pair_is(*id)(#[trigger] s[j]),
        decreases inc@.len() - i,
    {
        if uuid_eq(&inc[i].0, id) {
            assert(pair_is(*id)(s[i as int]));
            return true;
        }
        i += 1;
    }
    false
}

/// Makes the applications those reported.
fn take_over_apps(v: &mut Vec<Application>, inc: &Vec<(Uuid, String)>)
    ensures
        model::views(final(v)@) == take_over(
            model::views(old(v)@),
            device_wire::app_pairs(inc@),
        ),
{
    broadcast use model::group_views;

    let ghost apps = model::views(v@);
    let ghost s = device_wire::app_pairs(inc@);
    let mut out: Vec<Application> = Vec::new();
    let mut i: usize = 0;
    assert(model::views(out@) =~= model::keep(apps.take(0), listed_in(s)));
    while i < v.len()
        invariant
            i <= v@.len(),
            apps == model::views(v@),
            s == device_wire::app_pairs(inc@),
            model::views(out@) == model::keep(apps.take(i as int), listed_in(s)),
        decreases v@.len() - i,
    {
        proof {
            model::lemma_keep_step(apps, listed_in(s), i as int);
        }
        if is_listed(inc, &v[i].id) {
            out.push(v[i].clone());
        }
        i += 1;
    }
    assert(apps.take(apps.len() as int) =~= apps);
    let ghost kept = model::views(out@);
    let mut j: usize = 0;
    assert(s.take(0) =~= Seq::empty());
    while j < inc.len()
        invariant
            j <= inc@.len(),
            s == device_wire::app_pairs(inc@),
            model::views(out@) == adopt(kept, s.take(j as int)),
        decreases inc@.len() - j,
    {
        proof {
            assert(s.take(j + 1).drop_last() =~= s.take(j as int));
            assert(s.take(j + 1).last() == s[j as int]);
        }
        match find_app(&out, &inc[j].0) {
            Some(k) => {
                out[k].alias = inc[j].1.clone();
            },
            None => {
                out.push(new_public_app(inc[j].0, inc[j].1.clone()));
            },
        }
        j += 1;
    }
    assert(s.take(s.len() as int) =~= s);
    *v = out;
}

/// Takes over one reported device.
fn merge_reported_device(devices: &mut Vec<Device>, c: &ContactDeviceCard, local: &Uuid)
    ensures
        model::views(final(devices)@) == merge_device(model::views(old(devices)@), c@, *local),
{
    broadcast use model::group_views;

    match find_device(devices, &c.uuid) {
        Some(i) => {
            let ghost d = devices@[i as int]@;
            devices[i].alias = c.alias.clone();
            devices[i].grade = c.grade;
            devices[i].sg_rank = c.sg_rank;
            devices[i].hosts = clone_strings(&c.hosts);
            if uuid_eq(&c.uuid, local) {
                add_missing_apps(&mut devices[i].applications, &c.apps);
            } else {
                take_over_apps(&mut devices[i].applications, &c.apps);
            }
            assert(model::views(devices@) =~= merge_device(
                model::views(old(devices)@),
                c@,
                *local,
            ));
        },
        None => {
            devices.push(card_to_device(c));
        },
    }
}

/// Takes over one reported contact.
fn merge_reported_contact(contacts: &mut Vec<Contact>, c: &ContactCard)
    ensures
        model::views(final(contacts)@) == merge_contact(model::views(old(contacts)@), c@),
{
    broadcast use model::group_views;

    match find_contact(contacts, &c.uuid) {
        Some(i) => {
            contacts[i].user.alias = c.alias.clone();
            contacts[i].public_key = c.public_key;
            contacts[i].user.devices = cards_to_devices(&c.devices);
            assert(model::views(contacts@) =~= merge_contact(model::views(old(contacts)@), c@));
        },
        None => {
            let user = User {
                alias: c.alias.clone(),
                uuid: c.uuid,
                devices: cards_to_devices(&c.devices),
            };
            contacts.push(
                Contact {
                    user,
                    public_key: c.public_key,
                    last_seen_public_version: SyncVersion::zero(),
                },
            );
        },
    }
}

/// Takes over a pulled public state. A malformed blob changes nothing and gives
/// `false`.
pub fn apply_public_state(node: &mut Node, state: &[u8]) -> (r: bool)
    ensures
        match parse_public_state(state@) {
            Some(s) => r && final(node)@ == pulled(old(node)@, s),
            None => !r && final(node)@ == old(node)@,
        },
        keys::keyed(old(node)@) ==> keys::keyed(final(node)@),
{
    broadcast use model::group_views;

    let s = match deserialize_public_state(state) {
        Some(s) => s,
        None => { return false; },
    };
    let local = node.device_uuid;
    let ghost devs = node@.owner.user.devices;
    let ghost reported = s@.devices;
    let mut i: usize = 0;
    assert(reported.take(0) =~= Seq::empty());
    while i < s.devices.len()
        invariant
            i <= s.devices@.len(),
            reported == s@.devices,
            devs == old(node)@.owner.user.devices,
            node@ == (NodeView {
                owner: old(node)@.owner.with_devices(
                    merge_devices(devs, reported.take(i as int), local),
                ),
                ..old(node)@
            }),
        decreases s.devices@.len() - i,
    {
        proof {
            assert(reported.take(i + 1).drop_last() =~= reported.take(i as int));
            assert(reported.take(i + 1).last() == reported[i as int]);
        }
        merge_reported_device(&mut node.owner.user.devices, &s.devices[i], &local);
        i += 1;
    }
    assert(reported.take(reported.len() as int) =~= reported);
    let ghost cs = node@.owner.contact_users;
    let ghost mid = node@;
    let ghost known = s@.contacts;
    let mut j: usize = 0;
    assert(known.take(0) =~= Seq::empty());
    while j < s.contacts.len()
        invariant
            j <= s.contacts@.len(),
            known == s@.contacts,
            cs == mid.owner.contact_users,
            node@ == (NodeView {
                owner: mid.owner.with_contacts(merge_contacts(cs, known.take(j as int))),
                ..mid
            }),
        decreases s.contacts@.len() - j,
    {
        proof {
            assert(known.take(j + 1).drop_last() =~= known.take(j as int));
            assert(known.take(j + 1).last() == known[j as int]);
        }
        merge_reported_contact(&mut node.owner.contact_users, &s.contacts[j]);
        j += 1;
    }
    assert(known.take(known.len() as int) =~= known);
    node.owner.user.alias = s.user_alias;
    node.owner.user.uuid = s.user_uuid;
    true
}

/// A list of cards that is read back as it was written.
pub open spec fn plain_card_list(s: Seq<CardView>) -> bool {
    s.len() <= 255 && forall|i: int| 0 <= i < s.len() ==> device_wire::plain_card(#[trigger] s[i])
}

/// A public state whose texts, lists and ranks fit their bytes.
pub open spec fn plain_state(s: PublicStateView) -> bool {
    &&& wire::short_text(s.user_alias)
    &&& plain_card_list(s.devices)
    &&& s.contacts.len() <= 255
    &&& forall|i: int|
        0 <= i < s.contacts.len() ==> wire::short_text((#[trigger] s.contacts[i]).alias)
            && plain_card_list(s.contacts[i].devices)
}

proof fn lemma_contact_card(d: Seq<u8>, p: int, c: ContactCardView)
    requires
        wire::stands_at(d, p, enc_contact_card(c)),
        wire::short_text(c.alias),
        plain_card_list(c.devices),
    ensures
        parse_contact_card(d, p) == Some((c, p + enc_contact_card(c).len())),
{
    let a = wire::enc_str(c.alias);
    let cs = device_wire::enc_cards(c.devices);
    wire::lemma_stands_split(d, p, a + c.uuid@ + c.public_key@, cs);
    wire::lemma_stands_split(d, p, a + c.uuid@, c.public_key@);
    wire::lemma_stands_split(d, p, a, c.uuid@);
    wire::lemma_str(d, p, c.alias);
    wire::lemma_uuid(d, p + a.len(), c.uuid);
    wire::lemma_key(d, p + a.len() + 16, c.public_key);
    device_wire::lemma_cards(d, p + a.len() + 48, c.devices);
}

/// Decoding gives back the public state that was encoded.
pub proof fn law_public_state_roundtrip(s: PublicStateView)
    requires
        plain_state(s),
    ensures
        parse_public_state(enc_public_state(s)) == Some(s),
{
    let d = enc_public_state(s);
    let a = wire::enc_str(s.user_alias);
    let ds = device_wire::enc_cards(s.devices);
    let cs = enc_contact_cards(s.contacts);
    wire::lemma_stands_whole(d);
    wire::lemma_stands_split(d, 0, a + s.user_uuid@ + ds, cs);
    wire::lemma_stands_split(d, 0, a + s.user_uuid@, ds);
    wire::lemma_stands_split(d, 0, a, s.user_uuid@);
    wire::lemma_str(d, 0, s.user_alias);
    wire::lemma_uuid(d, a.len() as int, s.user_uuid);
    device_wire::lemma_cards(d, 16int + a.len(), s.devices);
    let p3 = 16int + a.len() + ds.len();
    let n = s.contacts.len() as int;
    assert(s.contacts.take(n) =~= s.contacts);
    let e = lists::enc_all(s.contacts, contact_enc());
    wire::lemma_stands_split(d, p3, seq![n as u8], e);
    wire::lemma_byte(d, p3, n as u8);
    assert forall|i: int| 0 <= i < s.contacts.len() implies lists::reads_back(
        d,
        #[trigger] s.contacts[i],
        contact_enc()(s.contacts[i]),
        contact_parser(),
    ) by {
        assert forall|q: int| #[trigger]
            wire::stands_at(d, q, contact_enc()(s.contacts[i])) implies contact_parser()(d, q)
            == Some((s.contacts[i], q + contact_enc()(s.contacts[i]).len())) by {
            lemma_contact_card(d, q, s.contacts[i]);
        }
    }
    lists::lemma_many(d, p3 + 1, s.contacts, contact_enc(), contact_parser());
}

/// `new` begins with the applications `old`, unchanged.
pub open spec fn begins_with(new: Seq<ApplicationView>, old: Seq<ApplicationView>) -> bool {
    old.len() <= new.len() && forall|k: int| 0 <= k < old.len() ==> new[k] == #[trigger] old[k]
}

/// A pull never removes or alters an application of this device: what a user
/// registered here survives, whatever the writer reports.
pub proof fn law_pull_keeps_local_apps(
    devs: Seq<DeviceView>,
    reported: Seq<CardView>,
    local: Uuid,
    i: int,
)
    requires
        model::first_where(devs, find::device_is(local)) == Some(i),
    ensures
        model::first_where(merge_devices(devs, reported, local), find::device_is(local)) == Some(i),
        begins_with(merge_devices(devs, reported, local)[i].applications, devs[i].applications),
    decreases reported.len(),
{
    model::lemma_first_where(devs, find::device_is(local));
    if reported.len() > 0 {
        let before = merge_devices(devs, reported.drop_last(), local);
        let c = reported.last();
        law_pull_keeps_local_apps(devs, reported.drop_last(), local, i);
        model::lemma_first_where(before, find::device_is(local));
        model::lemma_first_where(before, find::device_is(c.uuid));
        let after = merge_device(before, c, local);
        assert forall|j: int| 0 <= j < i implies !find::device_is(local)(#[trigger] after[j]) by {
            assert(!find::device_is(local)(before[j]));
        }
        assert(model::is_first(after, find::device_is(local), i));
        model::lemma_first_at(after, find::device_is(local), i);
        assert forall|k: int| 0 <= k < devs[i].applications.len() implies after[i].applications[k]
            == #[trigger] devs[i].applications[k] by {
            assert(before[i].applications[k] == devs[i].applications[k]);
        }
    }
}

proof fn lemma_adopt_listed(
    apps: Seq<ApplicationView>,
    inc: Seq<(Uuid, Seq<char>)>,
    all: Seq<(Uuid, Seq<char>)>,
)
    requires
        forall|k: int| 0 <= k < apps.len() ==> listed_in(all)(#[trigger] apps[k]),
        forall|k: int| 0 <= k < inc.len() ==> all.contains(#[trigger] inc[k]),
    ensures
        forall|k: int|
            0 <= k < adopt(apps, inc).len() ==> listed_in(all)(#[trigger] adopt(apps, inc)[k]),
    decreases inc.len(),
{
    if inc.len() > 0 {
        let t = inc.drop_last();
        assert forall|k: int| 0 <= k < t.len() implies all.contains(#[trigger] t[k]) by {
            assert(t[k] == inc[k]);
        }
        lemma_adopt_listed(apps, t, all);
        let before = adopt(apps, t);
        let (id, alias) = inc.last();
        model::lemma_first_where(before, find::app_is(id));
        assert(all.contains(inc[inc.len() - 1]));
        let m = choose|m: int| 0 <= m < all.len() && all[m] == inc.last();
        assert(pair_is(id)(all[m]));
        let after = adopt(apps, inc);
        assert forall|k: int| 0 <= k < after.len() implies listed_in(all)(#[trigger] after[k]) by {
            if k < before.len() {
                assert(listed_in(all)(before[k]));
            }
        }
    }
}

/// After a pull another device has only the applications that were reported: a
/// removal reaches every node.
pub proof fn law_pull_drops_unlisted(apps: Seq<ApplicationView>, inc: Seq<(Uuid, Seq<char>)>, k: int)
    requires
        0 <= k < take_over(apps, inc).len(),
    ensures
        model::any_where(inc, pair_is(take_over(apps, inc)[k].id)),
{
    let kept = model::keep(apps, listed_in(inc));
    model::lemma_keep_again(apps, listed_in(inc));
    assert forall|j: int| 0 <= j < inc.len() implies inc.contains(#[trigger] inc[j]) by {}
    lemma_adopt_listed(kept, inc, inc);
    assert(listed_in(inc)(take_over(apps, inc)[k]));
}

/// The applications of a device after a pull of which it had some before.
pub open spec fn grown_from(
    apps: Seq<ApplicationView>,
    before: Seq<ApplicationView>,
    c: CardView,
    is_local: bool,
) -> bool {
    apps == if is_local {
        add_missing(before, c.apps)
    } else {
        take_over(before, c.apps)
    }
}

/// The applications of a device after a pull, whatever it had before.
pub open spec fn apps_after(apps: Seq<ApplicationView>, c: CardView, is_local: bool) -> bool {
    apps == cards::public_apps(c.apps) || exists|before: Seq<ApplicationView>| #[trigger]
        grown_from(apps, before, c, is_local)
}

/// An application is among some, and so is, if `named`, its name.
pub open spec fn app_there(apps: Seq<ApplicationView>, id: Uuid, alias: Seq<char>, named: bool) -> bool {
    exists|y: int|
        0 <= y < apps.len() && (#[trigger] apps[y]).id == id && (named ==> apps[y].alias == alias)
}

/// After a pull every reported application is there, under its name unless it is
/// one of this device; and a device other than this one has none that was not
/// reported.
pub proof fn law_pull_brings_apps(apps: Seq<ApplicationView>, c: CardView, is_local: bool, k: int)
    requires
        apps_after(apps, c, is_local),
        0 <= k < c.apps.len(),
        forall|j: int| k < j < c.apps.len() ==> (#[trigger] c.apps[j]).0 != c.apps[k].0,
    ensures
        app_there(apps, c.apps[k].0, c.apps[k].1, !is_local),
{
    let (id, alias) = c.apps[k];
    let p = find::app_is(id);
    if apps == cards::public_apps(c.apps) {
        assert(apps[k].id == id && apps[k].alias == alias);
    } else {
        let before = choose|before: Seq<ApplicationView>| #[trigger]
            grown_from(apps, before, c, is_local);
        if is_local {
            let more = model::keep(c.apps, not_among(before));
            if model::any_where(before, p) {
                let y = choose|y: int| 0 <= y < before.len() && p(#[trigger] before[y]);
                assert(apps[y] == before[y]);
            } else {
                assert(c.apps.contains(c.apps[k]));
                model::lemma_keep_contains(c.apps, not_among(before), c.apps[k]);
                let y = choose|y: int| 0 <= y < more.len() && more[y] == c.apps[k];
                assert(apps[before.len() + y] == cards::public_app(id, alias));
            }
        } else {
            law_pull_brings_app(before, c.apps, k);
            model::lemma_first_where(apps, p);
            let y = model::first_where(apps, p)->0;
            assert(p(apps[y]));
        }
    }
}

/// See [`law_pull_brings_apps`].
pub proof fn law_pull_brings_no_others(apps: Seq<ApplicationView>, c: CardView, y: int)
    requires
        apps_after(apps, c, false),
        0 <= y < apps.len(),
    ensures
        exists|k: int| 0 <= k < c.apps.len() && (#[trigger] c.apps[k]).0 == apps[y].id,
{
    if apps == cards::public_apps(c.apps) {
        assert(c.apps[y].0 == apps[y].id);
    } else {
        let before = choose|before: Seq<ApplicationView>| #[trigger]
            grown_from(apps, before, c, false);
        law_pull_drops_unlisted(before, c.apps, y);
        let p = pair_is(apps[y].id);
        let k = choose|k: int| 0 <= k < c.apps.len() && p(#[trigger] c.apps[k]);
        assert(c.apps[k].0 == apps[y].id);
    }
}

/// A reported contact is known after a pull, with the name, the key and the
/// devices that were reported of it last.
pub proof fn law_pull_brings_contact(cs: Seq<ContactView>, reported: Seq<ContactCardView>, k: int)
    requires
        0 <= k < reported.len(),
        forall|j: int| k < j < reported.len() ==> (#[trigger] reported[j]).uuid != reported[k].uuid,
    ensures
        ({
            let c = reported[k];
            let r = merge_contacts(cs, reported);
            match model::first_where(r, find::contact_is(c.uuid)) {
                Some(i) => {
                    &&& 0 <= i < r.len()
                    &&& r[i].user.alias == c.alias
                    &&& r[i].public_key == c.public_key
                    &&& r[i].user.devices == cards::card_devices(c.devices)
                },
                None => false,
            }
        }),
    decreases reported.len(),
{
    let c = reported[k];
    let p = find::contact_is(c.uuid);
    let before = merge_contacts(cs, reported.drop_last());
    let x = reported.last();
    let after = merge_contact(before, x);
    model::lemma_first_where(before, find::contact_is(x.uuid));
    if k == reported.len() - 1 {
        let i = match model::first_where(before, p) {
            Some(i) => i,
            None => before.len() as int,
        };
        assert(p(after[i]));
        assert forall|j: int| 0 <= j < i implies !p(#[trigger] after[j]) by {
            assert(!p(before[j]));
        }
        model::lemma_first_at(after, p, i);
    } else {
        assert(reported.drop_last()[k] == c);
        assert forall|j: int| k < j < reported.drop_last().len() implies (
        #[trigger] reported.drop_last()[j]).uuid != c.uuid by {
            assert(reported[j].uuid != c.uuid);
        }
        law_pull_brings_contact(cs, reported.drop_last(), k);
        model::lemma_first_where(before, p);
        assert(reported[reported.len() - 1].uuid != c.uuid);
        let i = model::first_where(before, p)->0;
        assert(p(before[i]));
        assert forall|j: int| 0 <= j < i implies !p(#[trigger] after[j]) by {
            assert(!p(before[j]));
        }
        assert(after[i] == before[i]);
        model::lemma_first_at(after, p, i);
    }
}

/// A reported device is known after a pull, under the name, grade, rank and hosts
/// that were reported of it last.
pub proof fn law_pull_brings_device(
    devs: Seq<DeviceView>,
    reported: Seq<CardView>,
    local: Uuid,
    k: int,
)
    requires
        0 <= k < reported.len(),
        forall|j: int| k < j < reported.len() ==> (#[trigger] reported[j]).uuid != reported[k].uuid,
    ensures
        ({
            let c = reported[k];
            let r = merge_devices(devs, reported, local);
            match model::first_where(r, find::device_is(c.uuid)) {
                Some(i) => {
                    &&& 0 <= i < r.len()
                    &&& r[i].alias == c.alias
                    &&& r[i].grade == c.grade
                    &&& r[i].sg_rank == c.sg_rank
                    &&& r[i].hosts == c.hosts
                    &&& apps_after(r[i].applications, c, c.uuid == local)
                },
                None => false,
            }
        }),
    decreases reported.len(),
{
    let c = reported[k];
    let p = find::device_is(c.uuid);
    let before = merge_devices(devs, reported.drop_last(), local);
    let x = reported.last();
    let after = merge_device(before, x, local);
    model::lemma_first_where(before, find::device_is(x.uuid));
    if k == reported.len() - 1 {
        match model::first_where(before, p) {
            Some(i) => {
                assert(after[i] == refreshed(before[i], c, c.uuid == local));
                assert(grown_from(after[i].applications, before[i].applications, c, c.uuid
                    == local));
                assert forall|j: int| 0 <= j < i implies !p(#[trigger] after[j]) by {
                    assert(!p(before[j]));
                }
                model::lemma_first_at(after, p, i);
            },
            None => {
                let i = before.len() as int;
                assert(after[i] == cards::card_device(c));
                assert forall|j: int| 0 <= j < i implies !p(#[trigger] after[j]) by {
                    assert(!p(before[j]));
                }
                model::lemma_first_at(after, p, i);
            },
        }
    } else {
        assert(reported.drop_last()[k] == c);
        assert forall|j: int| k < j < reported.drop_last().len() implies (
        #[trigger] reported.drop_last()[j]).uuid != c.uuid by {
            assert(reported[j].uuid != c.uuid);
        }
        law_pull_brings_device(devs, reported.drop_last(), local, k);
        model::lemma_first_where(before, p);
        assert(reported[reported.len() - 1].uuid != c.uuid);
        let i = model::first_where(before, p)->0;
        assert forall|j: int| 0 <= j < i implies !p(#[trigger] after[j]) by {
            assert(!p(before[j]));
        }
        assert(after[i] == before[i]);
        model::lemma_first_at(after, p, i);
    }
}

/// An application reported of another device is known after a pull, under the
/// name that was reported of it last.
pub proof fn law_pull_brings_app(apps: Seq<ApplicationView>, inc: Seq<(Uuid, Seq<char>)>, k: int)
    requires
        0 <= k < inc.len(),
        forall|j: int| k < j < inc.len() ==> (#[trigger] inc[j]).0 != inc[k].0,
    ensures
        ({
            let r = take_over(apps, inc);
            match model::first_where(r, find::app_is(inc[k].0)) {
                Some(i) => 0 <= i < r.len() && r[i].alias == inc[k].1,
                None => false,
            }
        }),
{
    lemma_adopt_brings(model::keep(apps, listed_in(inc)), inc, k);
}

proof fn lemma_adopt_brings(apps: Seq<ApplicationView>, inc: Seq<(Uuid, Seq<char>)>, k: int)
    requires
        0 <= k < inc.len(),
        forall|j: int| k < j < inc.len() ==> (#[trigger] inc[j]).0 != inc[k].0,
    ensures
        match model::first_where(adopt(apps, inc), find::app_is(inc[k].0)) {
            Some(i) => 0 <= i < adopt(apps, inc).len() && adopt(apps, inc)[i].alias == inc[k].1,
            None => false,
        },
    decreases inc.len(),
{
    let (id, alias) = inc[k];
    let p = find::app_is(id);
    let before = adopt(apps, inc.drop_last());
    let after = adopt(apps, inc);
    let (last_id, _) = inc.last();
    model::lemma_first_where(before, find::app_is(last_id));
    if k == inc.len() - 1 {
        let i = match model::first_where(before, p) {
            Some(i) => i,
            None => before.len() as int,
        };
        assert forall|j: int| 0 <= j < i implies !p(#[trigger] after[j]) by {
            assert(!p(before[j]));
        }
        model::lemma_first_at(after, p, i);
    } else {
        assert(inc.drop_last()[k] == inc[k]);
        assert forall|j: int| k < j < inc.drop_last().len() implies (
        #[trigger] inc.drop_last()[j]).0 != id by {
            assert(inc[j].0 != id);
        }
        lemma_adopt_brings(apps, inc.drop_last(), k);
        model::lemma_first_where(before, p);
        assert(inc[inc.len() - 1].0 != id);
        let i = model::first_where(before, p)->0;
        assert forall|j: int| 0 <= j < i implies !p(#[trigger] after[j]) by {
            assert(!p(before[j]));
        }
        assert(after[i] == before[i]);
        model::lemma_first_at(after, p, i);
    }
}

} // verus!
