//! What a joining device and a new contact are told, and its encoding.
use crate::device_wire;
use crate::device_wire::{push_device, read_device, CardView};
use crate::lists;
use crate::model;
use crate::types::{
    Contact, ContactView, Device, DeviceView, KeyPair, Node, OwnerView, PublicKey, SyncVersion,
    User, UserView, Uuid,
};
use crate::wire;
use crate::wire::{push_key, push_str, push_uuid, read_byte, read_key, read_str, read_uuid};
use vstd::prelude::*;

verus! {

/// The public fields of a device.
pub open spec fn enc_bare(d: DeviceView) -> Seq<u8> {
    device_wire::enc_device_fields(d.uuid, d.alias, d.grade, d.sg_rank, d.hosts)
}

pub open spec fn bare_enc() -> spec_fn(DeviceView) -> Seq<u8> {
    |d: DeviceView| enc_bare(d)
}

/// A device without applications.
pub open spec fn bare_device(c: CardView) -> DeviceView {
    DeviceView {
        uuid: c.uuid,
        alias: c.alias,
        grade: c.grade,
        sg_rank: c.sg_rank,
        hosts: c.hosts,
        applications: Seq::empty(),
    }
}

pub open spec fn parse_bare(d: Seq<u8>, p: int) -> Option<(DeviceView, int)> {
    match device_wire::parse_device(d, p) {
        Some((c, q)) => Some((bare_device(c), q)),
        None => None,
    }
}

pub open spec fn bare_parser() -> spec_fn(Seq<u8>, int) -> Option<(DeviceView, int)> {
    |d: Seq<u8>, p: int| parse_bare(d, p)
}

/// A list of devices. The count is a byte that wraps.
pub open spec fn enc_bares(s: Seq<DeviceView>) -> Seq<u8> {
    seq![(s.len() % 256) as u8] + lists::enc_all(s, bare_enc())
}

pub open spec fn parse_bares(d: Seq<u8>, p: int) -> Option<(Seq<DeviceView>, int)> {
    match wire::parse_byte(d, p) {
        Some((n, q)) => lists::parse_many(d, q, n as nat, bare_parser()),
        None => None,
    }
}

fn push_bares(buf: &mut Vec<u8>, devices: &Vec<Device>)
    ensures
        final(buf)@ == old(buf)@ + enc_bares(model::views(devices@)),
{
    broadcast use model::group_views;

    buf.push((devices.len() % 256) as u8);
    let ghost start = buf@;
    let ghost s = model::views(devices@);
    let mut i: usize = 0;
    assert(buf@ =~= start + lists::enc_all(s.take(0), bare_enc()));
    while i < devices.len()
        invariant
            i <= devices@.len(),
            s == model::views(devices@),
            buf@ == start + lists::enc_all(s.take(i as int), bare_enc()),
        decreases devices@.len() - i,
    {
        push_device(buf, &devices[i]);
        proof {
            lists::lemma_enc_step(s, bare_enc(), i as int);
        }
        i += 1;
        assert(buf@ =~= start + lists::enc_all(s.take(i as int), bare_enc()));
    }
    assert(s.take(s.len() as int) =~= s);
    assert(buf@ =~= old(buf)@ + enc_bares(s));
}

fn read_bares(data: &[u8], pos: &mut usize) -> (r: Option<Vec<Device>>)
    requires
        *old(pos) <= data@.len(),
    ensures
        *final(pos) <= data@.len(),
        match parse_bares(data@, *old(pos) as int) {
            Some((s, q)) => r matches Some(v) && model::views(v@) == s && *final(pos) == q,
            None => r is None,
        },
{
    broadcast use model::group_views;

    let n: u8 = match read_byte(data, pos) {
        Some(x) => x,
        None => { return None; },
    };
    let ghost p = *pos as int;
    let mut out: Vec<Device> = Vec::new();
    let mut i: u8 = 0;
    assert(model::views(out@) =~= Seq::empty());
    while i < n
        invariant
            i <= n,
            *pos <= data@.len(),
            wire::parse_byte(data@, *old(pos) as int) == Some((n, p)),
            lists::parse_many(data@, p, i as nat, bare_parser()) == Some(
                (model::views(out@), *pos as int),
            ),
        decreases n - i,
    {
        match read_device(data, pos) {
            Some(d) => {
                assert(d@.applications =~= Seq::empty());
                out.push(d);
                i += 1;
            },
            None => {
                proof {
                    lists::lemma_parse_stuck(data@, p, (i + 1) as nat, n as nat, bare_parser());
                }
                return None;
            },
        }
    }
    Some(out)
}

/// A device whose fields fit.
pub open spec fn plain_bare(d: DeviceView) -> bool {
    device_wire::plain_device(d.alias, d.sg_rank, d.hosts)
}

/// The devices without their applications.
pub open spec fn stripped(s: Seq<DeviceView>) -> Seq<DeviceView> {
    Seq::new(s.len(), |i: int| DeviceView { applications: Seq::empty(), ..s[i] })
}

pub open spec fn plain_bares(s: Seq<DeviceView>) -> bool {
    s.len() <= 255 && forall|i: int| 0 <= i < s.len() ==> plain_bare(#[trigger] s[i])
}

proof fn lemma_bares(d: Seq<u8>, p: int, s: Seq<DeviceView>)
    requires
        wire::stands_at(d, p, enc_bares(s)),
        plain_bares(s),
    ensures
        parse_bares(d, p) == Some((stripped(s), p + enc_bares(s).len())),
{
    let n = s.len() as u8;
    let e = lists::enc_all(s, bare_enc());
    let t = stripped(s);
    lists::lemma_enc_same(s, t, bare_enc());
    wire::lemma_stands_split(d, p, seq![n], e);
    wire::lemma_byte(d, p, n);
    assert forall|i: int| 0 <= i < t.len() implies lists::reads_back(
        d,
        #[trigger] t[i],
        bare_enc()(t[i]),
        bare_parser(),
    ) by {
        assert forall|q: int| #[trigger] wire::stands_at(d, q, bare_enc()(t[i])) implies bare_parser()(
            d,
            q,
        ) == Some((t[i], q + bare_enc()(t[i]).len())) by {
            let x = s[i];
            assert(plain_bare(x));
            device_wire::lemma_device(d, q, x.uuid, x.alias, x.grade, x.sg_rank, x.hosts);
        }
    }
    lists::lemma_many(d, p + 1, t, bare_enc(), bare_parser());
}

/// The card that users exchange: name, identity and devices.
#[derive(Debug, PartialEq, Eq)]
pub struct ContactPayload {
    pub alias: String,
    pub uuid: Uuid,
    pub public_key: PublicKey,
    pub devices: Vec<Device>,
}

#[verifier::ext_equal]
pub struct ContactPayloadView {
    pub alias: Seq<char>,
    pub uuid: Uuid,
    pub public_key: PublicKey,
    pub devices: Seq<DeviceView>,
}

impl View for ContactPayload {
    type V = ContactPayloadView;

    open spec fn view(&self) -> ContactPayloadView {
        ContactPayloadView {
            alias: self.alias@,
            uuid: self.uuid,
            public_key: self.public_key,
            devices: model::views(self.devices@),
        }
    }
}

/// The user's own card.
pub open spec fn own_card(o: OwnerView) -> ContactPayloadView {
    ContactPayloadView {
        alias: o.user.alias,
        uuid: o.user.uuid,
        public_key: o.key_pair.public_key,
        devices: o.user.devices,
    }
}

pub open spec fn enc_contact_payload(c: ContactPayloadView) -> Seq<u8> {
    wire::enc_str(c.alias) + (c.uuid@ + (c.public_key@ + enc_bares(c.devices)))
}

pub open spec fn parse_contact_payload(d: Seq<u8>) -> Option<ContactPayloadView> {
    match wire::parse_str(d, 0) {
        Some((alias, p)) => match wire::parse_uuid(d, p) {
            Some((uuid, q)) => match wire::parse_key(d, q) {
                Some((public_key, r)) => match parse_bares(d, r) {
                    Some((devices, _)) => Some(
                        ContactPayloadView { alias, uuid, public_key, devices },
                    ),
                    None => None,
                },
                None => None,
            },
            None => None,
        },
        None => None,
    }
}

/// Encodes the user's own card.
pub fn serialize_contact_payload(node: &Node) -> (r: Vec<u8>)
    ensures
        r@ == enc_contact_payload(own_card(node@.owner)),
{
    let mut buf: Vec<u8> = Vec::new();
    push_str(&mut buf, node.owner.user.alias.as_str());
    push_uuid(&mut buf, &node.owner.user.uuid);
    push_key(&mut buf, &node.owner.key_pair.public_key);
    push_bares(&mut buf, &node.owner.user.devices);
    assert(buf@ =~= enc_contact_payload(own_card(node@.owner)));
    buf
}

/// Decodes a card; `None` if it is truncated.
pub fn deserialize_contact_payload(data: &[u8]) -> (r: Option<ContactPayload>)
    ensures
        match parse_contact_payload(data@) {
            Some(c) => r matches Some(x) && x@ == c,
            None => r is None,
        },
{
    let mut pos: usize = 0;
    let alias = match read_str(data, &mut pos) {
        Some(s) => s,
        None => { return None; },
    };
    let uuid = match read_uuid(data, &mut pos) {
        Some(u) => u,
        None => { return None; },
    };
    let public_key = match read_key(data, &mut pos) {
        Some(k) => k,
        None => { return None; },
    };
    let devices = match read_bares(data, &mut pos) {
        Some(v) => v,
        None => { return None; },
    };
    Some(ContactPayload { alias, uuid, public_key, devices })
}

/// A card whose text and lists fit is read as it was written, but for the
/// applications of its devices, which it does not hold.
pub proof fn law_contact_payload_roundtrip(c: ContactPayloadView)
    requires
        wire::short_text(c.alias),
        plain_bares(c.devices),
    ensures
        parse_contact_payload(enc_contact_payload(c)) == Some(
            (ContactPayloadView { devices: stripped(c.devices), ..c }),
        ),
{
    let d = enc_contact_payload(c);
    let a = wire::enc_str(c.alias);
    let b = enc_bares(c.devices);
    wire::lemma_stands_whole(d);
    wire::lemma_stands_split(d, 0, a, c.uuid@ + (c.public_key@ + b));
    wire::lemma_str(d, 0, c.alias);
    wire::lemma_stands_split(d, a.len() as int, c.uuid@, c.public_key@ + b);
    wire::lemma_uuid(d, a.len() as int, c.uuid);
    wire::lemma_stands_split(d, a.len() + 16int, c.public_key@, b);
    wire::lemma_key(d, a.len() + 16int, c.public_key);
    lemma_bares(d, a.len() + 48int, c.devices);
}

/// Everything a joining device is told of its user.
#[derive(Debug, PartialEq, Eq)]
pub struct BootstrapPayload {
    pub user_alias: String,
    pub user_uuid: Uuid,
    pub key_pair: KeyPair,
    pub devices: Vec<Device>,
    pub contacts: Vec<Contact>,
}

#[verifier::ext_equal]
pub struct BootstrapPayloadView {
    pub user_alias: Seq<char>,
    pub user_uuid: Uuid,
    pub key_pair: KeyPair,
    pub devices: Seq<DeviceView>,
    pub contacts: Seq<ContactView>,
}

impl View for BootstrapPayload {
    type V = BootstrapPayloadView;

    open spec fn view(&self) -> BootstrapPayloadView {
        BootstrapPayloadView {
            user_alias: self.user_alias@,
            user_uuid: self.user_uuid,
            key_pair: self.key_pair,
            devices: model::views(self.devices@),
            contacts: model::views(self.contacts@),
        }
    }
}

/// What this node tells a joining device.
pub open spec fn own_payload(o: OwnerView) -> BootstrapPayloadView {
    BootstrapPayloadView {
        user_alias: o.user.alias,
        user_uuid: o.user.uuid,
        key_pair: o.key_pair,
        devices: o.user.devices,
        contacts: o.contact_users,
    }
}

pub open spec fn enc_bare_contact(c: ContactView) -> Seq<u8> {
    c.user.uuid@ + (wire::enc_str(c.user.alias) + (c.public_key@ + enc_bares(c.user.devices)))
}

pub open spec fn bare_contact_enc() -> spec_fn(ContactView) -> Seq<u8> {
    |c: ContactView| enc_bare_contact(c)
}

pub open spec fn parse_bare_contact(d: Seq<u8>, p: int) -> Option<(ContactView, int)> {
    match wire::parse_uuid(d, p) {
        Some((uuid, q)) => match wire::parse_str(d, q) {
            Some((alias, r)) => match wire::parse_key(d, r) {
                Some((public_key, s)) => match parse_bares(d, s) {
                    Some((devices, t)) => Some(
                        (
                            ContactView {
                                user: UserView { alias, uuid, devices },
                                public_key,
                                last_seen_public_version: SyncVersion::spec_zero(),
                            },
                            t,
                        ),
                    ),
                    None => None,
                },
                None => None,
            },
            None => None,
        },
        None => None,
    }
}

pub open spec fn bare_contact_parser() -> spec_fn(Seq<u8>, int) -> Option<(ContactView, int)> {
    |d: Seq<u8>, p: int| parse_bare_contact(d, p)
}

/// A list of contacts. The count is a byte that wraps.
pub open spec fn enc_bare_contacts(s: Seq<ContactView>) -> Seq<u8> {
    seq![(s.len() % 256) as u8] + lists::enc_all(s, bare_contact_enc())
}

pub open spec fn parse_bare_contacts(d: Seq<u8>, p: int) -> Option<(Seq<ContactView>, int)> {
    match wire::parse_byte(d, p) {
        Some((n, q)) => lists::parse_many(d, q, n as nat, bare_contact_parser()),
        None => None,
    }
}

pub open spec fn enc_bootstrap(b: BootstrapPayloadView) -> Seq<u8> {
    wire::enc_str(b.user_alias) + (b.user_uuid@ + (b.key_pair.public_key@ + (
    b.key_pair.private_key@ + (enc_bares(b.devices) + enc_bare_contacts(b.contacts)))))
}

pub open spec fn parse_bootstrap(d: Seq<u8>) -> Option<BootstrapPayloadView> {
    match wire::parse_str(d, 0) {
        Some((user_alias, p)) => match wire::parse_uuid(d, p) {
            Some((user_uuid, q)) => match wire::parse_key(d, q) {
                Some((public_key, r)) => match wire::parse_key(d, r) {
                    Some((private_key, s)) => match parse_bares(d, s) {
                        Some((devices, t)) => match parse_bare_contacts(d, t) {
                            Some((contacts, _)) => Some(
                                BootstrapPayloadView {
                                    user_alias,
                                    user_uuid,
                                    key_pair: KeyPair { public_key, private_key },
                                    devices,
                                    contacts,
                                },
                            ),
                            None => None,
                        },
                        None => None,
                    },
                    None => None,
                },
                None => None,
            },
            None => None,
        },
        None => None,
    }
}

/// Encodes what this node tells a joining device.
pub fn serialize_bootstrap_payload(node: &Node) -> (r: Vec<u8>)
    ensures
        r@ == enc_bootstrap(own_payload(node@.owner)),
{
    broadcast use model::group_views;

    let mut buf: Vec<u8> = Vec::new();
    push_str(&mut buf, node.owner.user.alias.as_str());
    push_uuid(&mut buf, &node.owner.user.uuid);
    push_key(&mut buf, &node.owner.key_pair.public_key);
    push_key(&mut buf, &node.owner.key_pair.private_key);
    push_bares(&mut buf, &node.owner.user.devices);
    let contacts = &node.owner.contact_users;
    buf.push((contacts.len() % 256) as u8);
    let ghost start = buf@;
    let ghost s = node@.owner.contact_users;
    let mut i: usize = 0;
    assert(buf@ =~= start + lists::enc_all(s.take(0), bare_contact_enc()));
    while i < contacts.len()
        invariant
            i <= contacts@.len(),
            s == model::views(contacts@),
            buf@ == start + lists::enc_all(s.take(i as int), bare_contact_enc()),
        decreases contacts@.len() - i,
    {
        let c = &contacts[i];
        push_uuid(&mut buf, &c.user.uuid);
        push_str(&mut buf, c.user.alias.as_str());
        push_key(&mut buf, &c.public_key);
        push_bares(&mut buf, &c.user.devices);
        proof {
            lists::lemma_enc_step(s, bare_contact_enc(), i as int);
        }
        i += 1;
        assert(buf@ =~= start + lists::enc_all(s.take(i as int), bare_contact_enc()));
    }
    assert(s.take(s.len() as int) =~= s);
    assert(buf@ =~= enc_bootstrap(own_payload(node@.owner)));
    buf
}

fn read_bare_contact(data: &[u8], pos: &mut usize) -> (r: Option<Contact>)
    requires
        *old(pos) <= data@.len(),
    ensures
        *final(pos) <= data@.len(),
        match parse_bare_contact(data@, *old(pos) as int) {
            Some((c, q)) => r matches Some(x) && x@ == c && *final(pos) == q,
            None => r is None,
        },
{
    let uuid = match read_uuid(data, pos) {
        Some(u) => u,
        None => { return None; },
    };
    let alias = match read_str(data, pos) {
        Some(s) => s,
        None => { return None; },
    };
    let public_key = match read_key(data, pos) {
        Some(k) => k,
        None => { return None; },
    };
    let devices = match read_bares(data, pos) {
        Some(v) => v,
        None => { return None; },
    };
    Some(
        Contact {
            user: User { alias, uuid, devices },
            public_key,
            last_seen_public_version: SyncVersion::zero(),
        },
    )
}

fn read_bare_contacts(data: &[u8], pos: &mut usize) -> (r: Option<Vec<Contact>>)
    requires
        *old(pos) <= data@.len(),
    ensures
        *final(pos) <= data@.len(),
        match parse_bare_contacts(data@, *old(pos) as int) {
            Some((s, q)) => r matches Some(v) && model::views(v@) == s && *final(pos) == q,
            None => r is None,
        },
{
    broadcast use model::group_views;

    let n: u8 = match read_byte(data, pos) {
        Some(x) => x,
        None => { return None; },
    };
    let ghost p = *pos as int;
    let mut out: Vec<Contact> = Vec::new();
    let mut i: u8 = 0;
    assert(model::views(out@) =~= Seq::empty());
    while i < n
        invariant
            i <= n,
            *pos <= data@.len(),
            wire::parse_byte(data@, *old(pos) as int) == Some((n, p)),
            lists::parse_many(data@, p, i as nat, bare_contact_parser()) == Some(
                (model::views(out@), *pos as int),
            ),
        decreases n - i,
    {
        match read_bare_contact(data, pos) {
            Some(c) => {
                out.push(c);
                i += 1;
            },
            None => {
                proof {
                    lists::lemma_parse_stuck(
                        data@,
                        p,
                        (i + 1) as nat,
                        n as nat,
                        bare_contact_parser(),
                    );
                }
                return None;
            },
        }
    }
    Some(out)
}

/// Decodes what a joining device is told; `None` if it is truncated.
pub fn deserialize_bootstrap_payload(data: &[u8]) -> (r: Option<BootstrapPayload>)
    ensures
        match parse_bootstrap(data@) {
            Some(b) => r matches Some(x) && x@ == b,
            None => r is None,
        },
{
    let mut pos: usize = 0;
    let user_alias = match read_str(data, &mut pos) {
        Some(s) => s,
        None => { return None; },
    };
    let user_uuid = match read_uuid(data, &mut pos) {
        Some(u) => u,
        None => { return None; },
    };
    let public_key = match read_key(data, &mut pos) {
        Some(k) => k,
        None => { return None; },
    };
    let private_key = match read_key(data, &mut pos) {
        Some(k) => k,
        None => { return None; },
    };
    let devices = match read_bares(data, &mut pos) {
        Some(v) => v,
        None => { return None; },
    };
    let contacts = match read_bare_contacts(data, &mut pos) {
        Some(v) => v,
        None => { return None; },
    };
    Some(
        BootstrapPayload {
            user_alias,
            user_uuid,
            key_pair: KeyPair { public_key, private_key },
            devices,
            contacts,
        },
    )
}

/// A contact whose text and lists fit.
pub open spec fn plain_bare_contact(c: ContactView) -> bool {
    &&& wire::short_text(c.user.alias)
    &&& plain_bares(c.user.devices)
}

/// The contact without applications and without what was pulled from it.
pub open spec fn stripped_contact(c: ContactView) -> ContactView {
    ContactView {
        user: UserView { devices: stripped(c.user.devices), ..c.user },
        public_key: c.public_key,
        last_seen_public_version: SyncVersion::spec_zero(),
    }
}

pub open spec fn stripped_contacts(s: Seq<ContactView>) -> Seq<ContactView> {
    Seq::new(s.len(), |i: int| stripped_contact(s[i]))
}

/// What of a payload goes over the wire.
pub open spec fn told(b: BootstrapPayloadView) -> BootstrapPayloadView {
    BootstrapPayloadView {
        devices: stripped(b.devices),
        contacts: stripped_contacts(b.contacts),
        ..b
    }
}

proof fn lemma_stripped_enc(s: Seq<DeviceView>)
    ensures
        enc_bares(stripped(s)) == enc_bares(s),
{
    lists::lemma_enc_same(s, stripped(s), bare_enc());
}

proof fn lemma_bare_contact(d: Seq<u8>, p: int, c: ContactView)
    requires
        wire::stands_at(d, p, enc_bare_contact(c)),
        plain_bare_contact(c),
    ensures
        parse_bare_contact(d, p) == Some((stripped_contact(c), p + enc_bare_contact(c).len())),
{
    let a = wire::enc_str(c.user.alias);
    let b = enc_bares(c.user.devices);
    wire::lemma_stands_split(d, p, c.user.uuid@, a + (c.public_key@ + b));
    wire::lemma_uuid(d, p, c.user.uuid);
    wire::lemma_stands_split(d, p + 16, a, c.public_key@ + b);
    wire::lemma_str(d, p + 16, c.user.alias);
    wire::lemma_stands_split(d, p + 16 + a.len(), c.public_key@, b);
    wire::lemma_key(d, p + 16 + a.len(), c.public_key);
    lemma_bares(d, p + 48 + a.len(), c.user.devices);
}

/// What a joining device is told is read as it was written, if text and lists
/// fit.
pub proof fn law_bootstrap_roundtrip(b: BootstrapPayloadView)
    requires
        wire::short_text(b.user_alias),
        plain_bares(b.devices),
        b.contacts.len() <= 255,
        forall|i: int| 0 <= i < b.contacts.len() ==> plain_bare_contact(#[trigger] b.contacts[i]),
    ensures
        parse_bootstrap(enc_bootstrap(b)) == Some(told(b)),
{
    let d = enc_bootstrap(b);
    let a = wire::enc_str(b.user_alias);
    let pk = b.key_pair.public_key@;
    let sk = b.key_pair.private_key@;
    let v = enc_bares(b.devices);
    let c = enc_bare_contacts(b.contacts);
    let n = a.len() as int;
    wire::lemma_stands_whole(d);
    wire::lemma_stands_split(d, 0, a, b.user_uuid@ + (pk + (sk + (v + c))));
    wire::lemma_str(d, 0, b.user_alias);
    wire::lemma_stands_split(d, n, b.user_uuid@, pk + (sk + (v + c)));
    wire::lemma_uuid(d, n, b.user_uuid);
    wire::lemma_stands_split(d, n + 16, pk, sk + (v + c));
    wire::lemma_key(d, n + 16, b.key_pair.public_key);
    wire::lemma_stands_split(d, n + 48, sk, v + c);
    wire::lemma_key(d, n + 48, b.key_pair.private_key);
    wire::lemma_stands_split(d, n + 80, v, c);
    lemma_bares(d, n + 80, b.devices);
    let q = n + 80 + v.len();
    let k = b.contacts.len() as u8;
    wire::lemma_stands_split(d, q, seq![k], lists::enc_all(b.contacts, bare_contact_enc()));
    wire::lemma_byte(d, q, k);
    let t = stripped_contacts(b.contacts);
    assert forall|i: int| 0 <= i < b.contacts.len() implies bare_contact_enc()(
        #[trigger] b.contacts[i],
    ) == bare_contact_enc()(t[i]) by {
        lemma_stripped_enc(b.contacts[i].user.devices);
    }
    lists::lemma_enc_same(b.contacts, t, bare_contact_enc());
    assert forall|i: int| 0 <= i < t.len() implies lists::reads_back(
        d,
        #[trigger] t[i],
        bare_contact_enc()(t[i]),
        bare_contact_parser(),
    ) by {
        assert(bare_contact_enc()(b.contacts[i]) == bare_contact_enc()(t[i]));
        assert forall|p: int| #[trigger] wire::stands_at(
            d,
            p,
            bare_contact_enc()(t[i]),
        ) implies bare_contact_parser()(d, p) == Some(
            (t[i], p + bare_contact_enc()(t[i]).len()),
        ) by {
            lemma_bare_contact(d, p, b.contacts[i]);
        }
    }
    lists::lemma_many(d, q + 1, t, bare_contact_enc(), bare_contact_parser());
}

} // verus!
