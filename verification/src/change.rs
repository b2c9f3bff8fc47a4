//! Changes: the units in which replicated state moves, and their encoding.
use crate::device_wire;
use crate::device_wire::{
    clone_cards, push_cards, push_device_fields, read_cards, read_device, ContactDeviceCard, CardView,
};
use crate::model;
use crate::types::{clone_strings, DeviceGrade, PublicKey, Scope, Uuid};
use crate::wire;
use crate::wire::{push_key, push_str, push_uuid, read_byte, read_key, read_str, read_uuid};
use crate::wire::{
    CHANGE_KIND_ADD_APPLICATION, CHANGE_KIND_ADD_DEVICE, CHANGE_KIND_REMOVE_APPLICATION,
    CHANGE_KIND_UPDATE_APPLICATION_ALIAS, CHANGE_KIND_UPSERT_CONTACT,
};
use vstd::prelude::*;

verus! {

/// State mutations that flow through the writer.
#[derive(Debug, PartialEq, Eq)]
pub enum Change {
    /// Add an application to one of the user's devices.
    AddApplication { device_uuid: Uuid, app_id: Uuid, app_alias: String },
    /// Remove an application from one of the user's devices.
    RemoveApplication { device_uuid: Uuid, app_id: Uuid },
    /// Add a device, without applications, to the user's devices.
    AddDevice {
        uuid: Uuid,
        alias: String,
        grade: DeviceGrade,
        sg_rank: Option<u32>,
        hosts: Vec<String>,
    },
    /// Rename an application.
    UpdateApplicationAlias { device_uuid: Uuid, app_id: Uuid, new_alias: String },
    /// Insert a contact, or replace what is known of it.
    UpsertContact {
        uuid: Uuid,
        alias: String,
        public_key: PublicKey,
        devices: Vec<ContactDeviceCard>,
    },
}

pub enum ChangeView {
    AddApplication { device_uuid: Uuid, app_id: Uuid, app_alias: Seq<char> },
    RemoveApplication { device_uuid: Uuid, app_id: Uuid },
    AddDevice {
        uuid: Uuid,
        alias: Seq<char>,
        grade: DeviceGrade,
        sg_rank: Option<u32>,
        hosts: Seq<Seq<char>>,
    },
    UpdateApplicationAlias { device_uuid: Uuid, app_id: Uuid, new_alias: Seq<char> },
    UpsertContact {
        uuid: Uuid,
        alias: Seq<char>,
        public_key: PublicKey,
        devices: Seq<CardView>,
    },
}

impl View for Change {
    type V = ChangeView;

    open spec fn view(&self) -> ChangeView {
        match *self {
            Change::AddApplication { device_uuid, app_id, app_alias } =>
                ChangeView::AddApplication { device_uuid, app_id, app_alias: app_alias@ },
            Change::RemoveApplication { device_uuid, app_id } =>
                ChangeView::RemoveApplication { device_uuid, app_id },
            Change::AddDevice { uuid, alias, grade, sg_rank, hosts } =>
                ChangeView::AddDevice {
                    uuid, alias: alias@, grade, sg_rank, hosts: model::views(hosts@),
                },
            Change::UpdateApplicationAlias { device_uuid, app_id, new_alias } =>
                ChangeView::UpdateApplicationAlias { device_uuid, app_id, new_alias: new_alias@ },
            Change::UpsertContact { uuid, alias, public_key, devices } =>
                ChangeView::UpsertContact {
                    uuid, alias: alias@, public_key, devices: model::views(devices@),
                },
        }
    }
}

impl Clone for Change {
    fn clone(&self) -> (r: Self)
        ensures
            r@ == self@,
    {
        match self {
            Change::AddApplication { device_uuid, app_id, app_alias } => Change::AddApplication {
                device_uuid: *device_uuid,
                app_id: *app_id,
                app_alias: app_alias.clone(),
            },
            Change::RemoveApplication { device_uuid, app_id } => Change::RemoveApplication {
                device_uuid: *device_uuid,
                app_id: *app_id,
            },
            Change::AddDevice { uuid, alias, grade, sg_rank, hosts } => Change::AddDevice {
                uuid: *uuid,
                alias: alias.clone(),
                grade: *grade,
                sg_rank: *sg_rank,
                hosts: clone_strings(hosts),
            },
            Change::UpdateApplicationAlias { device_uuid, app_id, new_alias } =>
                Change::UpdateApplicationAlias {
                    device_uuid: *device_uuid,
                    app_id: *app_id,
                    new_alias: new_alias.clone(),
                },
            Change::UpsertContact { uuid, alias, public_key, devices } => Change::UpsertContact {
                uuid: *uuid,
                alias: alias.clone(),
                public_key: *public_key,
                devices: clone_cards(devices),
            },
        }
    }
}

/// The scopes that a change moves, in order: each moves the public one.
pub open spec fn scopes_of(c: ChangeView) -> Seq<Scope> {
    seq![Scope::Public]
}

/// The scopes that a change moves.
pub fn change_scopes(c: &Change) -> (r: Vec<Scope>)
    ensures
        r@ == scopes_of(c@),
{
    let mut out: Vec<Scope> = Vec::new();
    match c {
        Change::AddApplication { .. } => out.push(Scope::Public),
        Change::RemoveApplication { .. } => out.push(Scope::Public),
        Change::AddDevice { .. } => out.push(Scope::Public),
        Change::UpdateApplicationAlias { .. } => out.push(Scope::Public),
        Change::UpsertContact { .. } => out.push(Scope::Public),
    }
    assert(out@ =~= seq![Scope::Public]);
    out
}

/// The encoding of a change: a kind byte, then its fields.
pub open spec fn enc_change(c: ChangeView) -> Seq<u8> {
    match c {
        ChangeView::AddApplication { device_uuid, app_id, app_alias } => seq![
            CHANGE_KIND_ADD_APPLICATION,
        ] + device_uuid@ + app_id@ + wire::enc_str(app_alias),
        ChangeView::RemoveApplication { device_uuid, app_id } => seq![
            CHANGE_KIND_REMOVE_APPLICATION,
        ] + device_uuid@ + app_id@,
        ChangeView::AddDevice { uuid, alias, grade, sg_rank, hosts } => seq![
            CHANGE_KIND_ADD_DEVICE,
        ] + device_wire::enc_device_fields(uuid, alias, grade, sg_rank, hosts),
        ChangeView::UpdateApplicationAlias { device_uuid, app_id, new_alias } => seq![
            CHANGE_KIND_UPDATE_APPLICATION_ALIAS,
        ] + device_uuid@ + app_id@ + wire::enc_str(new_alias),
        ChangeView::UpsertContact { uuid, alias, public_key, devices } => seq![
            CHANGE_KIND_UPSERT_CONTACT,
        ] + uuid@ + wire::enc_str(alias) + public_key@ + device_wire::enc_cards(devices),
    }
}

/// Two identifiers, one after the other.
pub open spec fn parse_pair(d: Seq<u8>, p: int) -> Option<((Uuid, Uuid), int)> {
    match wire::parse_uuid(d, p) {
        Some((a, q)) => match wire::parse_uuid(d, q) {
            Some((b, r)) => Some(((a, b), r)),
            None => None,
        },
        None => None,
    }
}

/// The change at the beginning of a payload, and where it ends.
pub open spec fn parse_change_to(d: Seq<u8>) -> Option<(ChangeView, int)> {
    if d.len() == 0 {
        None
    } else if d[0] == CHANGE_KIND_ADD_APPLICATION {
        match parse_pair(d, 1) {
            Some(((device_uuid, app_id), p)) => match wire::parse_str(d, p) {
                Some((app_alias, q)) => Some(
                    (ChangeView::AddApplication { device_uuid, app_id, app_alias }, q),
                ),
                None => None,
            },
            None => None,
        }
    } else if d[0] == CHANGE_KIND_REMOVE_APPLICATION {
        match parse_pair(d, 1) {
            Some(((device_uuid, app_id), p)) => Some(
                (ChangeView::RemoveApplication { device_uuid, app_id }, p),
            ),
            None => None,
        }
    } else if d[0] == CHANGE_KIND_ADD_DEVICE {
        match device_wire::parse_device(d, 1) {
            Some((c, p)) => Some(
                (
                    ChangeView::AddDevice {
                        uuid: c.uuid,
                        alias: c.alias,
                        grade: c.grade,
                        sg_rank: c.sg_rank,
                        hosts: c.hosts,
                    },
                    p,
                ),
            ),
            None => None,
        }
    } else if d[0] == CHANGE_KIND_UPDATE_APPLICATION_ALIAS {
        match parse_pair(d, 1) {
            Some(((device_uuid, app_id), p)) => match wire::parse_str(d, p) {
                Some((new_alias, q)) => Some(
                    (ChangeView::UpdateApplicationAlias { device_uuid, app_id, new_alias }, q),
                ),
                None => None,
            },
            None => None,
        }
    } else if d[0] == CHANGE_KIND_UPSERT_CONTACT {
        match wire::parse_uuid(d, 1) {
            Some((uuid, p1)) => match wire::parse_str(d, p1) {
                Some((alias, p2)) => match wire::parse_key(d, p2) {
                    Some((public_key, p3)) => match device_wire::parse_cards(d, p3) {
                        Some((devices, p4)) => Some(
                            (ChangeView::UpsertContact { uuid, alias, public_key, devices }, p4),
                        ),
                        None => None,
                    },
                    None => None,
                },
                None => None,
            },
            None => None,
        }
    } else {
        None
    }
}

/// The change that a payload encodes. Bytes behind it are passed over.
pub open spec fn parse_change(d: Seq<u8>) -> Option<ChangeView> {
    match parse_change_to(d) {
        Some((c, _)) => Some(c),
        None => None,
    }
}

/// Encodes a change.
pub fn serialize_change(c: &Change) -> (r: Vec<u8>)
    ensures
        r@ == enc_change(c@),
{
    let mut buf: Vec<u8> = Vec::new();
    match c {
        Change::AddApplication { device_uuid, app_id, app_alias } => {
            buf.push(CHANGE_KIND_ADD_APPLICATION);
            push_uuid(&mut buf, device_uuid);
            push_uuid(&mut buf, app_id);
            push_str(&mut buf, app_alias.as_str());
        },
        Change::RemoveApplication { device_uuid, app_id } => {
            buf.push(CHANGE_KIND_REMOVE_APPLICATION);
            push_uuid(&mut buf, device_uuid);
            push_uuid(&mut buf, app_id);
        },
        Change::AddDevice { uuid, alias, grade, sg_rank, hosts } => {
            buf.push(CHANGE_KIND_ADD_DEVICE);
            push_device_fields(&mut buf, uuid, alias.as_str(), *grade, *sg_rank, hosts);
        },
        Change::UpdateApplicationAlias { device_uuid, app_id, new_alias } => {
            buf.push(CHANGE_KIND_UPDATE_APPLICATION_ALIAS);
            push_uuid(&mut buf, device_uuid);
            push_uuid(&mut buf, app_id);
            push_str(&mut buf, new_alias.as_str());
        },
        Change::UpsertContact { uuid, alias, public_key, devices } => {
            buf.push(CHANGE_KIND_UPSERT_CONTACT);
            push_uuid(&mut buf, uuid);
            push_str(&mut buf, alias.as_str());
            push_key(&mut buf, public_key);
            push_cards(&mut buf, devices);
        },
    }
    assert(buf@ =~= enc_change(c@));
    buf
}

fn read_pair(data: &[u8], pos: &mut usize) -> (r: Option<(Uuid, Uuid)>)
    requires
        *old(pos) <= data@.len(),
    ensures
        *final(pos) <= data@.len(),
        match parse_pair(data@, *old(pos) as int) {
            Some((x, q)) => r == Some(x) && *final(pos) == q,
            None => r is None,
        },
{
    let a: Uuid = match read_uuid(data, pos) {
        Some(u) => u,
        None => { return None; },
    };
    match read_uuid(data, pos) {
        Some(b) => Some((a, b)),
        None => None,
    }
}

/// Decodes a change; `None` for an unknown kind or a truncated payload.
pub fn deserialize_change(data: &[u8]) -> (r: Option<Change>)
    ensures
        match parse_change(data@) {
            Some(c) => r is Some && r->0@ == c,
            None => r is None,
        },
{
    let mut pos: usize = 0;
    let kind: u8 = match read_byte(data, &mut pos) {
        Some(b) => b,
        None => { return None; },
    };
    if kind == CHANGE_KIND_ADD_APPLICATION {
        let (device_uuid, app_id) = match read_pair(data, &mut pos) {
            Some(x) => x,
            None => { return None; },
        };
        match read_str(data, &mut pos) {
            Some(app_alias) => Some(Change::AddApplication { device_uuid, app_id, app_alias }),
            None => None,
        }
    } else if kind == CHANGE_KIND_REMOVE_APPLICATION {
        match read_pair(data, &mut pos) {
            Some((device_uuid, app_id)) => Some(Change::RemoveApplication { device_uuid, app_id }),
            None => None,
        }
    } else if kind == CHANGE_KIND_ADD_DEVICE {
        match read_device(data, &mut pos) {
            Some(d) => Some(
                Change::AddDevice {
                    uuid: d.uuid,
                    alias: d.alias,
                    grade: d.grade,
                    sg_rank: d.sg_rank,
                    hosts: d.hosts,
                },
            ),
            None => None,
        }
    } else if kind == CHANGE_KIND_UPDATE_APPLICATION_ALIAS {
        let (device_uuid, app_id) = match read_pair(data, &mut pos) {
            Some(x) => x,
            None => { return None; },
        };
        match read_str(data, &mut pos) {
            Some(new_alias) => Some(
                Change::UpdateApplicationAlias { device_uuid, app_id, new_alias },
            ),
            None => None,
        }
    } else if kind == CHANGE_KIND_UPSERT_CONTACT {
        let uuid: Uuid = match read_uuid(data, &mut pos) {
            Some(u) => u,
            None => { return None; },
        };
        let alias = match read_str(data, &mut pos) {
            Some(s) => s,
            None => { return None; },
        };
        let public_key: PublicKey = match read_key(data, &mut pos) {
            Some(k) => k,
            None => { return None; },
        };
        match read_cards(data, &mut pos) {
            Some(devices) => Some(Change::UpsertContact { uuid, alias, public_key, devices }),
            None => None,
        }
    } else {
        None
    }
}

/// A change whose texts, lists and ranks fit their bytes.
pub open spec fn plain_change(c: ChangeView) -> bool {
    match c {
        ChangeView::AddApplication { app_alias, .. } => wire::short_text(app_alias),
        ChangeView::RemoveApplication { .. } => true,
        ChangeView::AddDevice { alias, sg_rank, hosts, .. } => device_wire::plain_device(
            alias,
            sg_rank,
            hosts,
        ),
        ChangeView::UpdateApplicationAlias { new_alias, .. } => wire::short_text(new_alias),
        ChangeView::UpsertContact { alias, devices, .. } => {
            &&& wire::short_text(alias)
            &&& devices.len() <= 255
            &&& forall|i: int|
                0 <= i < devices.len() ==> device_wire::plain_card(#[trigger] devices[i])
        },
    }
}

proof fn lemma_pair(d: Seq<u8>, p: int, a: Uuid, b: Uuid)
    requires
        wire::stands_at(d, p, a@ + b@),
    ensures
        parse_pair(d, p) == Some(((a, b), p + 32)),
{
    wire::lemma_stands_split(d, p, a@, b@);
    wire::lemma_uuid(d, p, a);
    wire::lemma_uuid(d, p + 16, b);
}

/// Decoding gives back the change that was encoded.
pub proof fn law_change_roundtrip(c: ChangeView)
    requires
        plain_change(c),
    ensures
        parse_change(enc_change(c)) == Some(c),
{
    lemma_change(c);
}

/// A change that was cut short is refused, wherever it was cut.
pub proof fn law_cut_change_is_refused(c: ChangeView, n: int)
    requires
        plain_change(c),
        0 <= n < enc_change(c).len(),
    ensures
        parse_change(enc_change(c).take(n)) is None,
{
    lemma_change(c);
    lemma_change_steady(enc_change(c), n);
}

/// A change that is read of the first `n` bytes lies within them, and is read of
/// all of them too.
proof fn lemma_change_steady(d: Seq<u8>, n: int)
    requires
        0 <= n <= d.len(),
    ensures
        parse_change_to(d.take(n)) matches Some((c, q)) ==> q <= n && parse_change_to(d) == Some(
            (c, q),
        ),
{
    let t = d.take(n);
    if n > 0 {
        assert(t[0] == d[0]);
        wire::lemma_uuid_steady(d, n, 1);
        wire::lemma_uuid_steady(d, n, 17);
        wire::lemma_str_steady(d, n, 33);
        device_wire::lemma_device_steady(d, n, 1);
        if let Some((_, p1)) = wire::parse_uuid(t, 1) {
            wire::lemma_str_steady(d, n, p1);
            if let Some((_, p2)) = wire::parse_str(t, p1) {
                wire::lemma_key_steady(d, n, p2);
                if let Some((_, p3)) = wire::parse_key(t, p2) {
                    device_wire::lemma_cards_steady(d, n, p3);
                }
            }
        }
    }
}

/// What was encoded of a change is read to its end.
proof fn lemma_change(c: ChangeView)
    requires
        plain_change(c),
    ensures
        parse_change_to(enc_change(c)) == Some((c, enc_change(c).len() as int)),
{
    let d = enc_change(c);
    wire::lemma_stands_whole(d);
    match c {
        ChangeView::AddApplication { device_uuid, app_id, app_alias } => {
            let k = seq![CHANGE_KIND_ADD_APPLICATION];
            assert(d =~= k + (device_uuid@ + app_id@ + wire::enc_str(app_alias)));
            wire::lemma_stands_split(d, 0, k, device_uuid@ + app_id@ + wire::enc_str(app_alias));
            wire::lemma_stands_split(d, 1, device_uuid@ + app_id@, wire::enc_str(app_alias));
            lemma_pair(d, 1, device_uuid, app_id);
            wire::lemma_str(d, 33, app_alias);
        },
        ChangeView::RemoveApplication { device_uuid, app_id } => {
            let k = seq![CHANGE_KIND_REMOVE_APPLICATION];
            assert(d =~= k + (device_uuid@ + app_id@));
            wire::lemma_stands_split(d, 0, k, device_uuid@ + app_id@);
            lemma_pair(d, 1, device_uuid, app_id);
        },
        ChangeView::AddDevice { uuid, alias, grade, sg_rank, hosts } => {
            let k = seq![CHANGE_KIND_ADD_DEVICE];
            let e = device_wire::enc_device_fields(uuid, alias, grade, sg_rank, hosts);
            wire::lemma_stands_split(d, 0, k, e);
            device_wire::lemma_device(d, 1, uuid, alias, grade, sg_rank, hosts);
        },
        ChangeView::UpdateApplicationAlias { device_uuid, app_id, new_alias } => {
            let k = seq![CHANGE_KIND_UPDATE_APPLICATION_ALIAS];
            assert(d =~= k + (device_uuid@ + app_id@ + wire::enc_str(new_alias)));
            wire::lemma_stands_split(d, 0, k, device_uuid@ + app_id@ + wire::enc_str(new_alias));
            wire::lemma_stands_split(d, 1, device_uuid@ + app_id@, wire::enc_str(new_alias));
            lemma_pair(d, 1, device_uuid, app_id);
            wire::lemma_str(d, 33, new_alias);
        },
        ChangeView::UpsertContact { uuid, alias, public_key, devices } => {
            let k = seq![CHANGE_KIND_UPSERT_CONTACT];
            let a = wire::enc_str(alias);
            let cs = device_wire::enc_cards(devices);
            wire::lemma_stands_split(d, 0, k + uuid@ + a + public_key@, cs);
            wire::lemma_stands_split(d, 0, k + uuid@ + a, public_key@);
            wire::lemma_stands_split(d, 0, k + uuid@, a);
            wire::lemma_stands_split(d, 0, k, uuid@);
            wire::lemma_uuid(d, 1, uuid);
            wire::lemma_str(d, 17, alias);
            wire::lemma_key(d, 17int + a.len(), public_key);
            device_wire::lemma_cards(d, 17int + a.len() + 32, devices);
        },
    }
}

} // verus!
