//! Public state across users: what a contact's server learns of this user.
use crate::apply;
use crate::cards;
use crate::change;
use crate::change::{Change, ChangeView};
use crate::device_wire;
use crate::device_wire::{push_device, read_cards, CardView, ContactDeviceCard};
use crate::effects::{push_all, Effect, EffectView};
use crate::find;
use crate::find::{find_contact, find_contact_of_device, find_device};
use crate::keys;
use crate::lists;
use crate::model;
use crate::routing::WriterTarget;
use crate::sync;
use crate::sync::{
    find_session_by_id, needs_pull, pull_answer_body, read_pull_answer, read_scope_version,
    request_change_idempotent, scope_version_body, seal_to,
};
use crate::types::{
    uuid_eq, ActiveConnection, ApplicationView, ContactView, Device, DeviceView, Node, NodeView,
    Scope, SyncVersion, Uuid,
};
use crate::wire;
use crate::wire::{
    bytes_of, push_str, push_uuid, read_uuid, CROSS_USER_PULL_REQUEST_OP,
    CROSS_USER_PULL_RESPONSE_OP, PULL_RESULT_FULL_STATE, PULL_RESULT_NO_UPDATES,
};
use vstd::prelude::*;

verus! {

pub open spec fn is_approved() -> spec_fn(ApplicationView) -> bool {
    |a: ApplicationView| a.user_approved
}

/// The identifiers and aliases of applications.
pub open spec fn named(s: Seq<ApplicationView>) -> Seq<(Uuid, Seq<char>)> {
    Seq::new(s.len(), |i: int| (s[i].id, s[i].alias))
}

/// The approved applications of a device.
pub open spec fn approved(d: DeviceView) -> Seq<(Uuid, Seq<char>)> {
    named(model::keep(d.applications, is_approved()))
}

/// What contacts may know of a device: the approved applications only.
pub open spec fn approved_card(d: DeviceView) -> CardView {
    CardView {
        uuid: d.uuid,
        alias: d.alias,
        grade: d.grade,
        sg_rank: d.sg_rank,
        hosts: d.hosts,
        apps: approved(d),
    }
}

pub open spec fn approved_cards(s: Seq<DeviceView>) -> Seq<CardView> {
    Seq::new(s.len(), |i: int| approved_card(s[i]))
}

/// A device as contacts see it. The count of applications is a byte that wraps.
pub open spec fn enc_contact_device(c: CardView) -> Seq<u8> {
    device_wire::enc_device_fields(c.uuid, c.alias, c.grade, c.sg_rank, c.hosts) + seq![
        (c.apps.len() % 256) as u8,
    ] + lists::enc_all(c.apps, device_wire::app_enc())
}

pub open spec fn contact_device_enc() -> spec_fn(CardView) -> Seq<u8> {
    |c: CardView| enc_contact_device(c)
}

/// The user's devices as contacts see them. The count is a byte that wraps.
pub open spec fn enc_contact_data(uuid: Uuid, devices: Seq<CardView>) -> Seq<u8> {
    uuid@ + seq![(devices.len() % 256) as u8] + lists::enc_all(devices, contact_device_enc())
}

/// Appends a device as contacts see it.
pub fn push_contact_device(buf: &mut Vec<u8>, d: &Device)
    ensures
        final(buf)@ == old(buf)@ + enc_contact_device(approved_card(d@)),
{
    broadcast use model::group_views;

    let ghost apps = d@.applications;
    let mut list: Vec<(Uuid, String)> = Vec::new();
    let mut i: usize = 0;
    assert(device_wire::app_pairs(list@) =~= named(model::keep(apps.take(0), is_approved())));
    while i < d.applications.len()
        invariant
            i <= d.applications@.len(),
            apps == d@.applications,
            device_wire::app_pairs(list@) == named(model::keep(apps.take(i as int), is_approved())),
        decreases d.applications@.len() - i,
    {
        proof {
            model::lemma_keep_step(apps, is_approved(), i as int);
        }
        if d.applications[i].user_approved {
            let pair = (d.applications[i].id, d.applications[i].alias.clone());
            proof {
                device_wire::lemma_app_pairs_push(list@, pair);
                let k = model::keep(apps.take(i as int), is_approved());
                assert(named(k.push(apps[i as int])) =~= named(k).push((pair.0, pair.1@)));
            }
            list.push(pair);
        }
        i += 1;
    }
    assert(apps.take(apps.len() as int) =~= apps);
    let ghost av = approved(d@);
    assert(device_wire::app_pairs(list@) == av);
    push_device(buf, d);
    let n: usize = list.len();
    buf.push((n % 256) as u8);
    let ghost start = buf@;
    let mut j: usize = 0;
    assert(buf@ =~= start + lists::enc_all(av.take(0), device_wire::app_enc()));
    while j < list.len()
        invariant
            j <= list@.len(),
            av == device_wire::app_pairs(list@),
            buf@ == start + lists::enc_all(av.take(j as int), device_wire::app_enc()),
        decreases list@.len() - j,
    {
        push_uuid(buf, &list[j].0);
        push_str(buf, list[j].1.as_str());
        proof {
            lists::lemma_enc_step(av, device_wire::app_enc(), j as int);
        }
        j += 1;
        assert(buf@ =~= start + lists::enc_all(av.take(j as int), device_wire::app_enc()));
    }
    assert(av.take(av.len() as int) =~= av);
    assert(buf@ =~= old(buf)@ + enc_contact_device(approved_card(d@)));
}

/// Encodes what contacts may know of this user.
pub fn serialize_contact_data(node: &Node) -> (r: Vec<u8>)
    ensures
        r@ == enc_contact_data(
            node@.owner.user.uuid,
            approved_cards(node@.owner.user.devices),
        ),
{
    broadcast use model::group_views;

    let devices = &node.owner.user.devices;
    let ghost cv = approved_cards(node@.owner.user.devices);
    let mut buf: Vec<u8> = Vec::new();
    push_uuid(&mut buf, &node.owner.user.uuid);
    let n: usize = devices.len();
    buf.push((n % 256) as u8);
    let ghost start = buf@;
    let mut i: usize = 0;
    assert(buf@ =~= start + lists::enc_all(cv.take(0), contact_device_enc()));
    while i < devices.len()
        invariant
            i <= devices@.len(),
            cv == approved_cards(model::views(devices@)),
            buf@ == start + lists::enc_all(cv.take(i as int), contact_device_enc()),
        decreases devices@.len() - i,
    {
        push_contact_device(&mut buf, &devices[i]);
        proof {
            lists::lemma_enc_step(cv, contact_device_enc(), i as int);
            assert(cv[i as int] == approved_card(devices@[i as int]@));
        }
        i += 1;
        assert(buf@ =~= start + lists::enc_all(cv.take(i as int), contact_device_enc()));
    }
    assert(cv.take(cv.len() as int) =~= cv);
    assert(buf@ =~= enc_contact_data(node@.owner.user.uuid, cv));
    buf
}

/// What is known of another user.
#[derive(Debug, PartialEq, Eq)]
pub struct ContactData {
    pub user_uuid: Uuid,
    pub devices: Vec<ContactDeviceCard>,
}

pub open spec fn parse_contact_data(d: Seq<u8>) -> Option<(Uuid, Seq<CardView>)> {
    match wire::parse_uuid(d, 0) {
        Some((u, p)) => match device_wire::parse_cards(d, p) {
            Some((cards, _)) => Some((u, cards)),
            None => None,
        },
        None => None,
    }
}

/// Decodes what is known of another user; `None` if it is malformed.
pub fn deserialize_contact_data(data: &[u8]) -> (r: Option<ContactData>)
    ensures
        match parse_contact_data(data@) {
            Some((u, cards)) => {
                &&& r is Some
                &&& r->0.user_uuid == u
                &&& model::views(r->0.devices@) == cards
            },
            None => r is None,
        },
{
    let mut pos: usize = 0;
    let user_uuid: Uuid = match read_uuid(data, &mut pos) {
        Some(u) => u,
        None => { return None; },
    };
    match read_cards(data, &mut pos) {
        Some(devices) => Some(ContactData { user_uuid, devices }),
        None => None,
    }
}

/// A contact's server reads what this node wrote: the same devices, with the
/// approved applications only.
pub proof fn law_contact_data_roundtrip(uuid: Uuid, devices: Seq<CardView>)
    requires
        devices.len() <= 255,
        forall|i: int| 0 <= i < devices.len() ==> device_wire::plain_card(#[trigger] devices[i]),
    ensures
        parse_contact_data(enc_contact_data(uuid, devices)) == Some((uuid, devices)),
{
    assert forall|i: int| 0 <= i < devices.len() implies contact_device_enc()(
        #[trigger] devices[i],
    ) == device_wire::card_enc()(devices[i]) by {
        let c = devices[i];
        assert(device_wire::plain_card(c));
        assert(c.apps.take(c.apps.len() as int) =~= c.apps);
        assert(enc_contact_device(c) =~= device_wire::enc_card(c));
    }
    lemma_enc_all_same(devices, contact_device_enc(), device_wire::card_enc());
    assert(devices.take(devices.len() as int) =~= devices);
    let d = enc_contact_data(uuid, devices);
    assert(d =~= uuid@ + device_wire::enc_cards(devices));
    wire::lemma_stands_whole(d);
    wire::lemma_stands_split(d, 0, uuid@, device_wire::enc_cards(devices));
    wire::lemma_uuid(d, 0, uuid);
    device_wire::lemma_cards(d, 16, devices);
}

proof fn lemma_enc_all_same<T>(s: Seq<T>, f: spec_fn(T) -> Seq<u8>, g: spec_fn(T) -> Seq<u8>)
    requires
        forall|i: int| 0 <= i < s.len() ==> f(#[trigger] s[i]) == g(s[i]),
    ensures
        lists::enc_all(s, f) == lists::enc_all(s, g),
    decreases s.len(),
{
    if s.len() > 0 {
        let t = s.drop_last();
        assert forall|i: int| 0 <= i < t.len() implies f(#[trigger] t[i]) == g(t[i]) by {
            assert(t[i] == s[i]);
        }
        lemma_enc_all_same(t, f, g);
        assert(f(s[s.len() - 1]) == g(s[s.len() - 1]));
    }
}

/// An application that the user did not approve is not told to contacts.
pub proof fn law_only_approved_told(d: DeviceView, k: int)
    requires
        0 <= k < approved_card(d).apps.len(),
    ensures
        exists|j: int|
            0 <= j < d.applications.len() && (#[trigger] d.applications[j]).user_approved
                && approved_card(d).apps[k] == (d.applications[j].id, d.applications[j].alias),
{
    let kept = model::keep(d.applications, is_approved());
    model::lemma_keep_contains(d.applications, is_approved(), kept[k]);
    assert(kept.contains(kept[k]));
    let j = choose|j: int| 0 <= j < d.applications.len() && d.applications[j] == kept[k];
    assert(d.applications[j].user_approved);
}

/// The contact at the other end of a session.
pub open spec fn contact_behind(n: NodeView, conn_id: u16) -> Option<int> {
    match sync::session(n, conn_id) {
        Some(conn) => model::first_where(
            n.owner.contact_users,
            find::contact_has_device(conn.device_uuid),
        ),
        None => None,
    }
}

/// The pull of a contact's public state over a session with one of its devices.
pub open spec fn contact_pull(n: NodeView, conn_id: u16) -> Seq<EffectView> {
    match contact_behind(n, conn_id) {
        Some(i) => sync::sealed(
            sync::session(n, conn_id),
            CROSS_USER_PULL_REQUEST_OP,
            sync::scope_and_version(
                Scope::Public,
                n.owner.contact_users[i].last_seen_public_version,
            ),
        ),
        None => Seq::empty(),
    }
}

/// Pulls a contact's public state over a session with one of its devices.
pub fn cross_user_pull_on_reconnect(node: &Node, conn_id: u16) -> (r: Vec<Effect>)
    ensures
        model::views(r@) == contact_pull(node@, conn_id),
{
    broadcast use model::group_views;

    let conn = match find_session_by_id(node, conn_id) {
        Some(c) => c,
        None => { return Vec::new(); },
    };
    match find_contact_of_device(&node.owner.contact_users, &conn.device_uuid) {
        Some(i) => {
            let seen = node.owner.contact_users[i].last_seen_public_version;
            seal_to(
                Some(conn),
                CROSS_USER_PULL_REQUEST_OP,
                scope_version_body(Scope::Public, &seen),
            )
        },
        None => Vec::new(),
    }
}

/// The pulls over those of the first sessions that lead to one of `devices`.
pub open spec fn pulls_over(
    n: NodeView,
    conns: Seq<ActiveConnection>,
    devices: Seq<DeviceView>,
) -> Seq<EffectView>
    decreases conns.len(),
{
    if conns.len() == 0 {
        Seq::empty()
    } else {
        let before = pulls_over(n, conns.drop_last(), devices);
        if model::any_where(devices, find::device_is(conns.last().device_uuid)) {
            before + contact_pull(n, conns.last().id)
        } else {
            before
        }
    }
}

/// Pulls a contact's public state over every session with one of its devices.
pub fn cross_user_pull_for_contact(node: &Node, contact_uuid: &Uuid) -> (r: Vec<Effect>)
    ensures
        model::views(r@) == match node@.owner.contact_index(*contact_uuid) {
            Some(i) => pulls_over(
                node@,
                node@.owner.active_connections,
                node@.owner.contact_users[i].user.devices,
            ),
            None => Seq::empty(),
        },
{
    broadcast use model::group_views;

    let mut out: Vec<Effect> = Vec::new();
    let i = match find_contact(&node.owner.contact_users, contact_uuid) {
        Some(i) => i,
        None => { return out; },
    };
    let devices = &node.owner.contact_users[i].user.devices;
    let conns = &node.owner.active_connections;
    let ghost devs = model::views(devices@);
    let mut k: usize = 0;
    assert(conns@.take(0) =~= Seq::empty());
    while k < conns.len()
        invariant
            k <= conns@.len(),
            conns@ == node@.owner.active_connections,
            devs == model::views(devices@),
            model::views(out@) == pulls_over(node@, conns@.take(k as int), devs),
        decreases conns@.len() - k,
    {
        proof {
            assert(conns@.take(k + 1).drop_last() =~= conns@.take(k as int));
            assert(conns@.take(k + 1).last() == conns@[k as int]);
            model::lemma_first_where(devs, find::device_is(conns@[k as int].device_uuid));
        }
        if find_device(devices, &conns[k].device_uuid).is_some() {
            push_all(&mut out, cross_user_pull_on_reconnect(node, conns[k].id));
        }
        k += 1;
    }
    assert(conns@.take(conns@.len() as int) =~= conns@);
    out
}

/// What a contact's notice leads to: a pull over the same session, unless it
/// says nothing new.
pub open spec fn contact_announced(n: NodeView, conn_id: u16, v: SyncVersion) -> Seq<EffectView> {
    match contact_behind(n, conn_id) {
        Some(i) => if sync::behind(n.owner.contact_users[i].last_seen_public_version, v) {
            contact_pull(n, conn_id)
        } else {
            Seq::empty()
        },
        None => Seq::empty(),
    }
}

/// What a contact's notice leads to, if it can be read and speaks of what is
/// public.
pub open spec fn contact_notice_followed(n: NodeView, conn_id: u16, d: Seq<u8>) -> Seq<EffectView> {
    match sync::parse_scope_version(d) {
        Some((Scope::Public, v)) => contact_announced(n, conn_id, v),
        _ => Seq::empty(),
    }
}

/// What a contact's pull leads to: an answer over the session it came from.
pub open spec fn contact_replied(n: NodeView, conn_id: u16, d: Seq<u8>) -> Seq<EffectView> {
    match sync::parse_scope_version(d) {
        Some((Scope::Public, seen)) => sync::sealed(
            sync::session(n, conn_id),
            CROSS_USER_PULL_RESPONSE_OP,
            sync::pull_answer(
                Scope::Public,
                n.owner.public_version,
                seen,
                enc_contact_data(n.owner.user.uuid, approved_cards(n.owner.user.devices)),
            ),
        ),
        _ => Seq::empty(),
    }
}

/// Reacts to a contact's notice of a new public version. One that cannot be
/// read, or that speaks of another scope, is dropped.
pub fn cross_user_update_available(node: &Node, conn_id: u16, plaintext: &[u8]) -> (r: Vec<Effect>)
    ensures
        model::views(r@) == contact_notice_followed(node@, conn_id, plaintext@),
{
    broadcast use model::group_views;

    match read_scope_version(plaintext) {
        Some((Scope::Public, announced)) => {
            let conn = match find_session_by_id(node, conn_id) {
                Some(c) => c,
                None => { return Vec::new(); },
            };
            match find_contact_of_device(&node.owner.contact_users, &conn.device_uuid) {
                Some(i) => {
                    let seen = node.owner.contact_users[i].last_seen_public_version;
                    if needs_pull(&seen, &announced) {
                        cross_user_pull_on_reconnect(node, conn_id)
                    } else {
                        Vec::new()
                    }
                },
                None => Vec::new(),
            }
        },
        _ => Vec::new(),
    }
}

/// Answers a contact's pull over the session it came from. One that cannot be
/// read, or that asks for another scope, is dropped.
pub fn cross_user_pull_request(node: &Node, conn_id: u16, plaintext: &[u8]) -> (r: Vec<Effect>)
    ensures
        model::views(r@) == contact_replied(node@, conn_id, plaintext@),
{
    broadcast use model::group_views;

    match read_scope_version(plaintext) {
        Some((Scope::Public, seen)) => {
            let state = serialize_contact_data(node);
            let current = node.owner.public_version;
            let body = pull_answer_body(Scope::Public, &current, &seen, &state);
            seal_to(find_session_by_id(node, conn_id), CROSS_USER_PULL_RESPONSE_OP, body)
        },
        _ => Vec::new(),
    }
}

/// The node after the pull baseline of a contact was set.
pub open spec fn pinned(n: NodeView, contact: Uuid, v: SyncVersion) -> NodeView {
    match n.owner.contact_index(contact) {
        Some(i) => NodeView {
            owner: n.owner.with_contacts(
                n.owner.contact_users.update(
                    i,
                    ContactView { last_seen_public_version: v, ..n.owner.contact_users[i] },
                ),
            ),
            ..n
        },
        None => n,
    }
}

fn pin_contact(node: &mut Node, contact: &Uuid, v: SyncVersion)
    ensures
        final(node)@ == pinned(old(node)@, *contact, v),
{
    broadcast use model::group_views;

    match find_contact(&node.owner.contact_users, contact) {
        Some(i) => {
            node.owner.contact_users[i].last_seen_public_version = v;
            assert(node@ =~= pinned(old(node)@, *contact, v));
        },
        None => {},
    }
}

/// The change that the whole state of a contact asks for: the same identity with
/// the reported devices, if the contact is known.
pub open spec fn refresh_change(n: NodeView, u: Uuid, devices: Seq<CardView>) -> Option<ChangeView> {
    match n.owner.contact_index(u) {
        Some(i) => Some(
            ChangeView::UpsertContact {
                uuid: u,
                alias: n.owner.contact_users[i].user.alias,
                public_key: n.owner.contact_users[i].public_key,
                devices,
            },
        ),
        None => None,
    }
}

/// What a contact's answer to a pull leads to. With nothing new the baseline is
/// set. A whole state goes through the writer as a change, and then the
/// baseline is set. Who answered is told by the session alone: a state that names
/// another user than the contact behind the session changes nothing but the
/// baseline.
pub open spec fn contact_answered(
    n: NodeView,
    conn_id: u16,
    d: Seq<u8>,
    target: WriterTarget,
    now: u64,
    retention: u64,
) -> (NodeView, Seq<EffectView>) {
    match (sync::parse_pull_answer(d), contact_behind(n, conn_id)) {
        (Some((Scope::Public, result, v, p)), Some(i)) => {
            let contact = n.owner.contact_users[i].user.uuid;
            if result == PULL_RESULT_NO_UPDATES {
                (pinned(n, contact, v), seq![EffectView::Save])
            } else if result == PULL_RESULT_FULL_STATE {
                match parse_contact_data(d.subrange(p, d.len() as int)) {
                    Some((u, devices)) => match refresh_change(n, contact, devices) {
                        Some(c) if u == contact => {
                            let (_, m, e) = sync::requested(n, c, target, false, now, retention);
                            (pinned(m, contact, v), e.push(EffectView::Save))
                        },
                        _ => (pinned(n, contact, v), seq![EffectView::Save]),
                    },
                    None => (n, Seq::empty()),
                }
            } else {
                (n, Seq::empty())
            }
        },
        _ => (n, Seq::empty()),
    }
}

/// Takes over a contact's answer to a pull. `target` is the writer that this
/// node then sees.
pub fn cross_user_pull_response(
    node: &mut Node,
    conn_id: u16,
    plaintext: &[u8],
    target: WriterTarget,
    now: u64,
    retention: u64,
) -> (r: Vec<Effect>)
    requires
        old(node).owner.public_version.room(2),
    ensures
        (final(node)@, model::views(r@)) == contact_answered(
            old(node)@,
            conn_id,
            plaintext@,
            target,
            now,
            retention,
        ),
        keys::keyed(old(node)@) ==> keys::keyed(final(node)@),
{
    broadcast use model::group_views;

    proof {
        keys::lemma_contact_answered(node@, conn_id, plaintext@, target, now, retention);
    }
    let ghost (want_node, want) = contact_answered(
        old(node)@,
        conn_id,
        plaintext@,
        target,
        now,
        retention,
    );
    let (scope, result, v, p) = match read_pull_answer(plaintext) {
        Some(x) => x,
        None => { return Vec::new(); },
    };
    match scope {
        Scope::Public => {},
        Scope::Private => { return Vec::new(); },
    }
    let conn = match find_session_by_id(node, conn_id) {
        Some(c) => c,
        None => { return Vec::new(); },
    };
    let contact: Uuid = match find_contact_of_device(&node.owner.contact_users, &conn.device_uuid) {
        Some(i) => node.owner.contact_users[i].user.uuid,
        None => { return Vec::new(); },
    };
    let mut out: Vec<Effect> = Vec::new();
    if result == PULL_RESULT_FULL_STATE {
        let blob = bytes_of(plaintext, p, plaintext.len());
        let data = match deserialize_contact_data(blob.as_slice()) {
            Some(x) => x,
            None => { return Vec::new(); },
        };
        if uuid_eq(&data.user_uuid, &contact) {
            if let Some(k) = find_contact(&node.owner.contact_users, &contact) {
                let change = Change::UpsertContact {
                    uuid: contact,
                    alias: node.owner.contact_users[k].user.alias.clone(),
                    public_key: node.owner.contact_users[k].public_key,
                    devices: data.devices,
                };
                let (_, effects) = request_change_idempotent(node, change, target, now, retention);
                push_all(&mut out, effects);
            }
        }
    } else if result != PULL_RESULT_NO_UPDATES {
        return Vec::new();
    }
    pin_contact(node, &contact, v);
    out.push(Effect::Save);
    assert(model::views(out@) =~= want);
    out
}

/// An answer to a pull touches the contact behind the session and no other,
/// whatever user it names.
pub proof fn law_pull_touches_its_contact(
    n: NodeView,
    conn_id: u16,
    d: Seq<u8>,
    target: WriterTarget,
    now: u64,
    retention: u64,
)
    ensures
        ({
            let m = contact_answered(n, conn_id, d, target, now, retention).0;
            &&& contact_behind(n, conn_id) is None ==> m == n
            &&& m.owner.contact_users.len() == n.owner.contact_users.len()
            &&& forall|j: int|
                0 <= j < n.owner.contact_users.len() && (contact_behind(n, conn_id) matches Some(i)
                    ==> n.owner.contact_users[j].user.uuid != n.owner.contact_users[i].user.uuid)
                    ==> #[trigger] m.owner.contact_users[j] == n.owner.contact_users[j]
        }),
{
    if let Some(i) = contact_behind(n, conn_id) {
        let contact = n.owner.contact_users[i].user.uuid;
        model::lemma_first_where(n.owner.contact_users, find::contact_is(contact));
        if let Some((Scope::Public, result, v, p)) = sync::parse_pull_answer(d) {
            if let Some((u, devices)) = parse_contact_data(d.subrange(p, d.len() as int)) {
                if let Some(c) = refresh_change(n, contact, devices) {
                    apply::law_apply_frame(n.owner, c);
                    let (_, m, _) = sync::requested(n, c, target, false, now, retention);
                    model::lemma_first_where(m.owner.contact_users, find::contact_is(contact));
                }
            }
        }
    }
}

/// An answer is a whole state, and names another user than the contact behind the
/// session.
pub open spec fn names_another(n: NodeView, conn_id: u16, d: Seq<u8>) -> bool {
    match (sync::parse_pull_answer(d), contact_behind(n, conn_id)) {
        (Some((Scope::Public, result, _, p)), Some(i)) => {
            let state = parse_contact_data(d.subrange(p, d.len() as int));
            &&& result == PULL_RESULT_FULL_STATE
            &&& state matches Some((u, _)) && u != n.owner.contact_users[i].user.uuid
        },
        _ => false,
    }
}

/// A whole state that names another user than the contact behind the session
/// leaves every contact's user and key as they were, and is not handed on.
pub proof fn law_foreign_state_is_not_taken(
    n: NodeView,
    conn_id: u16,
    d: Seq<u8>,
    target: WriterTarget,
    now: u64,
    retention: u64,
)
    requires
        names_another(n, conn_id, d),
    ensures
        ({
            let (m, e) = contact_answered(n, conn_id, d, target, now, retention);
            &&& m.owner.contact_users.len() == n.owner.contact_users.len()
            &&& forall|j: int|
                0 <= j < n.owner.contact_users.len() ==> (#[trigger] m.owner.contact_users[j]).user
                    == n.owner.contact_users[j].user && m.owner.contact_users[j].public_key
                    == n.owner.contact_users[j].public_key
            &&& m == NodeView { owner: n.owner.with_contacts(m.owner.contact_users), ..n }
            &&& e == seq![EffectView::Save]
        }),
{
    let i = contact_behind(n, conn_id)->0;
    model::lemma_first_where(
        n.owner.contact_users,
        find::contact_is(n.owner.contact_users[i].user.uuid),
    );
}

/// A writer that takes over a contact's answer to its pull knows the contact's
/// devices with their approved applications, and has nothing new to pull.
pub proof fn law_contact_catches_up(
    a: NodeView,
    n: NodeView,
    conn_id: u16,
    i: int,
    now: u64,
    retention: u64,
)
    requires
        a.owner.public_version.room(2),
        contact_behind(a, conn_id) == Some(i),
        a.owner.contact_index(n.owner.user.uuid) == Some(i),
        a.owner.contact_users[i].last_seen_public_version != n.owner.public_version,
        n.owner.user.devices.len() <= 255,
        forall|k: int|
            0 <= k < n.owner.user.devices.len() ==> device_wire::plain_card(
                approved_card(#[trigger] n.owner.user.devices[k]),
            ),
    ensures
        ({
            let current = n.owner.public_version;
            let told = approved_cards(n.owner.user.devices);
            let d = sync::pull_answer(
                Scope::Public,
                current,
                a.owner.contact_users[i].last_seen_public_version,
                enc_contact_data(n.owner.user.uuid, told),
            );
            let m = contact_answered(a, conn_id, d, WriterTarget::Local, now, retention).0;
            &&& m.owner.contact_index(n.owner.user.uuid) == Some(i)
            &&& cards::cards_of(m.owner.contact_users[i].user.devices) == cards::normal_cards(told)
            &&& !sync::behind(m.owner.contact_users[i].last_seen_public_version, current)
        }),
{
    let u = n.owner.user.uuid;
    let current = n.owner.public_version;
    let seen = a.owner.contact_users[i].last_seen_public_version;
    let told = approved_cards(n.owner.user.devices);
    let state = enc_contact_data(u, told);
    let d = sync::pull_answer(Scope::Public, current, seen, state);
    assert forall|k: int| 0 <= k < told.len() implies device_wire::plain_card(#[trigger] told[k]) by {
        assert(told[k] == approved_card(n.owner.user.devices[k]));
    }
    law_contact_data_roundtrip(u, told);
    sync::lemma_pull_answer_read(Scope::Public, current, seen, state);
    sync::lemma_pull_answer_state(Scope::Public, current, seen, state);
    model::lemma_first_where(a.owner.contact_users, find::contact_is(u));
    cards::lemma_cards_of_card_devices(told);
    let c = refresh_change(a, u, told)->0;
    let (b, o) = apply::applied(a.owner, c)->0;
    let (_, m, _) = sync::requested(a, c, WriterTarget::Local, false, now, retention);
    assert(m.owner.contact_users == o.contact_users);
    assert(o.contact_users.len() == a.owner.contact_users.len());
    assert forall|j: int| 0 <= j < i implies !find::contact_is(u)(
        #[trigger] o.contact_users[j],
    ) by {
        assert(!find::contact_is(u)(a.owner.contact_users[j]));
    }
    model::lemma_first_at(o.contact_users, find::contact_is(u), i);
    let p = pinned(m, u, current);
    assert forall|j: int| 0 <= j < i implies !find::contact_is(u)(
        #[trigger] p.owner.contact_users[j],
    ) by {
        assert(!find::contact_is(u)(o.contact_users[j]));
    }
    model::lemma_first_at(p.owner.contact_users, find::contact_is(u), i);
}

} // verus!
