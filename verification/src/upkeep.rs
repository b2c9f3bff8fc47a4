//! Who is given a session, who is asked for one, and what keeps it up, told by
//! devices, contacts, sessions and requests alone.
use crate::cross_user;
use crate::dispatch;
use crate::effects::{EffectView, Task};
use crate::election;
use crate::find;
use crate::following;
use crate::ids;
use crate::model;
use crate::order;
use crate::outcomes;
use crate::routing;
use crate::routing::ResolvedHostView;
use crate::sessions;
use crate::sessions::{ConnectAck, ConnectRequest, PollTargetView, SessionTimes, WantedPeer};
use crate::sync;
use crate::types::{
    ActiveConnection, ContactView, DeviceGrade, DeviceView, HostAddr, KeyPair, NodeView, OwnerView,
    PeerAddr, PendingConnection, PublicKey, Scope, SgHostStatusView, Uuid,
};
use crate::wire;
use crate::wire::{CROSS_USER_PULL_REQUEST_OP, DG_KEEPALIVE_OP, WATERMARK_PROBE_REQUEST_OP};
use vstd::prelude::*;

verus! {

/// One of some devices has an identifier.
pub open spec fn among(devices: Seq<DeviceView>, u: Uuid) -> bool {
    exists|j: int| 0 <= j < devices.len() && (#[trigger] devices[j]).uuid == u
}

pub proof fn lemma_among(devices: Seq<DeviceView>, u: Uuid)
    ensures
        among(devices, u) <==> model::any_where(devices, find::device_is(u)),
{
    let p = find::device_is(u);
    if among(devices, u) {
        let j = choose|j: int| 0 <= j < devices.len() && (#[trigger] devices[j]).uuid == u;
        assert(p(devices[j]));
    }
    if model::any_where(devices, p) {
        let j = choose|j: int| 0 <= j < devices.len() && p(#[trigger] devices[j]);
        assert(devices[j].uuid == u);
    }
}

/// The holder of a key has a device: the user whose key it is, or a contact whose
/// key it is.
pub open spec fn holds(n: NodeView, pk: PublicKey, u: Uuid) -> bool {
    ||| n.owner.key_pair.public_key == pk && among(n.owner.user.devices, u)
    ||| exists|i: int|
        0 <= i < n.owner.contact_users.len() && (#[trigger] n.owner.contact_users[i]).public_key
            == pk && among(n.owner.contact_users[i].user.devices, u)
}

/// A device is believed to be whose it says exactly if the holder of the key has
/// it.
pub proof fn law_vouching(n: NodeView, pk: PublicKey, u: Uuid)
    ensures
        sessions::vouched(n.owner, pk, u) <==> holds(n, pk, u),
{
    let s = n.owner.contact_users;
    let p = sessions::contact_with_key_and_device(pk, u);
    lemma_among(n.owner.user.devices, u);
    if exists|i: int|
        0 <= i < s.len() && (#[trigger] s[i]).public_key == pk && among(s[i].user.devices, u) {
        let i = choose|i: int|
            0 <= i < s.len() && (#[trigger] s[i]).public_key == pk && among(s[i].user.devices, u);
        lemma_among(s[i].user.devices, u);
        assert(p(s[i]));
    }
    if model::any_where(s, p) {
        let i = choose|i: int| 0 <= i < s.len() && p(#[trigger] s[i]);
        lemma_among(s[i].user.devices, u);
        assert(s[i].public_key == pk);
    }
}

/// A device that is not vouched for by the key it shows gets neither a session
/// nor an answer.
pub proof fn law_strangers_get_nothing(
    n: NodeView,
    src: PeerAddr,
    q: ConnectRequest,
    fresh: KeyPair,
    now: u64,
    times: SessionTimes,
)
    requires
        !holds(n, q.longterm_pk, q.device_uuid),
    ensures
        sessions::connect_requested(n, src, q, fresh, now, times) == (
            n,
            Seq::<EffectView>::empty(),
        ),
{
    law_vouching(n, q.longterm_pk, q.device_uuid);
}

/// Of all sessions there is one with a device, the given one, and the sessions
/// with other devices are those that were there before.
pub open spec fn only_session(n: NodeView, m: NodeView, c: ActiveConnection) -> bool {
    let before = n.owner.active_connections;
    let after = m.owner.active_connections;
    &&& after.contains(c)
    &&& forall|i: int|
        0 <= i < after.len() && (#[trigger] after[i]).device_uuid == c.device_uuid ==> after[i] == c
    &&& forall|x: ActiveConnection|
        x.device_uuid != c.device_uuid && x.id != c.id ==> (#[trigger] after.contains(x)
            <==> before.contains(x))
}

proof fn lemma_only_session(conns: Seq<ActiveConnection>, c: ActiveConnection)
    ensures
        ({
            let after = ids::with_conn(conns, c, true);
            &&& after.contains(c)
            &&& forall|i: int|
                0 <= i < after.len() && (#[trigger] after[i]).device_uuid == c.device_uuid
                    ==> after[i] == c
            &&& forall|x: ActiveConnection|
                x.device_uuid != c.device_uuid && x.id != c.id ==> (#[trigger] after.contains(x)
                    <==> conns.contains(x))
        }),
{
    let p = ids::stays_beside(c, true);
    let kept = model::keep(conns, p);
    let after = kept.push(c);
    assert(after[kept.len() as int] == c);
    assert forall|i: int|
        0 <= i < after.len() && (#[trigger] after[i]).device_uuid == c.device_uuid implies after[i]
        == c by {
        ids::law_eviction_leaves_one(conns, c, i);
    }
    assert forall|x: ActiveConnection|
        x.device_uuid != c.device_uuid && x.id != c.id implies (#[trigger] after.contains(x)
        <==> conns.contains(x)) by {
        model::lemma_keep_contains(conns, p, x);
        if kept.contains(x) {
            let j = choose|j: int| 0 <= j < kept.len() && kept[j] == x;
            assert(after[j] == x);
        }
        if after.contains(x) {
            let j = choose|j: int| 0 <= j < after.len() && after[j] == x;
            assert(j < kept.len());
            assert(kept[j] == x);
        }
    }
}

/// A device that is vouched for gets a session under an identifier that no other
/// has, with the key and the identifier it named, for as long as sessions last,
/// and in place of any it had. It is told of it where it asked from, and a server
/// is probed by another server at once.
pub proof fn law_known_devices_get_a_session(
    n: NodeView,
    src: PeerAddr,
    q: ConnectRequest,
    fresh: KeyPair,
    now: u64,
    times: SessionTimes,
)
    requires
        holds(n, q.longterm_pk, q.device_uuid),
        n.owner.active_connections.len() + n.owner.pending_connections.len() < 65536,
        now + times.lifetime <= u64::MAX,
    ensures
        ({
            let (m, e) = sessions::connect_requested(n, src, q, fresh, now, times);
            let c = m.owner.active_connections.last();
            &&& only_session(n, m, c)
            &&& forall|i: int|
                0 <= i < n.owner.active_connections.len() ==> (
                #[trigger] n.owner.active_connections[i]).id != c.id
            &&& forall|i: int|
                0 <= i < n.owner.pending_connections.len() ==> (
                #[trigger] n.owner.pending_connections[i]).our_conn_id != c.id
            &&& c.device_uuid == q.device_uuid
            &&& c.peer_active_connection_id == q.conn_id
            &&& c.peer_public_key == q.ephemeral_pk
            &&& c.key_pair == fresh
            &&& c.peer_addr == src
            &&& c.timeout == now + times.lifetime
            &&& e.len() >= 1
            &&& acknowledges(n, e[0], src, c)
            &&& e.len() == 1 || e.len() == 2 && asks_marks(e[1], c)
            &&& e.len() == 2 <==> following::own_server(m, m.device_uuid) && following::own_server(
                m,
                c.device_uuid,
            )
        }),
{
    law_vouching(n, q.longterm_pk, q.device_uuid);
    let (m, e) = sessions::connect_requested(n, src, q, fresh, now, times);
    let used = ids::used_ids(n.owner);
    let c = m.owner.active_connections.last();
    ids::law_next_id_is_free(used);
    assert forall|i: int| 0 <= i < n.owner.active_connections.len() implies (
    #[trigger] n.owner.active_connections[i]).id != c.id by {
        assert(used[i] == n.owner.active_connections[i].id);
    }
    assert forall|i: int| 0 <= i < n.owner.pending_connections.len() implies (
    #[trigger] n.owner.pending_connections[i]).our_conn_id != c.id by {
        assert(used[n.owner.active_connections.len() + i]
            == n.owner.pending_connections[i].our_conn_id);
    }
    lemma_only_session(n.owner.active_connections, c);
    ids::law_put_then_find(n.owner.active_connections, c, true);
    following::lemma_own_server(m, m.device_uuid);
    following::lemma_own_server(m, c.device_uuid);
    lemma_ack(c.id, q.conn_id, fresh.public_key);
    lemma_probe();
}

/// A packet that is signed and sent tells the one who asked what it asked for:
/// whatever its signature, it is read as the acknowledgement of that session.
pub open spec fn acknowledges(
    n: NodeView,
    e: EffectView,
    src: PeerAddr,
    c: ActiveConnection,
) -> bool {
    match e {
        EffectView::SendSigned { key, dest, bytes } => {
            &&& key == n.owner.key_pair.private_key
            &&& dest == src
            &&& reads_as_ack(
                bytes,
                ConnectAck {
                    responder_conn_id: c.id,
                    our_conn_id: c.peer_active_connection_id,
                    ephemeral_pk: c.key_pair.public_key,
                },
            )
        },
        _ => false,
    }
}

/// Some bytes with a signature behind them are read as an acknowledgement.
pub open spec fn reads_as_ack(bytes: Seq<u8>, a: ConnectAck) -> bool {
    forall|signature: Seq<u8>|
        signature.len() == 64 ==> #[trigger] sessions::parse_connect_ack(bytes.skip(1) + signature)
            == Some(a)
}

proof fn lemma_ack(own_id: u16, peer_id: u16, pk: PublicKey)
    ensures
        reads_as_ack(
            sessions::connect_ack_bytes(own_id, peer_id, pk),
            ConnectAck { responder_conn_id: own_id, our_conn_id: peer_id, ephemeral_pk: pk },
        ),
{
    let b = sessions::connect_ack_bytes(own_id, peer_id, pk);
    assert forall|signature: Seq<u8>| signature.len() == 64 implies
        #[trigger] sessions::parse_connect_ack(b.skip(1) + signature) == Some(
        ConnectAck { responder_conn_id: own_id, our_conn_id: peer_id, ephemeral_pk: pk },
    ) by {
        sessions::law_connect_ack_roundtrip(own_id, peer_id, pk, signature);
    }
}

/// An effect asks the peer of a session for its marks of what is public.
pub open spec fn asks_marks(e: EffectView, c: ActiveConnection) -> bool {
    e matches EffectView::Seal { conn, op, body } && conn == c && op == WATERMARK_PROBE_REQUEST_OP
        && (wire::parse_scope(body, 0) matches Some((scope, _)) && scope == Scope::Public)
}

proof fn lemma_probe()
    ensures
        wire::parse_scope(seq![wire::scope_byte(Scope::Public)], 0) matches Some((scope, _))
            && scope == Scope::Public,
{
    let d = seq![wire::scope_byte(Scope::Public)];
    wire::lemma_stands_whole(d);
    wire::lemma_scope(d, 0, Scope::Public);
}

/// The request that waits under an identifier: the first.
pub open spec fn waits(n: NodeView, id: u16, k: int) -> bool {
    &&& 0 <= k < n.owner.pending_connections.len()
    &&& n.owner.pending_connections[k].our_conn_id == id
    &&& forall|j: int|
        0 <= j < k ==> (#[trigger] n.owner.pending_connections[j]).our_conn_id != id
}

/// An acknowledgement turns the request that waited for it into a session, with
/// the device and the keys of the request and with the key and the identifier of
/// the acknowledgement, in place of any other with the device. The request no
/// longer waits. Over the new session a contact is asked for its public state
/// from where it was last seen, and another server is probed.
pub proof fn law_request_becomes_a_session(
    n: NodeView,
    src: PeerAddr,
    q: ConnectAck,
    k: int,
    i: int,
    now: u64,
    times: SessionTimes,
)
    requires
        waits(n, q.our_conn_id, k),
        now + times.lifetime <= u64::MAX,
    ensures
        ({
            let (m, e) = sessions::connect_acked(n, src, q, now, times);
            let p = n.owner.pending_connections[k];
            let c = m.owner.active_connections.last();
            &&& only_session(n, m, c)
            &&& c.id == q.our_conn_id
            &&& c.device_uuid == p.peer_device_uuid
            &&& c.key_pair == p.our_key_pair
            &&& c.peer_public_key == q.ephemeral_pk
            &&& c.peer_active_connection_id == q.responder_conn_id
            &&& c.peer_addr == src
            &&& c.timeout == now + times.lifetime
            &&& forall|j: int|
                0 <= j < m.owner.pending_connections.len() ==> (
                #[trigger] m.owner.pending_connections[j]).our_conn_id != q.our_conn_id
            &&& following::contact_over(m, c, i) ==> exists|l: int, body: Seq<u8>| #[trigger]
                following::packet_at(e, l, c, CROSS_USER_PULL_REQUEST_OP, body)
                    && sync::parse_scope_version(body) == Some(
                    (Scope::Public, m.owner.contact_users[i].last_seen_public_version),
                )
            &&& following::own_server(m, m.device_uuid) && following::own_server(m, c.device_uuid)
                ==> e.len() > 0 && asks_marks(e.last(), c)
        }),
{
    let pend = n.owner.pending_connections;
    let id = q.our_conn_id;
    let h = sessions::pending_has_id(id);
    assert(h(pend[k]));
    assert forall|j: int| 0 <= j < k implies !h(#[trigger] pend[j]) by {}
    model::lemma_first_at(pend, h, k);
    let (m, e) = sessions::connect_acked(n, src, q, now, times);
    let c = m.owner.active_connections.last();
    lemma_only_session(n.owner.active_connections, c);
    ids::law_put_then_find(n.owner.active_connections, c, true);
    model::lemma_keep_again(pend, sessions::pending_has_not_id(id));
    assert forall|j: int| 0 <= j < m.owner.pending_connections.len() implies (
    #[trigger] m.owner.pending_connections[j]).our_conn_id != id by {
        assert(sessions::pending_has_not_id(id)(m.owner.pending_connections[j]));
    }
    following::lemma_own_server(m, m.device_uuid);
    following::lemma_own_server(m, c.device_uuid);
    lemma_probe();
    let own = sync::pulls(m);
    let theirs = cross_user::contact_pull(m, id);
    if following::contact_over(m, c, i) {
        let conns = m.owner.active_connections;
        let at = conns.len() - 1;
        assert(following::session_under(m, id, c)) by {
            let f = find::conn_has_id(id);
            model::lemma_first_where(conns, f);
            assert(conns[at] == c);
            assert forall|j: int| 0 <= j < at implies (#[trigger] conns[j]).id != id by {
                assert(!f(conns[j]));
            }
        }
        following::lemma_contact_over(m, c, i);
        let seen = m.owner.contact_users[i].last_seen_public_version;
        sync::law_scope_version_roundtrip(Scope::Public, seen);
        let body = sync::scope_and_version(Scope::Public, seen);
        assert(e[own.len() as int] == theirs[0]);
        assert(following::packet_at(e, own.len() as int, c, CROSS_USER_PULL_REQUEST_OP, body));
    }
}

/// One identifier is smaller than another: its first byte that differs is.
pub open spec fn smaller(a: Uuid, b: Uuid) -> bool {
    exists|k: int|
        0 <= k < 16 && #[trigger] a@[k] < b@[k] && forall|j: int|
            0 <= j < k ==> #[trigger] a@[j] == b@[j]
}

proof fn lemma_smaller(a: Uuid, b: Uuid)
    ensures
        smaller(a, b) <==> order::lex_lt(a@, b@),
{
    order::lemma_shared(a@, b@);
    if smaller(a, b) {
        let k = choose|k: int|
            0 <= k < 16 && #[trigger] a@[k] < b@[k] && forall|j: int|
                0 <= j < k ==> #[trigger] a@[j] == b@[j];
        order::lemma_shared_is(a@, b@, k);
    }
    if order::lex_lt(a@, b@) {
        let i = order::shared(a@, b@);
        assert(a@[i] < b@[i]);
    }
}

/// This device is a server of the user.
pub open spec fn is_server(n: NodeView) -> bool {
    exists|i: int| #[trigger]
        outcomes::device_at(n.owner, n.device_uuid, i) && n.owner.user.devices[i].grade
            == DeviceGrade::SG
}

proof fn lemma_is_server(n: NodeView)
    ensures
        is_server(n) <==> sessions::own_grade(n) == Some(DeviceGrade::SG),
{
    let s = n.owner.user.devices;
    let p = find::device_is(n.device_uuid);
    model::lemma_first_where(s, p);
    if is_server(n) {
        let i = choose|i: int| #[trigger]
            outcomes::device_at(n.owner, n.device_uuid, i) && s[i].grade == DeviceGrade::SG;
        outcomes::lemma_device_at(n.owner, n.device_uuid, i);
    }
    match model::first_where(s, p) {
        Some(i) => {
            assert(p(s[i]));
            assert forall|j: int| 0 <= j < i implies (#[trigger] s[j]).uuid != n.device_uuid by {
                assert(!p(s[j]));
            }
            assert(outcomes::device_at(n.owner, n.device_uuid, i));
        },
        None => {},
    }
}

/// It is for this device to open the session with another one: the other is a
/// server, and this one is none or has the smaller identifier.
pub open spec fn opens(n: NodeView, d: DeviceView) -> bool {
    d.grade == DeviceGrade::SG && (!is_server(n) || smaller(n.device_uuid, d.uuid))
}

/// This device seeks a session with a device of the holder of a key, at an
/// address: with the user's other devices and with the devices of contacts with
/// which it is for it to open sessions.
pub open spec fn seeks(
    n: NodeView,
    cache: Seq<ResolvedHostView>,
    u: Uuid,
    addr: HostAddr,
    pk: PublicKey,
) -> bool {
    &&& routing::best_address(n, cache, u) == Some(addr)
    &&& {
        ||| u != n.device_uuid && pk == n.owner.key_pair.public_key && exists|i: int|
            0 <= i < n.owner.user.devices.len() && (#[trigger] n.owner.user.devices[i]).uuid == u
                && opens(n, n.owner.user.devices[i])
        ||| exists|i: int| #[trigger] sought_contact(n, i, u, pk)
    }
}

/// A contact whose key it is has a device with which it is for this one to open a
/// session.
pub open spec fn sought_contact(n: NodeView, i: int, u: Uuid, pk: PublicKey) -> bool {
    &&& 0 <= i < n.owner.contact_users.len()
    &&& n.owner.contact_users[i].public_key == pk
    &&& sought_among(n, n.owner.contact_users[i].user.devices, u)
}

pub open spec fn sought_among(n: NodeView, devices: Seq<DeviceView>, u: Uuid) -> bool {
    exists|j: int| 0 <= j < devices.len() && (#[trigger] devices[j]).uuid == u && opens(n, devices[j])
}

proof fn lemma_wanted_among(
    n: NodeView,
    cache: Seq<ResolvedHostView>,
    devices: Seq<DeviceView>,
    pk: PublicKey,
    except: Option<Uuid>,
    w: WantedPeer,
)
    ensures
        sessions::wanted_among(n, cache, devices, pk, except).contains(w) <==> {
            &&& w.longterm_pk == pk
            &&& except != Some(w.device_uuid)
            &&& routing::best_address(n, cache, w.device_uuid) == Some(w.addr)
            &&& sought_among(n, devices, w.device_uuid)
        },
    decreases devices.len(),
{
    let all = sessions::wanted_among(n, cache, devices, pk, except);
    if devices.len() > 0 {
        let t = devices.drop_last();
        let rest = sessions::wanted_among(n, cache, t, pk, except);
        let d = devices.last();
        lemma_wanted_among(n, cache, t, pk, except, w);
        lemma_is_server(n);
        lemma_smaller(n.device_uuid, d.uuid);
        if sought_among(n, t, w.device_uuid) {
            let j = choose|j: int|
                0 <= j < t.len() && (#[trigger] t[j]).uuid == w.device_uuid && opens(n, t[j]);
            assert(devices[j] == t[j]);
        }
        if sought_among(n, devices, w.device_uuid) {
            let j = choose|j: int|
                0 <= j < devices.len() && (#[trigger] devices[j]).uuid == w.device_uuid && opens(
                    n,
                    devices[j],
                );
            if j < t.len() {
                assert(t[j] == devices[j]);
            }
        }
        if rest.contains(w) {
            let j = choose|j: int| 0 <= j < rest.len() && rest[j] == w;
            assert(all[j] == w);
        }
        if all.contains(w) {
            let j = choose|j: int| 0 <= j < all.len() && all[j] == w;
            if j < rest.len() {
                assert(rest[j] == w);
            } else {
                assert(devices[devices.len() - 1].uuid == w.device_uuid);
            }
        }
        if all.len() > rest.len() {
            assert(all[rest.len() as int] == all.last());
        }
    }
}

proof fn lemma_wanted_contacts(
    n: NodeView,
    cache: Seq<ResolvedHostView>,
    contacts: Seq<ContactView>,
    w: WantedPeer,
)
    ensures
        sessions::wanted_contacts(n, cache, contacts).contains(w) <==> {
            &&& routing::best_address(n, cache, w.device_uuid) == Some(w.addr)
            &&& exists|i: int|
                0 <= i < contacts.len() && (#[trigger] contacts[i]).public_key == w.longterm_pk
                    && sought_among(n, contacts[i].user.devices, w.device_uuid)
        },
    decreases contacts.len(),
{
    let all = sessions::wanted_contacts(n, cache, contacts);
    if contacts.len() > 0 {
        let t = contacts.drop_last();
        let c = contacts[contacts.len() - 1];
        let rest = sessions::wanted_contacts(n, cache, t);
        let more = sessions::wanted_among(n, cache, c.user.devices, c.public_key, None);
        lemma_wanted_contacts(n, cache, t, w);
        lemma_wanted_among(n, cache, c.user.devices, c.public_key, None, w);
        assert(all == rest + more);
        if rest.contains(w) {
            let j = choose|j: int| 0 <= j < rest.len() && rest[j] == w;
            assert(all[j] == w);
            let i = choose|i: int|
                0 <= i < t.len() && (#[trigger] t[i]).public_key == w.longterm_pk && sought_among(
                    n,
                    t[i].user.devices,
                    w.device_uuid,
                );
            assert(contacts[i] == t[i]);
        }
        if more.contains(w) {
            let j = choose|j: int| 0 <= j < more.len() && more[j] == w;
            assert(all[rest.len() + j] == w);
            assert(contacts[contacts.len() - 1].public_key == w.longterm_pk);
        }
        if all.contains(w) {
            let j = choose|j: int| 0 <= j < all.len() && all[j] == w;
            if j < rest.len() {
                assert(rest[j] == w);
            } else {
                assert(more[j - rest.len()] == w);
            }
        }
        if exists|i: int|
            0 <= i < contacts.len() && (#[trigger] contacts[i]).public_key == w.longterm_pk
                && sought_among(n, contacts[i].user.devices, w.device_uuid) {
            let i = choose|i: int|
                0 <= i < contacts.len() && (#[trigger] contacts[i]).public_key == w.longterm_pk
                    && sought_among(n, contacts[i].user.devices, w.device_uuid);
            if i < t.len() {
                assert(t[i] == contacts[i]);
            }
        }
    }
}

/// A session with a device is on its way, or lasts beyond the time at which it
/// would be renewed.
pub open spec fn provided(n: NodeView, u: Uuid, now: u64, threshold: u64) -> bool {
    ||| exists|i: int|
        0 <= i < n.owner.pending_connections.len() && (
        #[trigger] n.owner.pending_connections[i]).peer_device_uuid == u
    ||| exists|i: int|
        0 <= i < n.owner.active_connections.len() && (
        #[trigger] n.owner.active_connections[i]).device_uuid == u
            && n.owner.active_connections[i].timeout >= now + threshold
}

proof fn lemma_provided(n: NodeView, u: Uuid, now: u64, threshold: u64)
    ensures
        provided(n, u, now, threshold) <==> sessions::covered(n, u, now, threshold),
{
    let ps = n.owner.pending_connections;
    let cs = n.owner.active_connections;
    let p = sessions::pending_to(u);
    let q = sessions::lasting(u, now, threshold);
    if exists|i: int| 0 <= i < ps.len() && (#[trigger] ps[i]).peer_device_uuid == u {
        let i = choose|i: int| 0 <= i < ps.len() && (#[trigger] ps[i]).peer_device_uuid == u;
        assert(p(ps[i]));
    }
    if exists|i: int|
        0 <= i < cs.len() && (#[trigger] cs[i]).device_uuid == u && cs[i].timeout >= now
            + threshold {
        let i = choose|i: int|
            0 <= i < cs.len() && (#[trigger] cs[i]).device_uuid == u && cs[i].timeout >= now
                + threshold;
        assert(q(cs[i]));
    }
    if model::any_where(ps, p) {
        let i = choose|i: int| 0 <= i < ps.len() && p(#[trigger] ps[i]);
        assert(ps[i].peer_device_uuid == u);
    }
    if model::any_where(cs, q) {
        let i = choose|i: int| 0 <= i < cs.len() && q(#[trigger] cs[i]);
        assert(cs[i].device_uuid == u);
    }
}

/// Asking for more sessions takes none away.
proof fn lemma_asked_keeps(
    n: NodeView,
    need: Seq<WantedPeer>,
    keys: Seq<KeyPair>,
    now: u64,
    threshold: u64,
    u: Uuid,
)
    requires
        provided(n, u, now, threshold),
    ensures
        provided(sessions::asked_all(n, need, keys, now, threshold).0, u, now, threshold),
    decreases need.len(),
{
    if need.len() > 0 {
        lemma_asked_keeps(n, need.drop_last(), keys, now, threshold, u);
        let m = sessions::asked_all(n, need.drop_last(), keys, now, threshold).0;
        let k = sessions::asked_all(n, need, keys, now, threshold).0;
        let ps = m.owner.pending_connections;
        if exists|i: int| 0 <= i < ps.len() && (#[trigger] ps[i]).peer_device_uuid == u {
            let i = choose|i: int| 0 <= i < ps.len() && (#[trigger] ps[i]).peer_device_uuid == u;
            assert(k.owner.pending_connections[i] == ps[i]);
        }
    }
}

/// The state without the requests that waited too long.
proof fn lemma_without_stale(n: NodeView, now: u64, timeout: u64, p: PendingConnection)
    ensures
        sessions::without_stale(n, now, timeout).owner.pending_connections.contains(p)
            <==> n.owner.pending_connections.contains(p) && !(p.created_at + timeout <= now
            && p.created_at <= now),
{
    model::lemma_keep_contains(n.owner.pending_connections, sessions::still_waiting(now, timeout), p);
}

/// Whoever is sought has a session that lasts, or was asked for one: with a key
/// pair for each request, keeping the sessions up passes over nobody.
pub proof fn law_all_sought_are_asked(
    n: NodeView,
    cache: Seq<ResolvedHostView>,
    keys: Seq<KeyPair>,
    now: u64,
    times: SessionTimes,
    u: Uuid,
    addr: HostAddr,
    pk: PublicKey,
)
    requires
        seeks(n, cache, u, addr, pk),
        sessions::needed(
            sessions::without_stale(n, now, times.pending_timeout),
            cache,
            now,
            times,
        ).len() <= keys.len(),
    ensures
        provided(sessions::maintained(n, cache, keys, now, times).0, u, now, times.renew_threshold),
{
    let c = sessions::without_stale(n, now, times.pending_timeout);
    let w = WantedPeer { device_uuid: u, addr, longterm_pk: pk };
    let th = times.renew_threshold;
    let need = sessions::needed(c, cache, now, times);
    let own = sessions::wanted_among(
        c,
        cache,
        c.owner.user.devices,
        c.owner.key_pair.public_key,
        Some(c.device_uuid),
    );
    let theirs = sessions::wanted_contacts(c, cache, c.owner.contact_users);
    lemma_same_search(n, c, cache, u);
    lemma_wanted_among(
        c,
        cache,
        c.owner.user.devices,
        c.owner.key_pair.public_key,
        Some(c.device_uuid),
        w,
    );
    lemma_wanted_contacts(c, cache, c.owner.contact_users, w);
    lemma_seeks(n, cache, u, addr, pk);
    lemma_sought_same(n, c, n.owner.user.devices, u);
    assert forall|i: int| 0 <= i < n.owner.contact_users.len() implies sought_among(
        n,
        (#[trigger] n.owner.contact_users[i]).user.devices,
        u,
    ) == sought_among(c, n.owner.contact_users[i].user.devices, u) by {
        lemma_sought_same(n, c, n.owner.contact_users[i].user.devices, u);
    }
    let all = own + theirs;
    assert(all.contains(w)) by {
        if own.contains(w) {
            let j = choose|j: int| 0 <= j < own.len() && own[j] == w;
            assert(all[j] == w);
        } else {
            assert(exists|i: int| #[trigger] sought_contact(n, i, u, pk));
            let i = choose|i: int| #[trigger] sought_contact(n, i, u, pk);
            assert(c.owner.contact_users[i].public_key == pk);
            assert(theirs.contains(w));
            let j = choose|j: int| 0 <= j < theirs.len() && theirs[j] == w;
            assert(all[own.len() + j] == w);
        }
    }
    lemma_provided(c, u, now, th);
    lemma_provided(sessions::maintained(n, cache, keys, now, times).0, u, now, th);
    if sessions::covered(c, u, now, th) {
        lemma_asked_keeps(c, need, keys, now, th, u);
    } else {
        model::lemma_keep_contains(all, sessions::uncovered(c, now, th), w);
        let i = choose|i: int| 0 <= i < need.len() && need[i] == w;
        sessions::law_nobody_is_passed_over(n, cache, keys, now, times, i);
    }
}

/// Who is sought does not hang on the requests under way.
proof fn lemma_same_search(n: NodeView, c: NodeView, cache: Seq<ResolvedHostView>, u: Uuid)
    requires
        c == (NodeView {
            owner: OwnerView {
                pending_connections: c.owner.pending_connections,
                ..n.owner
            },
            ..n
        }),
    ensures
        routing::best_address(n, cache, u) == routing::best_address(c, cache, u),
        is_server(n) == is_server(c),
{
    lemma_is_server(n);
    lemma_is_server(c);
}

proof fn lemma_sought_same(n: NodeView, c: NodeView, devices: Seq<DeviceView>, u: Uuid)
    requires
        is_server(n) == is_server(c),
        n.device_uuid == c.device_uuid,
    ensures
        sought_among(n, devices, u) == sought_among(c, devices, u),
{
    assert forall|d: DeviceView| #[trigger] opens(n, d) == opens(c, d) by {}
}

proof fn lemma_seeks(
    n: NodeView,
    cache: Seq<ResolvedHostView>,
    u: Uuid,
    addr: HostAddr,
    pk: PublicKey,
)
    ensures
        seeks(n, cache, u, addr, pk) <==> routing::best_address(n, cache, u) == Some(addr) && (u
            != n.device_uuid && pk == n.owner.key_pair.public_key && sought_among(
            n,
            n.owner.user.devices,
            u,
        ) || exists|i: int| #[trigger] sought_contact(n, i, u, pk)),
{
}

/// A signed packet asks for a session: whatever its signature, it is read as a
/// request of this device, in the name of its user.
pub open spec fn asks_session(n: NodeView, e: EffectView, addr: HostAddr) -> bool {
    match e {
        EffectView::SendSigned { key, dest, bytes } => {
            &&& key == n.owner.key_pair.private_key
            &&& dest == PeerAddr::V4(addr)
            &&& forall|signature: Seq<u8>|
                signature.len() == 64 ==> match #[trigger] sessions::parse_connect_request(
                    bytes.skip(1) + signature,
                ) {
                    Some(q) => q.device_uuid == n.device_uuid && q.longterm_pk
                        == n.owner.key_pair.public_key,
                    None => false,
                }
        },
        _ => false,
    }
}

proof fn lemma_asked(
    n: NodeView,
    need: Seq<WantedPeer>,
    keys: Seq<KeyPair>,
    now: u64,
    threshold: u64,
)
    ensures
        ({
            let (m, e) = sessions::asked_all(n, need, keys, now, threshold);
            &&& m.owner.key_pair == n.owner.key_pair
            &&& m.device_uuid == n.device_uuid
            &&& m.owner.active_connections == n.owner.active_connections
            &&& m.owner.pending_connections.len() == n.owner.pending_connections.len() + e.len()
            &&& forall|k: int|
                0 <= k < n.owner.pending_connections.len()
                    ==> #[trigger] m.owner.pending_connections[k]
                    == n.owner.pending_connections[k]
            &&& forall|k: int|
                0 <= k < e.len() ==> exists|i: int|
                    0 <= i < need.len() && asks_session(
                        n,
                        #[trigger] e[k],
                        (#[trigger] need[i]).addr,
                    ) && m.owner.pending_connections[n.owner.pending_connections.len()
                        + k].peer_device_uuid == need[i].device_uuid
            &&& forall|k: int|
                n.owner.pending_connections.len() <= k < m.owner.pending_connections.len() ==> (
                #[trigger] m.owner.pending_connections[k]).created_at == now
        }),
    decreases need.len(),
{
    if need.len() > 0 {
        let t = need.drop_last();
        let w = need.last();
        lemma_asked(n, t, keys, now, threshold);
        let (m, e) = sessions::asked_all(n, t, keys, now, threshold);
        let (k2, e2) = sessions::asked_all(n, need, keys, now, threshold);
        let base = n.owner.pending_connections.len();
        assert forall|k: int| 0 <= k < e2.len() implies exists|i: int|
            0 <= i < need.len() && asks_session(n, #[trigger] e2[k], (#[trigger] need[i]).addr)
                && k2.owner.pending_connections[base + k].peer_device_uuid == need[i].device_uuid by {
            if k < e.len() {
                let i = choose|i: int|
                    0 <= i < t.len() && asks_session(n, #[trigger] e[k], (#[trigger] t[i]).addr)
                        && m.owner.pending_connections[base + k].peer_device_uuid
                        == t[i].device_uuid;
                assert(need[i] == t[i]);
                assert(e2[k] == e[k]);
                assert(k2.owner.pending_connections[base + k] == m.owner.pending_connections[base
                    + k]);
            } else {
                let i = need.len() - 1;
                let id = ids::next_id(ids::used_ids(m.owner));
                let b = sessions::connect_request_bytes(m, id, keys[e.len() as int].public_key);
                assert forall|signature: Seq<u8>| signature.len() == 64 implies match
                    #[trigger] sessions::parse_connect_request(b.skip(1) + signature) {
                    Some(q) => q.device_uuid == n.device_uuid && q.longterm_pk
                        == n.owner.key_pair.public_key,
                    None => false,
                } by {
                    sessions::law_connect_request_roundtrip(
                        m,
                        id,
                        keys[e.len() as int].public_key,
                        signature,
                    );
                }
                assert(asks_session(n, e2[k], need[i].addr));
            }
        }
    }
}

/// A packet asks somebody for a session who is sought, where that device can be
/// reached.
pub open spec fn asks_sought(n: NodeView, cache: Seq<ResolvedHostView>, e: EffectView) -> bool {
    exists|u: Uuid, addr: HostAddr, pk: PublicKey| #[trigger]
        seeks(n, cache, u, addr, pk) && asks_session(n, e, addr)
}

/// A request waits that was made just now, or that waited before and not too long.
pub open spec fn may_wait(
    n: NodeView,
    p: PendingConnection,
    now: u64,
    times: SessionTimes,
) -> bool {
    p.created_at == now || n.owner.pending_connections.contains(p) && (p.created_at
        + times.pending_timeout > now || p.created_at > now)
}

/// Nobody is asked for a session who is not sought or who has one that lasts, and
/// a request that waited too long waits no more. Whoever was asked is looked
/// after again once the requests could have waited too long.
pub proof fn law_only_sought_are_asked(
    n: NodeView,
    cache: Seq<ResolvedHostView>,
    keys: Seq<KeyPair>,
    now: u64,
    times: SessionTimes,
)
    requires
        times.pending_timeout * 1000 + 500 <= u64::MAX,
    ensures
        ({
            let (m, e) = sessions::maintained(n, cache, keys, now, times);
            &&& e.len() == 0 || e.last() == (EffectView::Schedule {
                task: Task::MaintainConnections,
                delay_ms: (times.pending_timeout * 1000 + 500) as u64,
            })
            &&& forall|k: int|
                0 <= k < e.len() - 1 ==> asks_sought(n, cache, #[trigger] e[k])
            &&& forall|k: int|
                0 <= k < m.owner.pending_connections.len() ==> may_wait(
                    n,
                    #[trigger] m.owner.pending_connections[k],
                    now,
                    times,
                )
        }),
{
    let c = sessions::without_stale(n, now, times.pending_timeout);
    let th = times.renew_threshold;
    let need = sessions::needed(c, cache, now, times);
    let own = sessions::wanted_among(
        c,
        cache,
        c.owner.user.devices,
        c.owner.key_pair.public_key,
        Some(c.device_uuid),
    );
    let theirs = sessions::wanted_contacts(c, cache, c.owner.contact_users);
    let all = own + theirs;
    let (m, sent) = sessions::asked_all(c, need, keys, now, th);
    let e = sessions::maintained(n, cache, keys, now, times).1;
    lemma_asked(c, need, keys, now, th);
    assert forall|k: int| 0 <= k < e.len() - 1 implies asks_sought(n, cache, #[trigger] e[k]) by {
        assert(e[k] == sent[k]);
        let i = choose|i: int|
            0 <= i < need.len() && asks_session(c, #[trigger] sent[k], (#[trigger] need[i]).addr);
        let w = need[i];
        assert(need.contains(w));
        model::lemma_keep_contains(all, sessions::uncovered(c, now, th), w);
        let j = choose|j: int| 0 <= j < all.len() && all[j] == w;
        lemma_same_search(n, c, cache, w.device_uuid);
        lemma_wanted_among(
            c,
            cache,
            c.owner.user.devices,
            c.owner.key_pair.public_key,
            Some(c.device_uuid),
            w,
        );
        lemma_wanted_contacts(c, cache, c.owner.contact_users, w);
        lemma_sought_same(n, c, n.owner.user.devices, w.device_uuid);
        if j < own.len() {
            assert(own[j] == w);
            assert(own.contains(w));
        } else {
            assert(theirs[j - own.len()] == w);
            assert(theirs.contains(w));
            let l = choose|l: int|
                0 <= l < c.owner.contact_users.len() && (
                #[trigger] c.owner.contact_users[l]).public_key == w.longterm_pk && sought_among(
                    c,
                    c.owner.contact_users[l].user.devices,
                    w.device_uuid,
                );
            lemma_sought_same(n, c, n.owner.contact_users[l].user.devices, w.device_uuid);
            assert(sought_contact(n, l, w.device_uuid, w.longterm_pk));
        }
        lemma_seeks(n, cache, w.device_uuid, w.addr, w.longterm_pk);
        assert(asks_session(n, e[k], w.addr));
        assert(seeks(n, cache, w.device_uuid, w.addr, w.longterm_pk));
    }
    assert forall|k: int| 0 <= k < m.owner.pending_connections.len() implies may_wait(
        n,
        #[trigger] m.owner.pending_connections[k],
        now,
        times,
    ) by {
        let p = m.owner.pending_connections[k];
        if k < c.owner.pending_connections.len() {
            assert(c.owner.pending_connections[k] == p);
            assert(c.owner.pending_connections.contains(p));
            lemma_without_stale(n, now, times.pending_timeout, p);
        }
    }
}

/// A server of the user or of a contact.
pub open spec fn any_server(n: NodeView, u: Uuid) -> bool {
    ||| following::own_server(n, u)
    ||| exists|i: int| #[trigger] contact_serves(n, i, u)
}

/// A contact has a server with an identifier.
pub open spec fn contact_serves(n: NodeView, i: int, u: Uuid) -> bool {
    0 <= i < n.owner.contact_users.len() && serves_among(n.owner.contact_users[i].user.devices, u)
}

pub open spec fn serves_among(devices: Seq<DeviceView>, u: Uuid) -> bool {
    exists|j: int| #[trigger] election::serves(devices, j) && devices[j].uuid == u
}

proof fn lemma_serves_among(devices: Seq<DeviceView>, u: Uuid)
    ensures
        serves_among(devices, u) <==> model::any_where(devices, sessions::sg_is(u)),
{
    let p = sessions::sg_is(u);
    if serves_among(devices, u) {
        let j = choose|j: int| #[trigger] election::serves(devices, j) && devices[j].uuid == u;
        assert(p(devices[j]));
    }
    if model::any_where(devices, p) {
        let j = choose|j: int| 0 <= j < devices.len() && p(#[trigger] devices[j]);
        assert(election::serves(devices, j));
    }
}

proof fn lemma_any_server(n: NodeView, u: Uuid)
    ensures
        any_server(n, u) <==> sessions::known_sg(n.owner, u),
{
    let s = n.owner.contact_users;
    let p = sessions::contact_has_sg(u);
    lemma_serves_among(n.owner.user.devices, u);
    assert(following::own_server(n, u) <==> serves_among(n.owner.user.devices, u));
    if exists|i: int| #[trigger] contact_serves(n, i, u) {
        let i = choose|i: int| #[trigger] contact_serves(n, i, u);
        lemma_serves_among(s[i].user.devices, u);
        assert(p(s[i]));
    }
    if model::any_where(s, p) {
        let i = choose|i: int| 0 <= i < s.len() && p(#[trigger] s[i]);
        lemma_serves_among(s[i].user.devices, u);
        assert(contact_serves(n, i, u));
    }
}

/// Every session with a server that was not found down is kept alive, and no
/// other: there is one packet without a body for each, over that session.
pub proof fn law_servers_are_kept_alive(n: NodeView, conns: Seq<ActiveConnection>, c: ActiveConnection)
    ensures
        conns.contains(c) && any_server(n, c.device_uuid) && !election::found_down(
            n,
            c.device_uuid,
        ) <==> sessions::keepalives(n, conns).contains(
            EffectView::Seal { conn: c, op: DG_KEEPALIVE_OP, body: Seq::empty() },
        ),
        forall|k: int|
            0 <= k < sessions::keepalives(n, conns).len() ==> (#[trigger] sessions::keepalives(
                n,
                conns,
            )[k] matches EffectView::Seal { conn, op, body } && op == DG_KEEPALIVE_OP && body.len()
                == 0),
    decreases conns.len(),
{
    let e = EffectView::Seal { conn: c, op: DG_KEEPALIVE_OP, body: Seq::empty() };
    let all = sessions::keepalives(n, conns);
    if conns.len() > 0 {
        let t = conns.drop_last();
        let rest = sessions::keepalives(n, t);
        let last = conns[conns.len() - 1];
        law_servers_are_kept_alive(n, t, c);
        lemma_any_server(n, last.device_uuid);
        election::lemma_down(n, last.device_uuid);
        if conns.contains(c) {
            let j = choose|j: int| 0 <= j < conns.len() && conns[j] == c;
            if j < t.len() {
                assert(t[j] == c);
            }
        }
        if t.contains(c) {
            let j = choose|j: int| 0 <= j < t.len() && t[j] == c;
            assert(conns[j] == c);
        }
        if rest.contains(e) {
            let j = choose|j: int| 0 <= j < rest.len() && rest[j] == e;
            assert(all[j] == e);
        }
        if all.contains(e) {
            let j = choose|j: int| 0 <= j < all.len() && all[j] == e;
            if j < rest.len() {
                assert(rest[j] == e);
            } else {
                assert(c == last);
                assert(conns.contains(c));
            }
        }
        if all.len() > rest.len() {
            assert(all[rest.len() as int] == all.last());
        }
        assert forall|k: int| 0 <= k < all.len() implies (#[trigger] all[k] matches EffectView::Seal {
            conn,
            op,
            body,
        } && op == DG_KEEPALIVE_OP && body.len() == 0) by {
            if k < rest.len() {
                assert(all[k] == rest[k]);
            }
        }
    }
}

/// A keepalive renews the session whose identifier it bears: from then on its
/// peer is where the keepalive came from, and it lasts until the new time. All
/// other sessions stay as they are.
pub proof fn law_keepalive_renews(
    n: NodeView,
    src: PeerAddr,
    id: u16,
    tail: Seq<u8>,
    timeout: u64,
    i: int,
)
    requires
        0 <= i < n.owner.active_connections.len(),
        n.owner.active_connections[i].id == id,
        forall|j: int| 0 <= j < i ==> (#[trigger] n.owner.active_connections[j]).id != id,
    ensures
        ({
            let m = sessions::kept_alive(n, src, wire::enc_u16(id) + tail, timeout);
            let before = n.owner.active_connections;
            let after = m.owner.active_connections;
            &&& after.len() == before.len()
            &&& forall|j: int|
                0 <= j < before.len() && j != i ==> #[trigger] after[j] == before[j]
            &&& after[i].peer_addr == src
            &&& after[i].timeout == timeout
            &&& after[i].id == id
            &&& after[i].device_uuid == before[i].device_uuid
            &&& after[i].key_pair == before[i].key_pair
            &&& after[i].peer_public_key == before[i].peer_public_key
            &&& after[i].peer_active_connection_id == before[i].peer_active_connection_id
            &&& m.owner.user == n.owner.user
        }),
{
    let d = wire::enc_u16(id) + tail;
    assert(d.subrange(0, 2) =~= wire::enc_u16(id));
    wire::lemma_u16(d, 0, id);
    let s = n.owner.active_connections;
    let p = find::conn_has_id(id);
    assert(p(s[i]));
    assert forall|j: int| 0 <= j < i implies !p(#[trigger] s[j]) by {}
    model::lemma_first_at(s, p, i);
}

/// A reset drops the sessions with peers at the address it came from, and no
/// others, and leads to new ones being asked for exactly if there were any.
pub proof fn law_reset_drops_the_peer(n: NodeView, from: HostAddr, c: ActiveConnection)
    ensures
        ({
            let (m, e) = sessions::reset(n, PeerAddr::V4(from));
            let before = n.owner.active_connections;
            let there = |x: ActiveConnection|
                x.peer_addr matches PeerAddr::V4(h) && h.ip == from.ip;
            &&& m.owner.active_connections.contains(c) <==> before.contains(c) && !there(c)
            &&& e.len() <= 1
            &&& e.len() == 1 ==> e[0] == (EffectView::Schedule {
                task: Task::MaintainConnections,
                delay_ms: 0,
            })
            &&& before.contains(c) && there(c) ==> e.len() == 1
            &&& e.len() == 1 ==> m.owner.active_connections.len() < before.len()
        }),
{
    let p = sessions::elsewhere(from.ip);
    let s = n.owner.active_connections;
    let left = model::keep(s, p);
    model::lemma_keep_contains(s, p, c);
    if s.contains(c) && !p(c) && left.len() >= s.len() {
        lemma_kept_len(s, p);
        model::lemma_keep_same_len(s, p);
        assert(left.contains(c));
    }
}

proof fn lemma_kept_len<T>(s: Seq<T>, p: spec_fn(T) -> bool)
    ensures
        model::keep(s, p).len() <= s.len(),
    decreases s.len(),
{
    if s.len() > 0 {
        lemma_kept_len(s.drop_last(), p);
    }
}

proof fn lemma_server_targets(devices: Seq<DeviceView>, except: Option<Uuid>, t: PollTargetView)
    ensures
        sessions::server_targets(devices, except).contains(t) <==> except != Some(t.device_uuid)
            && hosted(devices, t),
    decreases devices.len(),
{
    let all = sessions::server_targets(devices, except);
    if devices.len() > 0 {
        let ds = devices.drop_last();
        let d = devices[devices.len() - 1];
        let rest = sessions::server_targets(ds, except);
        let more = sessions::targets_of(d);
        lemma_server_targets(ds, except, t);
        if hosted(ds, t) {
            let (j, h) = choose|j: int, h: int| #[trigger] host_of(ds, t, j, h);
            assert(host_of(devices, t, j, h));
        }
        if hosted(devices, t) {
            let (j, h) = choose|j: int, h: int| #[trigger] host_of(devices, t, j, h);
            if j < ds.len() {
                assert(host_of(ds, t, j, h));
            } else if except != Some(d.uuid) {
                assert(more[h] == t);
                assert(all[rest.len() + h] == t);
            }
        }
        if rest.contains(t) {
            let k = choose|k: int| 0 <= k < rest.len() && rest[k] == t;
            assert(all[k] == t);
        }
        if all.contains(t) {
            let k = choose|k: int| 0 <= k < all.len() && all[k] == t;
            if k < rest.len() {
                assert(rest[k] == t);
            } else {
                assert(more[k - rest.len()] == t);
                assert(host_of(devices, t, devices.len() - 1, k - rest.len()));
            }
        }
    } else {
        assert(!hosted(devices, t));
    }
}

/// A target is a host of a server among some devices.
pub open spec fn host_of(devices: Seq<DeviceView>, t: PollTargetView, j: int, h: int) -> bool {
    &&& election::serves(devices, j)
    &&& devices[j].uuid == t.device_uuid
    &&& 0 <= h < devices[j].hosts.len()
    &&& devices[j].hosts[h] == t.host
}

pub open spec fn hosted(devices: Seq<DeviceView>, t: PollTargetView) -> bool {
    exists|j: int, h: int| #[trigger] host_of(devices, t, j, h)
}

proof fn lemma_contact_targets(contacts: Seq<ContactView>, t: PollTargetView)
    ensures
        sessions::contact_targets(contacts).contains(t) <==> exists|i: int|
            0 <= i < contacts.len() && hosted((#[trigger] contacts[i]).user.devices, t),
    decreases contacts.len(),
{
    let all = sessions::contact_targets(contacts);
    if contacts.len() > 0 {
        let cs = contacts.drop_last();
        let c = contacts[contacts.len() - 1];
        let rest = sessions::contact_targets(cs);
        let more = sessions::server_targets(c.user.devices, None);
        lemma_contact_targets(cs, t);
        lemma_server_targets(c.user.devices, None, t);
        if rest.contains(t) {
            let k = choose|k: int| 0 <= k < rest.len() && rest[k] == t;
            assert(all[k] == t);
            let i = choose|i: int|
                0 <= i < cs.len() && hosted((#[trigger] cs[i]).user.devices, t);
            assert(contacts[i] == cs[i]);
        }
        if more.contains(t) {
            let k = choose|k: int| 0 <= k < more.len() && more[k] == t;
            assert(all[rest.len() + k] == t);
            assert(hosted(contacts[contacts.len() - 1].user.devices, t));
        }
        if all.contains(t) {
            let k = choose|k: int| 0 <= k < all.len() && all[k] == t;
            if k < rest.len() {
                assert(rest[k] == t);
            } else {
                assert(more[k - rest.len()] == t);
            }
        }
        if exists|i: int| 0 <= i < contacts.len() && hosted((#[trigger] contacts[i]).user.devices, t) {
            let i = choose|i: int|
                0 <= i < contacts.len() && hosted((#[trigger] contacts[i]).user.devices, t);
            if i < cs.len() {
                assert(cs[i] == contacts[i]);
            }
        }
    }
}

/// Every host of every server of the user, but of this device, and of every
/// server of every contact is polled, and nothing else is.
pub proof fn law_servers_are_polled(n: NodeView, t: PollTargetView)
    ensures
        (sessions::server_targets(n.owner.user.devices, Some(n.device_uuid))
            + sessions::contact_targets(n.owner.contact_users)).contains(t) <==> t.device_uuid
            != n.device_uuid && hosted(n.owner.user.devices, t) || exists|i: int|
            0 <= i < n.owner.contact_users.len() && hosted(
                (#[trigger] n.owner.contact_users[i]).user.devices,
                t,
            ),
{
    let a = sessions::server_targets(n.owner.user.devices, Some(n.device_uuid));
    let b = sessions::contact_targets(n.owner.contact_users);
    lemma_server_targets(n.owner.user.devices, Some(n.device_uuid), t);
    lemma_contact_targets(n.owner.contact_users, t);
    if a.contains(t) {
        let k = choose|k: int| 0 <= k < a.len() && a[k] == t;
        assert((a + b)[k] == t);
    }
    if b.contains(t) {
        let k = choose|k: int| 0 <= k < b.len() && b[k] == t;
        assert((a + b)[a.len() + k] == t);
    }
    if (a + b).contains(t) {
        let k = choose|k: int| 0 <= k < (a + b).len() && (a + b)[k] == t;
        if k < a.len() {
            assert(a[k] == t);
        } else {
            assert(b[k - a.len()] == t);
        }
    }
}

/// What polling a host found is on record afterwards: up with the time it took if
/// it answered, and down if not. What is on record of other hosts stays.
pub proof fn law_poll_is_recorded(
    list: Seq<SgHostStatusView>,
    u: Uuid,
    host: Seq<char>,
    rtt: Option<u64>,
    now: u64,
)
    ensures
        ({
            let after = sessions::with_status(list, u, host, rtt, now);
            &&& exists|i: int|
                0 <= i < after.len() && (#[trigger] after[i]).device_uuid == u && after[i].host
                    == host && after[i].status.up == (rtt is Some) && after[i].status.last_rtt
                    == rtt && after[i].status.last_polled == now
            &&& list.len() <= after.len() <= list.len() + 1
            &&& forall|i: int|
                0 <= i < list.len() && !((#[trigger] list[i]).device_uuid == u && list[i].host
                    == host) ==> after[i] == list[i]
            &&& after.len() > list.len() <==> forall|i: int|
                0 <= i < list.len() ==> !((#[trigger] list[i]).device_uuid == u && list[i].host
                    == host)
        }),
{
    let p = sessions::status_at(u, host);
    let after = sessions::with_status(list, u, host, rtt, now);
    model::lemma_first_where(list, p);
    match model::first_where(list, p) {
        Some(i) => {
            assert(p(list[i]));
            assert(after[i].device_uuid == u);
        },
        None => {
            assert(after[list.len() as int].device_uuid == u);
            assert forall|i: int| 0 <= i < list.len() implies !((#[trigger] list[i]).device_uuid == u
                && list[i].host == host) by {
                assert(!p(list[i]));
            }
        },
    }
}

/// A request for a session and an acknowledgement lead to nothing without a good
/// signature.
pub proof fn law_unsigned_is_unheard(
    n: NodeView,
    src: PeerAddr,
    d: Seq<u8>,
    fresh: KeyPair,
    now: u64,
    times: SessionTimes,
)
    ensures
        sessions::request_taken(n, src, d, false, fresh, now, times) == (
            n,
            Seq::<EffectView>::empty(),
        ),
        sessions::ack_taken(n, src, d, false, now, times) == (n, Seq::<EffectView>::empty()),
{
}

/// A device that is vouched for and signs its request gets a session under the
/// identifier it asked with, and an answer where it asked from.
pub proof fn law_signed_request_is_heard(
    a: NodeView,
    b: NodeView,
    id: u16,
    pk: PublicKey,
    signature: Seq<u8>,
    src: PeerAddr,
    fresh: KeyPair,
    now: u64,
    times: SessionTimes,
)
    requires
        signature.len() == 64,
        holds(b, a.owner.key_pair.public_key, a.device_uuid),
        b.owner.active_connections.len() + b.owner.pending_connections.len() < 65536,
        now + times.lifetime <= u64::MAX,
    ensures
        ({
            let d = sessions::connect_request_bytes(a, id, pk).skip(1) + signature;
            let (m, e) = sessions::request_taken(b, src, d, true, fresh, now, times);
            let c = m.owner.active_connections.last();
            &&& only_session(b, m, c)
            &&& c.device_uuid == a.device_uuid
            &&& c.peer_active_connection_id == id
            &&& c.peer_public_key == pk
            &&& e.len() >= 1
            &&& acknowledges(b, e[0], src, c)
        }),
{
    sessions::law_connect_request_roundtrip(a, id, pk, signature);
    let q = ConnectRequest {
        conn_id: id,
        device_uuid: a.device_uuid,
        ephemeral_pk: pk,
        longterm_pk: a.owner.key_pair.public_key,
    };
    law_known_devices_get_a_session(b, src, q, fresh, now, times);
}

/// A signed acknowledgement turns the request that waited for it into a session
/// with the device that was asked.
pub proof fn law_signed_ack_is_heard(
    n: NodeView,
    k: int,
    own_id: u16,
    peer_id: u16,
    pk: PublicKey,
    signature: Seq<u8>,
    src: PeerAddr,
    now: u64,
    times: SessionTimes,
)
    requires
        signature.len() == 64,
        waits(n, own_id, k),
        now + times.lifetime <= u64::MAX,
    ensures
        ({
            let d = sessions::connect_ack_bytes(peer_id, own_id, pk).skip(1) + signature;
            let m = sessions::ack_taken(n, src, d, true, now, times).0;
            let c = m.owner.active_connections.last();
            &&& only_session(n, m, c)
            &&& c.id == own_id
            &&& c.device_uuid == n.owner.pending_connections[k].peer_device_uuid
            &&& c.peer_active_connection_id == peer_id
            &&& c.peer_public_key == pk
        }),
{
    sessions::law_connect_ack_roundtrip(peer_id, own_id, pk, signature);
    let q = ConnectAck { responder_conn_id: peer_id, our_conn_id: own_id, ephemeral_pk: pk };
    law_request_becomes_a_session(n, src, q, k, 0, now, times);
}

/// A sign of life that cannot be decrypted changes nothing, and its sender is told
/// in one packet that the session is gone.
pub proof fn law_lost_session_is_reset(n: NodeView, src: PeerAddr, d: Seq<u8>, timeout: u64)
    ensures
        ({
            let (m, e) = sessions::keepalive_taken(n, src, d, false, timeout);
            &&& m == n
            &&& e.len() == 1
            &&& e[0] matches EffectView::Send { dest, bytes } && dest == src
                && dispatch::packet_of(bytes) == Some(dispatch::Packet::ConnReset)
        }),
        ({
            let (m, e) = sessions::keepalive_taken(n, src, d, true, timeout);
            &&& m == sessions::kept_alive(n, src, d, timeout)
            &&& e.len() == 0
        }),
{
    dispatch::law_first_byte_says(seq![wire::CONN_RESET_OP]);
}

/// A server sends no signs of life. A device that is none sends one over a session
/// exactly if it is with a server that was not found down.
pub proof fn law_devices_keep_alive(n: NodeView, i: int, c: ActiveConnection)
    requires
        outcomes::device_at(n.owner, n.device_uuid, i),
    ensures
        n.owner.user.devices[i].grade == DeviceGrade::SG ==> sessions::keepalives_due(n).len() == 0,
        n.owner.user.devices[i].grade == DeviceGrade::DG ==> (
        n.owner.active_connections.contains(c) && any_server(n, c.device_uuid)
            && !election::found_down(n, c.device_uuid) <==> sessions::keepalives_due(n).contains(
            EffectView::Seal { conn: c, op: DG_KEEPALIVE_OP, body: Seq::empty() },
        )),
{
    outcomes::lemma_device_at(n.owner, n.device_uuid, i);
    law_servers_are_kept_alive(n, n.owner.active_connections, c);
}

} // verus!
