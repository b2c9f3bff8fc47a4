//! The life of sessions: the handshake, keeping them up, polling servers,
//! keepalives and resets.
use crate::cross_user;
use crate::cross_user::cross_user_pull_on_reconnect;
use crate::effects::{push_all, Effect, EffectView, Task};
use crate::find;
use crate::find::{find_conn, find_device};
use crate::ids;
use crate::ids::{allocate_conn_id, put_conn};
use crate::keys;
use crate::model;
use crate::order;
use crate::order::uuid_lt;
use crate::reconcile;
use crate::reconcile::partition_reconcile_on_reconnect;
use crate::routing;
use crate::routing::{
    best_address_for_device, ipv4_from, is_polled_down, ResolvedHost, ResolvedHostView,
};
use crate::sync;
use crate::sync::sync_pull;
use crate::types::{
    key_eq, uuid_eq, ActiveConnection, ContactView, Device, DeviceGrade, DeviceView, HostAddr, Ipv4,
    KeyPair, Node, NodeView, OwnerView, PeerAddr, PendingConnection, PublicKey, Scope, SgHostStatus,
    SgHostStatusView, SgStatus, Uuid,
};
use crate::wire;
use crate::wire::{
    bytes_of, push_bytes, push_key, push_u16, push_uuid, read_key, read_u16, read_uuid,
    CONNECT_ACK_OP, CONNECT_REQUEST_OP, CONN_RESET_OP, DG_KEEPALIVE_OP, SG_PING_OP, SG_PONG_OP,
    WATERMARK_PROBE_REQUEST_OP,
};
use vstd::prelude::*;

verus! {

/// How many bytes a connection request has behind its op byte, at least.
pub const CONNECT_REQUEST_MIN_LEN: usize = 146;

/// How many bytes an acknowledgement has behind its op byte, at least.
pub const CONNECT_ACK_MIN_LEN: usize = 100;

/// The times that sessions go by, in seconds: how long one lasts, how long an
/// unanswered request stands, and how long before its end one is renewed.
#[derive(Clone, Copy, PartialEq, Eq, Debug, Structural)]
pub struct SessionTimes {
    pub lifetime: u64,
    pub pending_timeout: u64,
    pub renew_threshold: u64,
}

pub open spec fn contact_with_key_and_device(pk: PublicKey, u: Uuid) -> spec_fn(
    ContactView,
) -> bool {
    |c: ContactView| c.public_key == pk && model::any_where(c.user.devices, find::device_is(u))
}

/// The device `u` belongs to the holder of the key `pk`.
pub open spec fn vouched(o: OwnerView, pk: PublicKey, u: Uuid) -> bool {
    ||| o.key_pair.public_key == pk && model::any_where(o.user.devices, find::device_is(u))
    ||| model::any_where(o.contact_users, contact_with_key_and_device(pk, u))
}

/// The device, if it belongs to the holder of the key.
pub fn find_device_uuid_for_pk(node: &Node, longterm_pk: &PublicKey, device_uuid: &Uuid) -> (r:
    Option<Uuid>)
    ensures
        r == if vouched(node@.owner, *longterm_pk, *device_uuid) {
            Some(*device_uuid)
        } else {
            None
        },
{
    broadcast use model::group_views;

    proof {
        model::lemma_first_where(node@.owner.user.devices, find::device_is(*device_uuid));
    }
    if key_eq(&node.owner.key_pair.public_key, longterm_pk) {
        if find_device(&node.owner.user.devices, device_uuid).is_some() {
            return Some(*device_uuid);
        }
    }
    let ghost cs = node@.owner.contact_users;
    let ghost p = contact_with_key_and_device(*longterm_pk, *device_uuid);
    let mut i: usize = 0;
    while i < node.owner.contact_users.len()
        invariant
            i <= node.owner.contact_users@.len(),
            cs == node@.owner.contact_users,
            p == contact_with_key_and_device(*longterm_pk, *device_uuid),
            forall|j: int| 0 <= j < i ==> !p(#[trigger] cs[j]),
        decreases node.owner.contact_users@.len() - i,
    {
        let c = &node.owner.contact_users[i];
        proof {
            model::lemma_first_where(c@.user.devices, find::device_is(*device_uuid));
        }
        if key_eq(&c.public_key, longterm_pk) {
            if find_device(&c.user.devices, device_uuid).is_some() {
                assert(p(cs[i as int]));
                return Some(*device_uuid);
            }
        }
        i += 1;
    }
    None
}

/// Answers a ping with its nonce.
pub fn sg_ping(src: PeerAddr, nonce: &Uuid) -> (r: Vec<Effect>)
    ensures
        model::views(r@) == seq![EffectView::Send { dest: src, bytes: seq![SG_PONG_OP] + nonce@ }],
{
    broadcast use model::group_views;

    let mut bytes: Vec<u8> = Vec::new();
    bytes.push(SG_PONG_OP);
    push_uuid(&mut bytes, nonce);
    let mut out: Vec<Effect> = Vec::new();
    assert(bytes@ =~= seq![SG_PONG_OP] + nonce@);
    out.push(Effect::Send { dest: src, bytes });
    assert(model::views(out@) =~= seq![
        EffectView::Send { dest: src, bytes: seq![SG_PONG_OP] + nonce@ },
    ]);
    out
}

/// A ping.
pub fn ping_packet(nonce: &Uuid) -> (r: Vec<u8>)
    ensures
        r@ == seq![SG_PING_OP] + nonce@,
{
    let mut bytes: Vec<u8> = Vec::new();
    bytes.push(SG_PING_OP);
    push_uuid(&mut bytes, nonce);
    assert(bytes@ =~= seq![SG_PING_OP] + nonce@);
    bytes
}

/// Whether a datagram answers the ping with the nonce.
pub fn is_pong(data: &[u8], nonce: &Uuid) -> (r: bool)
    ensures
        r == (data@.len() >= 17 && data@.take(17) == seq![SG_PONG_OP] + nonce@),
{
    if data.len() < 17 {
        return false;
    }
    let mut pos: usize = 1;
    let u = match read_uuid(data, &mut pos) {
        Some(u) => u,
        None => {
            return false;
        },
    };
    proof {
        let t = data@.take(17);
        let e = seq![SG_PONG_OP] + nonce@;
        let w = data@.subrange(1, 17);
        assert(t.skip(1) =~= w);
        assert(e.skip(1) =~= nonce@);
        wire::lemma_uuid_of(*nonce);
        if t == e {
            assert(w == nonce@);
        }
        if data@[0] == SG_PONG_OP && u == *nonce {
            lemma_uuid_bytes_of(data@, 1);
            assert(t =~= e);
        }
        assert(t[0] == data@[0]);
        assert(e[0] == SG_PONG_OP);
    }
    data[0] == SG_PONG_OP && uuid_eq(&u, nonce)
}

/// The identifier read from 16 bytes has those bytes.
proof fn lemma_uuid_bytes_of(d: Seq<u8>, p: int)
    requires
        0 <= p,
        p + 16 <= d.len(),
    ensures
        wire::uuid_of(d.subrange(p, p + 16))@ == d.subrange(p, p + 16),
{
    let s = d.subrange(p, p + 16);
    let a: Uuid = [
        s[0], s[1], s[2], s[3], s[4], s[5], s[6], s[7], s[8], s[9], s[10], s[11], s[12], s[13],
        s[14], s[15],
    ];
    assert(a@ =~= s);
}

/// A connection request as it stands behind its op byte.
#[derive(Clone, Copy, PartialEq, Eq, Debug)]
pub struct ConnectRequest {
    pub conn_id: u16,
    pub device_uuid: Uuid,
    pub ephemeral_pk: PublicKey,
    pub longterm_pk: PublicKey,
}

/// The fields of a connection request.
pub open spec fn parse_connect_request(d: Seq<u8>) -> Option<ConnectRequest> {
    if d.len() < CONNECT_REQUEST_MIN_LEN {
        None
    } else {
        Some(
            ConnectRequest {
                conn_id: (d[0] * 256 + d[1]) as u16,
                device_uuid: wire::uuid_of(d.subrange(2, 18)),
                ephemeral_pk: wire::key_of(d.subrange(18, 50)),
                longterm_pk: wire::key_of(d.subrange(50, 82)),
            },
        )
    }
}

/// Reads a connection request; `None` if it is too short.
pub fn read_connect_request(data: &[u8]) -> (r: Option<ConnectRequest>)
    ensures
        r == parse_connect_request(data@),
{
    if data.len() < CONNECT_REQUEST_MIN_LEN {
        return None;
    }
    let mut pos: usize = 0;
    let conn_id: u16 = match read_u16(data, &mut pos) {
        Some(x) => x,
        None => { return None; },
    };
    let device_uuid = match read_uuid(data, &mut pos) {
        Some(x) => x,
        None => { return None; },
    };
    let ephemeral_pk = match read_key(data, &mut pos) {
        Some(x) => x,
        None => { return None; },
    };
    let longterm_pk = match read_key(data, &mut pos) {
        Some(x) => x,
        None => { return None; },
    };
    Some(ConnectRequest { conn_id, device_uuid, ephemeral_pk, longterm_pk })
}

/// What has to be verified of a signed packet: who signed it, what was signed
/// and the signature.
#[derive(Debug, PartialEq, Eq)]
pub struct SignedPart {
    pub signer: PublicKey,
    pub message: Vec<u8>,
    pub signature: Vec<u8>,
}

#[verifier::ext_equal]
pub struct SignedPartView {
    pub signer: PublicKey,
    pub message: Seq<u8>,
    pub signature: Seq<u8>,
}

impl View for SignedPart {
    type V = SignedPartView;

    open spec fn view(&self) -> SignedPartView {
        SignedPartView {
            signer: self.signer,
            message: self.message@,
            signature: self.signature@,
        }
    }
}

/// The signature of a connection request: by the long-term key in it, over the
/// op byte and the fields.
pub fn connect_request_signature(data: &[u8]) -> (r: Option<SignedPart>)
    ensures
        match parse_connect_request(data@) {
            Some(q) => r matches Some(s) && s@ == (SignedPartView {
                signer: q.longterm_pk,
                message: seq![CONNECT_REQUEST_OP] + data@.take(82),
                signature: data@.subrange(82, 146),
            }),
            None => r is None,
        },
{
    match read_connect_request(data) {
        Some(q) => {
            let mut message: Vec<u8> = Vec::new();
            message.push(CONNECT_REQUEST_OP);
            push_bytes(&mut message, &data[0..82]);
            assert(data@.subrange(0, 82) =~= data@.take(82));
            assert(message@ =~= seq![CONNECT_REQUEST_OP] + data@.take(82));
            Some(SignedPart { signer: q.longterm_pk, message, signature: bytes_of(data, 82, 146) })
        },
        None => None,
    }
}

/// An acknowledgement, without its signature.
pub open spec fn connect_ack_bytes(own_id: u16, peer_id: u16, pk: PublicKey) -> Seq<u8> {
    seq![CONNECT_ACK_OP] + wire::enc_u16(own_id) + wire::enc_u16(peer_id) + pk@
}

/// What a connection request leads to: a known device gets a session, in place
/// of any older one, and an acknowledgement; others get nothing.
pub open spec fn connect_requested(
    n: NodeView,
    src: PeerAddr,
    q: ConnectRequest,
    fresh: KeyPair,
    now: u64,
    times: SessionTimes,
) -> (NodeView, Seq<EffectView>) {
    if !vouched(n.owner, q.longterm_pk, q.device_uuid) {
        (n, Seq::empty())
    } else {
        let id = ids::next_id(ids::used_ids(n.owner));
        let conn = ActiveConnection {
            id,
            timeout: (now + times.lifetime) as u64,
            key_pair: fresh,
            peer_public_key: q.ephemeral_pk,
            peer_active_connection_id: q.conn_id,
            device_uuid: q.device_uuid,
            peer_addr: src,
        };
        let m = NodeView {
            owner: OwnerView {
                active_connections: ids::with_conn(n.owner.active_connections, conn, true),
                ..n.owner
            },
            ..n
        };
        (
            m,
            seq![
                EffectView::SendSigned {
                    key: n.owner.key_pair.private_key,
                    dest: src,
                    bytes: connect_ack_bytes(id, q.conn_id, fresh.public_key),
                },
            ] + sync::sealed(
                reconcile::peer_server(m, id),
                WATERMARK_PROBE_REQUEST_OP,
                seq![wire::scope_byte(Scope::Public)],
            ),
        )
    }
}

/// What a packet that asks for a session leads to, by what its signature is worth.
pub open spec fn request_taken(
    n: NodeView,
    src: PeerAddr,
    d: Seq<u8>,
    signature_ok: bool,
    fresh: KeyPair,
    now: u64,
    times: SessionTimes,
) -> (NodeView, Seq<EffectView>) {
    match parse_connect_request(d) {
        Some(q) if signature_ok => connect_requested(n, src, q, fresh, now, times),
        _ => (n, Seq::empty()),
    }
}

/// Answers a connection request. `signature_ok` tells whether its signature
/// holds, `fresh` is a new key pair for the session.
pub fn connect_request(
    node: &mut Node,
    src: PeerAddr,
    data: &[u8],
    signature_ok: bool,
    fresh: KeyPair,
    now: u64,
    times: SessionTimes,
) -> (r: Vec<Effect>)
    requires
        old(node).owner.active_connections@.len() + old(node).owner.pending_connections@.len()
            < 65536,
        now + times.lifetime <= u64::MAX,
    ensures
        (final(node)@, model::views(r@)) == request_taken(
            old(node)@,
            src,
            data@,
            signature_ok,
            fresh,
            now,
            times,
        ),
        keys::keyed(old(node)@) ==> keys::keyed(final(node)@),
{
    broadcast use model::group_views;

    proof {
        if let Some(q) = parse_connect_request(data@) {
            if keys::keyed(node@) {
                keys::lemma_connect_requested(node@, src, q, fresh, now, times);
            }
        }
    }
    let q = match read_connect_request(data) {
        Some(q) => q,
        None => {
            return Vec::new();
        },
    };
    if !signature_ok {
        return Vec::new();
    }
    if find_device_uuid_for_pk(node, &q.longterm_pk, &q.device_uuid).is_none() {
        return Vec::new();
    }
    let id: u16 = allocate_conn_id(node);
    let conn = ActiveConnection {
        id,
        timeout: now + times.lifetime,
        key_pair: fresh,
        peer_public_key: q.ephemeral_pk,
        peer_active_connection_id: q.conn_id,
        device_uuid: q.device_uuid,
        peer_addr: src,
    };
    put_conn(&mut node.owner.active_connections, conn, true);
    let mut bytes: Vec<u8> = Vec::new();
    bytes.push(CONNECT_ACK_OP);
    push_u16(&mut bytes, id);
    push_u16(&mut bytes, q.conn_id);
    push_key(&mut bytes, &fresh.public_key);
    assert(bytes@ =~= connect_ack_bytes(id, q.conn_id, fresh.public_key));
    let mut out: Vec<Effect> = Vec::new();
    out.push(Effect::SendSigned { key: node.owner.key_pair.private_key, dest: src, bytes });
    push_all(&mut out, partition_reconcile_on_reconnect(node, id));
    assert(model::views(out@) =~= connect_requested(old(node)@, src, q, fresh, now, times).1);
    out
}

/// An acknowledgement as it stands behind its op byte.
#[derive(Clone, Copy, PartialEq, Eq, Debug)]
pub struct ConnectAck {
    pub responder_conn_id: u16,
    pub our_conn_id: u16,
    pub ephemeral_pk: PublicKey,
}

/// The fields of an acknowledgement.
pub open spec fn parse_connect_ack(d: Seq<u8>) -> Option<ConnectAck> {
    if d.len() < CONNECT_ACK_MIN_LEN {
        None
    } else {
        Some(
            ConnectAck {
                responder_conn_id: (d[0] * 256 + d[1]) as u16,
                our_conn_id: (d[2] * 256 + d[3]) as u16,
                ephemeral_pk: wire::key_of(d.subrange(4, 36)),
            },
        )
    }
}

/// Reads an acknowledgement; `None` if it is too short.
pub fn read_connect_ack(data: &[u8]) -> (r: Option<ConnectAck>)
    ensures
        r == parse_connect_ack(data@),
{
    if data.len() < CONNECT_ACK_MIN_LEN {
        return None;
    }
    let mut pos: usize = 0;
    let responder_conn_id: u16 = match read_u16(data, &mut pos) {
        Some(x) => x,
        None => { return None; },
    };
    let our_conn_id: u16 = match read_u16(data, &mut pos) {
        Some(x) => x,
        None => { return None; },
    };
    let ephemeral_pk = match read_key(data, &mut pos) {
        Some(x) => x,
        None => { return None; },
    };
    Some(ConnectAck { responder_conn_id, our_conn_id, ephemeral_pk })
}

pub open spec fn pending_has_id(id: u16) -> spec_fn(PendingConnection) -> bool {
    |p: PendingConnection| p.our_conn_id == id
}

pub open spec fn pending_has_not_id(id: u16) -> spec_fn(PendingConnection) -> bool {
    |p: PendingConnection| p.our_conn_id != id
}

/// The request that is waiting under an identifier.
pub open spec fn awaited(n: NodeView, id: u16) -> Option<PendingConnection> {
    match model::first_where(n.owner.pending_connections, pending_has_id(id)) {
        Some(i) => Some(n.owner.pending_connections[i]),
        None => None,
    }
}

/// The request that is waiting under an identifier.
pub fn find_awaited(node: &Node, id: u16) -> (r: Option<PendingConnection>)
    ensures
        r == awaited(node@, id),
{
    let v = &node.owner.pending_connections;
    let mut i: usize = 0;
    while i < v.len()
        invariant
            i <= v@.len(),
            v@ == node@.owner.pending_connections,
            forall|j: int| 0 <= j < i ==> !pending_has_id(id)(#[trigger] v@[j]),
        decreases v@.len() - i,
    {
        if v[i].our_conn_id == id {
            proof {
                assert(pending_has_id(id)(v@[i as int]));
                model::lemma_first_at(v@, pending_has_id(id), i as int);
            }
            return Some(v[i]);
        }
        i += 1;
    }
    proof {
        model::lemma_first_none(v@, pending_has_id(id));
    }
    None
}

fn drop_awaited(v: &mut Vec<PendingConnection>, id: u16)
    ensures
        final(v)@ == model::keep(old(v)@, pending_has_not_id(id)),
{
    let ghost s = v@;
    let mut out: Vec<PendingConnection> = Vec::new();
    let mut i: usize = 0;
    assert(out@ =~= model::keep(s.take(0), pending_has_not_id(id)));
    while i < v.len()
        invariant
            i <= v@.len(),
            s == v@,
            out@ == model::keep(s.take(i as int), pending_has_not_id(id)),
        decreases v@.len() - i,
    {
        if v[i].our_conn_id != id {
            out.push(v[i]);
        }
        proof {
            model::lemma_keep_step(s, pending_has_not_id(id), i as int);
        }
        i += 1;
    }
    assert(s.take(s.len() as int) =~= s);
    *v = out;
}

/// The signature of an acknowledgement: by the peer that was asked, over the op
/// byte and the fields. `None` if it is too short or answers no request.
pub fn connect_ack_signature(node: &Node, data: &[u8]) -> (r: Option<SignedPart>)
    ensures
        match parse_connect_ack(data@) {
            Some(q) => match awaited(node@, q.our_conn_id) {
                Some(p) => r matches Some(s) && s@ == (SignedPartView {
                    signer: p.peer_longterm_pk,
                    message: seq![CONNECT_ACK_OP] + data@.take(36),
                    signature: data@.subrange(36, 100),
                }),
                None => r is None,
            },
            None => r is None,
        },
{
    match read_connect_ack(data) {
        Some(q) => match find_awaited(node, q.our_conn_id) {
            Some(p) => {
                let mut message: Vec<u8> = Vec::new();
                message.push(CONNECT_ACK_OP);
                push_bytes(&mut message, &data[0..36]);
                assert(data@.subrange(0, 36) =~= data@.take(36));
                assert(message@ =~= seq![CONNECT_ACK_OP] + data@.take(36));
                Some(
                    SignedPart {
                        signer: p.peer_longterm_pk,
                        message,
                        signature: bytes_of(data, 36, 100),
                    },
                )
            },
            None => None,
        },
        None => None,
    }
}

/// What an acknowledgement leads to: the request becomes a session, in place of
/// any older one with the device, and this node catches up over it.
pub open spec fn connect_acked(
    n: NodeView,
    src: PeerAddr,
    q: ConnectAck,
    now: u64,
    times: SessionTimes,
) -> (NodeView, Seq<EffectView>) {
    match awaited(n, q.our_conn_id) {
        None => (n, Seq::empty()),
        Some(p) => {
            let conn = ActiveConnection {
                id: q.our_conn_id,
                timeout: (now + times.lifetime) as u64,
                key_pair: p.our_key_pair,
                peer_public_key: q.ephemeral_pk,
                peer_active_connection_id: q.responder_conn_id,
                device_uuid: p.peer_device_uuid,
                peer_addr: src,
            };
            let m = NodeView {
                owner: OwnerView {
                    active_connections: ids::with_conn(n.owner.active_connections, conn, true),
                    pending_connections: model::keep(
                        n.owner.pending_connections,
                        pending_has_not_id(q.our_conn_id),
                    ),
                    ..n.owner
                },
                ..n
            };
            (
                m,
                sync::pulls(m) + cross_user::contact_pull(m, q.our_conn_id) + sync::sealed(
                    reconcile::peer_server(m, q.our_conn_id),
                    WATERMARK_PROBE_REQUEST_OP,
                    seq![wire::scope_byte(Scope::Public)],
                ),
            )
        },
    }
}

/// What a packet that acknowledges a session leads to, by what its signature is
/// worth.
pub open spec fn ack_taken(
    n: NodeView,
    src: PeerAddr,
    d: Seq<u8>,
    signature_ok: bool,
    now: u64,
    times: SessionTimes,
) -> (NodeView, Seq<EffectView>) {
    match parse_connect_ack(d) {
        Some(q) if signature_ok => connect_acked(n, src, q, now, times),
        _ => (n, Seq::empty()),
    }
}

/// Takes an acknowledgement. `signature_ok` tells whether its signature holds;
/// without it the request goes on waiting.
pub fn connect_ack(
    node: &mut Node,
    src: PeerAddr,
    data: &[u8],
    signature_ok: bool,
    now: u64,
    times: SessionTimes,
) -> (r: Vec<Effect>)
    requires
        now + times.lifetime <= u64::MAX,
    ensures
        (final(node)@, model::views(r@)) == ack_taken(
            old(node)@,
            src,
            data@,
            signature_ok,
            now,
            times,
        ),
        keys::keyed(old(node)@) ==> keys::keyed(final(node)@),
{
    broadcast use model::group_views;

    proof {
        if let Some(q) = parse_connect_ack(data@) {
            if keys::keyed(node@) {
                keys::lemma_connect_acked(node@, src, q, now, times);
            }
        }
    }
    let q = match read_connect_ack(data) {
        Some(q) => q,
        None => {
            return Vec::new();
        },
    };
    if !signature_ok {
        return Vec::new();
    }
    let p = match find_awaited(node, q.our_conn_id) {
        Some(p) => p,
        None => {
            return Vec::new();
        },
    };
    drop_awaited(&mut node.owner.pending_connections, q.our_conn_id);
    let conn = ActiveConnection {
        id: q.our_conn_id,
        timeout: now + times.lifetime,
        key_pair: p.our_key_pair,
        peer_public_key: q.ephemeral_pk,
        peer_active_connection_id: q.responder_conn_id,
        device_uuid: p.peer_device_uuid,
        peer_addr: src,
    };
    put_conn(&mut node.owner.active_connections, conn, true);
    let mut out = sync_pull(node);
    push_all(&mut out, cross_user_pull_on_reconnect(node, q.our_conn_id));
    push_all(&mut out, partition_reconcile_on_reconnect(node, q.our_conn_id));
    assert(model::views(out@) =~= connect_acked(old(node)@, src, q, now, times).1);
    out
}

/// A host of a server, to be polled.
#[derive(Debug, PartialEq, Eq)]
pub struct PollTarget {
    pub device_uuid: Uuid,
    pub host: String,
}

#[verifier::ext_equal]
pub struct PollTargetView {
    pub device_uuid: Uuid,
    pub host: Seq<char>,
}

impl View for PollTarget {
    type V = PollTargetView;

    open spec fn view(&self) -> PollTargetView {
        PollTargetView { device_uuid: self.device_uuid, host: self.host@ }
    }
}

/// The hosts of one device.
pub open spec fn targets_of(d: DeviceView) -> Seq<PollTargetView> {
    Seq::new(d.hosts.len(), |i: int| PollTargetView { device_uuid: d.uuid, host: d.hosts[i] })
}

/// The hosts of the servers among some devices, without those of this device.
pub open spec fn server_targets(devices: Seq<DeviceView>, except: Option<Uuid>) -> Seq<
    PollTargetView,
>
    decreases devices.len(),
{
    if devices.len() == 0 {
        Seq::empty()
    } else {
        let rest = server_targets(devices.drop_last(), except);
        let d = devices.last();
        if d.grade == DeviceGrade::SG && except != Some(d.uuid) {
            rest + targets_of(d)
        } else {
            rest
        }
    }
}

pub open spec fn contact_targets(contacts: Seq<ContactView>) -> Seq<PollTargetView>
    decreases contacts.len(),
{
    if contacts.len() == 0 {
        Seq::empty()
    } else {
        contact_targets(contacts.drop_last()) + server_targets(contacts.last().user.devices, None)
    }
}

fn push_targets(out: &mut Vec<PollTarget>, devices: &Vec<Device>, except: Option<Uuid>)
    ensures
        model::views(final(out)@) == model::views(old(out)@) + server_targets(
            model::views(devices@),
            except,
        ),
{
    broadcast use model::group_views;

    let ghost before = model::views(out@);
    let ghost s = model::views(devices@);
    let mut i: usize = 0;
    assert(s.take(0) =~= Seq::empty());
    assert(before + server_targets(s.take(0), except) =~= before);
    while i < devices.len()
        invariant
            i <= devices@.len(),
            s == model::views(devices@),
            model::views(out@) == before + server_targets(s.take(i as int), except),
        decreases devices@.len() - i,
    {
        proof {
            assert(s.take(i + 1).drop_last() =~= s.take(i as int));
            assert(s.take(i + 1).last() == s[i as int]);
        }
        let d = &devices[i];
        let skip = match except {
            Some(u) => uuid_eq(&u, &d.uuid),
            None => false,
        };
        if d.grade == DeviceGrade::SG && !skip {
            let ghost had = model::views(out@);
            let ghost t = targets_of(d@);
            let mut j: usize = 0;
            assert(had + t.take(0) =~= had);
            while j < d.hosts.len()
                invariant
                    j <= d.hosts@.len(),
                    t == targets_of(d@),
                    model::views(out@) == had + t.take(j as int),
                decreases d.hosts@.len() - j,
            {
                out.push(PollTarget { device_uuid: d.uuid, host: d.hosts[j].clone() });
                proof {
                    model::lemma_add_take_push(had, t, j as int);
                }
                j += 1;
            }
            proof {
                assert(t.take(t.len() as int) =~= t);
                assert(had + t =~= before + (server_targets(s.take(i as int), except) + t));
            }
        }
        i += 1;
    }
    assert(s.take(s.len() as int) =~= s);
}

/// The hosts to poll: those of the user's other servers and of the contacts'
/// servers. Every advertised host is among them, also one whose name does not
/// resolve.
pub fn poll_targets(node: &Node) -> (r: Vec<PollTarget>)
    ensures
        model::views(r@) == server_targets(node@.owner.user.devices, Some(node@.device_uuid))
            + contact_targets(node@.owner.contact_users),
{
    broadcast use model::group_views;

    let mut out: Vec<PollTarget> = Vec::new();
    push_targets(&mut out, &node.owner.user.devices, Some(node.device_uuid));
    let ghost own = model::views(out@);
    let ghost cs = node@.owner.contact_users;
    let mut i: usize = 0;
    assert(cs.take(0) =~= Seq::empty());
    assert(own + contact_targets(cs.take(0)) =~= own);
    while i < node.owner.contact_users.len()
        invariant
            i <= node.owner.contact_users@.len(),
            cs == node@.owner.contact_users,
            model::views(out@) == own + contact_targets(cs.take(i as int)),
        decreases node.owner.contact_users@.len() - i,
    {
        proof {
            assert(cs.take(i + 1).drop_last() =~= cs.take(i as int));
            assert(cs.take(i + 1).last() == cs[i as int]);
        }
        push_targets(&mut out, &node.owner.contact_users[i].user.devices, None);
        proof {
            let t = server_targets(cs[i as int].user.devices, None);
            assert(own + contact_targets(cs.take(i as int)) + t =~= own + (contact_targets(
                cs.take(i as int),
            ) + t));
        }
        i += 1;
    }
    assert(cs.take(cs.len() as int) =~= cs);
    assert(own =~= server_targets(node@.owner.user.devices, Some(node@.device_uuid)));
    out
}

pub open spec fn status_at(u: Uuid, host: Seq<char>) -> spec_fn(SgHostStatusView) -> bool {
    |s: SgHostStatusView| s.device_uuid == u && s.host == host
}

/// The statuses, after a host was polled: it is up if it answered.
pub open spec fn with_status(
    list: Seq<SgHostStatusView>,
    u: Uuid,
    host: Seq<char>,
    rtt: Option<u64>,
    now: u64,
) -> Seq<SgHostStatusView> {
    let s = SgHostStatusView {
        device_uuid: u,
        host,
        status: SgStatus { up: rtt is Some, last_rtt: rtt, last_polled: now },
    };
    match model::first_where(list, status_at(u, host)) {
        Some(i) => list.update(i, s),
        None => list.push(s),
    }
}

/// Records what polling a host found. `rtt` is in nanoseconds, and `None` where
/// there was no answer.
pub fn record_sg_status(node: &mut Node, uuid: Uuid, host: String, rtt: Option<u64>, now: u64)
    ensures
        final(node)@ == (NodeView {
            sg_statuses: with_status(old(node)@.sg_statuses, uuid, host@, rtt, now),
            ..old(node)@
        }),
        keys::keyed(old(node)@) ==> keys::keyed(final(node)@),
{
    broadcast use model::group_views;

    proof {
        if keys::keyed(node@) {
            keys::lemma_with_status(node@.sg_statuses, uuid, host@, rtt, now);
        }
    }
    let status = SgStatus { up: rtt.is_some(), last_rtt: rtt, last_polled: now };
    let ghost s = node@.sg_statuses;
    let ghost h = host@;
    let mut i: usize = 0;
    while i < node.sg_statuses.len()
        invariant
            i <= node.sg_statuses@.len(),
            s == node@.sg_statuses,
            *node == *old(node),
            h == host@,
            status == (SgStatus { up: rtt is Some, last_rtt: rtt, last_polled: now }),
            forall|j: int| 0 <= j < i ==> !status_at(uuid, h)(#[trigger] s[j]),
        decreases node.sg_statuses@.len() - i,
    {
        if uuid_eq(&node.sg_statuses[i].device_uuid, &uuid) && node.sg_statuses[i].host == host {
            proof {
                assert(status_at(uuid, h)(s[i as int]));
                model::lemma_first_at(s, status_at(uuid, h), i as int);
            }
            node.sg_statuses.set(i, SgHostStatus { device_uuid: uuid, host, status });
            return;
        }
        i += 1;
    }
    proof {
        model::lemma_first_none(s, status_at(uuid, h));
    }
    node.sg_statuses.push(SgHostStatus { device_uuid: uuid, host, status });
}

/// The grade of this device.
pub open spec fn own_grade(n: NodeView) -> Option<DeviceGrade> {
    match model::first_where(n.owner.user.devices, find::device_is(n.device_uuid)) {
        Some(i) => Some(n.owner.user.devices[i].grade),
        None => None,
    }
}

/// The grade of this device.
pub fn find_own_grade(node: &Node) -> (r: Option<DeviceGrade>)
    ensures
        r == own_grade(node@),
{
    broadcast use model::group_views;

    match find_device(&node.owner.user.devices, &node.device_uuid) {
        Some(i) => Some(node.owner.user.devices[i].grade),
        None => None,
    }
}

/// Whether a device, a server or not, opens sessions with another one: only
/// with servers, and one server only with those of a larger identifier.
pub open spec fn initiates(is_sg: bool, own: Uuid, d: Uuid, grade: DeviceGrade) -> bool {
    grade == DeviceGrade::SG && (!is_sg || order::lex_lt(own@, d@))
}

/// Whether this device opens sessions with another one.
pub fn want_initiate(is_sg: bool, own: &Uuid, d: &Uuid, grade: DeviceGrade) -> (r: bool)
    ensures
        r == initiates(is_sg, *own, *d, grade),
{
    grade == DeviceGrade::SG && (!is_sg || uuid_lt(own, d))
}

/// Of two devices at least one of which is a server, exactly one opens the
/// session.
pub proof fn law_one_side_initiates(a: Uuid, ga: DeviceGrade, b: Uuid, gb: DeviceGrade)
    requires
        a != b,
        ga == DeviceGrade::SG || gb == DeviceGrade::SG,
    ensures
        initiates(ga == DeviceGrade::SG, a, b, gb) != initiates(gb == DeviceGrade::SG, b, a, ga),
{
    order::lemma_uuid_bytes(a, b);
    order::lemma_lex_total(a@, b@);
}

/// A peer with which a session is to be opened.
#[derive(Clone, Copy, PartialEq, Eq, Debug)]
pub struct WantedPeer {
    pub device_uuid: Uuid,
    pub addr: HostAddr,
    pub longterm_pk: PublicKey,
}

/// The devices with which this one opens sessions and that can be addressed.
pub open spec fn wanted_among(
    n: NodeView,
    cache: Seq<ResolvedHostView>,
    devices: Seq<DeviceView>,
    pk: PublicKey,
    except: Option<Uuid>,
) -> Seq<WantedPeer>
    decreases devices.len(),
{
    if devices.len() == 0 {
        Seq::empty()
    } else {
        let rest = wanted_among(n, cache, devices.drop_last(), pk, except);
        let d = devices.last();
        let is_sg = own_grade(n) == Some(DeviceGrade::SG);
        match routing::best_address(n, cache, d.uuid) {
            Some(addr) => if except != Some(d.uuid) && initiates(
                is_sg,
                n.device_uuid,
                d.uuid,
                d.grade,
            ) {
                rest.push(WantedPeer { device_uuid: d.uuid, addr, longterm_pk: pk })
            } else {
                rest
            },
            None => rest,
        }
    }
}

pub open spec fn wanted_contacts(
    n: NodeView,
    cache: Seq<ResolvedHostView>,
    contacts: Seq<ContactView>,
) -> Seq<WantedPeer>
    decreases contacts.len(),
{
    if contacts.len() == 0 {
        Seq::empty()
    } else {
        wanted_contacts(n, cache, contacts.drop_last()) + wanted_among(
            n,
            cache,
            contacts.last().user.devices,
            contacts.last().public_key,
            None,
        )
    }
}

fn push_wanted(
    out: &mut Vec<WantedPeer>,
    node: &Node,
    cache: &Vec<ResolvedHost>,
    devices: &Vec<Device>,
    pk: PublicKey,
    except: Option<Uuid>,
)
    ensures
        final(out)@ == old(out)@ + wanted_among(
            node@,
            model::views(cache@),
            model::views(devices@),
            pk,
            except,
        ),
{
    broadcast use model::group_views;

    let ghost before = out@;
    let ghost c = model::views(cache@);
    let ghost s = model::views(devices@);
    let is_sg = match find_own_grade(node) {
        Some(g) => g == DeviceGrade::SG,
        None => false,
    };
    let mut i: usize = 0;
    assert(s.take(0) =~= Seq::empty());
    assert(before + wanted_among(node@, c, s.take(0), pk, except) =~= before);
    while i < devices.len()
        invariant
            i <= devices@.len(),
            s == model::views(devices@),
            c == model::views(cache@),
            is_sg == (own_grade(node@) == Some(DeviceGrade::SG)),
            out@ == before + wanted_among(node@, c, s.take(i as int), pk, except),
        decreases devices@.len() - i,
    {
        proof {
            assert(s.take(i + 1).drop_last() =~= s.take(i as int));
            assert(s.take(i + 1).last() == s[i as int]);
        }
        let d = &devices[i];
        let skip = match except {
            Some(u) => uuid_eq(&u, &d.uuid),
            None => false,
        };
        if !skip && want_initiate(is_sg, &node.device_uuid, &d.uuid, d.grade) {
            if let Some(addr) = best_address_for_device(node, cache, &d.uuid) {
                let w = WantedPeer { device_uuid: d.uuid, addr, longterm_pk: pk };
                proof {
                    model::lemma_add_push(
                        before,
                        wanted_among(node@, c, s.take(i as int), pk, except),
                        w,
                    );
                }
                out.push(w);
            }
        }
        i += 1;
    }
    assert(s.take(s.len() as int) =~= s);
}

/// A session with `u` that lasts long enough not to be renewed yet.
pub open spec fn lasting(u: Uuid, now: u64, threshold: u64) -> spec_fn(ActiveConnection) -> bool {
    |c: ActiveConnection| c.device_uuid == u && c.timeout >= now && c.timeout - now >= threshold
}

pub open spec fn pending_to(u: Uuid) -> spec_fn(PendingConnection) -> bool {
    |p: PendingConnection| p.peer_device_uuid == u
}

/// There is a lasting session with the device, or one was asked for.
pub open spec fn covered(n: NodeView, u: Uuid, now: u64, threshold: u64) -> bool {
    ||| model::any_where(n.owner.pending_connections, pending_to(u))
    ||| model::any_where(n.owner.active_connections, lasting(u, now, threshold))
}

fn is_covered(node: &Node, u: &Uuid, now: u64, threshold: u64) -> (r: bool)
    ensures
        r == covered(node@, *u, now, threshold),
{
    let pending = &node.owner.pending_connections;
    let mut i: usize = 0;
    while i < pending.len()
        invariant
            i <= pending@.len(),
            pending@ == node@.owner.pending_connections,
            forall|j: int| 0 <= j < i ==> !pending_to(*u)(#[trigger] pending@[j]),
        decreases pending@.len() - i,
    {
        if uuid_eq(&pending[i].peer_device_uuid, u) {
            assert(pending_to(*u)(pending@[i as int]));
            return true;
        }
        i += 1;
    }
    let active = &node.owner.active_connections;
    let mut k: usize = 0;
    while k < active.len()
        invariant
            k <= active@.len(),
            active@ == node@.owner.active_connections,
            forall|j: int| 0 <= j < k ==> !lasting(*u, now, threshold)(#[trigger] active@[j]),
        decreases active@.len() - k,
    {
        let c = active[k];
        if uuid_eq(&c.device_uuid, u) && c.timeout >= now && c.timeout - now >= threshold {
            assert(lasting(*u, now, threshold)(active@[k as int]));
            return true;
        }
        k += 1;
    }
    false
}

pub open spec fn uncovered(n: NodeView, now: u64, threshold: u64) -> spec_fn(WantedPeer) -> bool {
    |w: WantedPeer| !covered(n, w.device_uuid, now, threshold)
}

/// A request that has not been waiting too long.
pub open spec fn still_waiting(now: u64, timeout: u64) -> spec_fn(PendingConnection) -> bool {
    |p: PendingConnection| !(p.created_at <= now && now - p.created_at >= timeout)
}

/// The state without the requests that have been waiting too long.
pub open spec fn without_stale(n: NodeView, now: u64, timeout: u64) -> NodeView {
    NodeView {
        owner: OwnerView {
            pending_connections: model::keep(
                n.owner.pending_connections,
                still_waiting(now, timeout),
            ),
            ..n.owner
        },
        ..n
    }
}

fn drop_stale(v: &mut Vec<PendingConnection>, now: u64, timeout: u64)
    ensures
        final(v)@ == model::keep(old(v)@, still_waiting(now, timeout)),
{
    let ghost s = v@;
    let ghost p = still_waiting(now, timeout);
    let mut out: Vec<PendingConnection> = Vec::new();
    let mut i: usize = 0;
    assert(out@ =~= model::keep(s.take(0), p));
    while i < v.len()
        invariant
            i <= v@.len(),
            s == v@,
            p == still_waiting(now, timeout),
            out@ == model::keep(s.take(i as int), p),
        decreases v@.len() - i,
    {
        if !(v[i].created_at <= now && now - v[i].created_at >= timeout) {
            out.push(v[i]);
        }
        proof {
            model::lemma_keep_step(s, p, i as int);
        }
        i += 1;
    }
    assert(s.take(s.len() as int) =~= s);
    *v = out;
}

/// The peers with which a session is to be opened now.
pub open spec fn needed(
    n: NodeView,
    cache: Seq<ResolvedHostView>,
    now: u64,
    times: SessionTimes,
) -> Seq<WantedPeer> {
    model::keep(
        wanted_among(
            n,
            cache,
            n.owner.user.devices,
            n.owner.key_pair.public_key,
            Some(n.device_uuid),
        ) + wanted_contacts(n, cache, n.owner.contact_users),
        uncovered(n, now, times.renew_threshold),
    )
}

fn needed_peers(
    node: &Node,
    cache: &Vec<ResolvedHost>,
    now: u64,
    times: SessionTimes,
) -> (r: Vec<WantedPeer>)
    ensures
        r@ == needed(node@, model::views(cache@), now, times),
{
    broadcast use model::group_views;

    let ghost c = model::views(cache@);
    let mut all: Vec<WantedPeer> = Vec::new();
    let own_pk = node.owner.key_pair.public_key;
    push_wanted(&mut all, node, cache, &node.owner.user.devices, own_pk, Some(node.device_uuid));
    let ghost own = all@;
    let ghost cs = node@.owner.contact_users;
    let mut i: usize = 0;
    assert(cs.take(0) =~= Seq::empty());
    assert(own + wanted_contacts(node@, c, cs.take(0)) =~= own);
    while i < node.owner.contact_users.len()
        invariant
            i <= node.owner.contact_users@.len(),
            cs == node@.owner.contact_users,
            c == model::views(cache@),
            all@ == own + wanted_contacts(node@, c, cs.take(i as int)),
        decreases node.owner.contact_users@.len() - i,
    {
        proof {
            assert(cs.take(i + 1).drop_last() =~= cs.take(i as int));
            assert(cs.take(i + 1).last() == cs[i as int]);
        }
        let contact = &node.owner.contact_users[i];
        push_wanted(&mut all, node, cache, &contact.user.devices, contact.public_key, None);
        proof {
            let t = wanted_among(
                node@,
                c,
                cs[i as int].user.devices,
                cs[i as int].public_key,
                None,
            );
            assert(own + wanted_contacts(node@, c, cs.take(i as int)) + t =~= own + (
            wanted_contacts(node@, c, cs.take(i as int)) + t));
        }
        i += 1;
    }
    assert(cs.take(cs.len() as int) =~= cs);
    let ghost p = uncovered(node@, now, times.renew_threshold);
    let ghost s = all@;
    let mut out: Vec<WantedPeer> = Vec::new();
    let mut k: usize = 0;
    assert(out@ =~= model::keep(s.take(0), p));
    while k < all.len()
        invariant
            k <= all@.len(),
            s == all@,
            p == uncovered(node@, now, times.renew_threshold),
            out@ == model::keep(s.take(k as int), p),
        decreases all@.len() - k,
    {
        if !is_covered(node, &all[k].device_uuid, now, times.renew_threshold) {
            out.push(all[k]);
        }
        proof {
            model::lemma_keep_step(s, p, k as int);
        }
        k += 1;
    }
    assert(s.take(s.len() as int) =~= s);
    assert(own =~= wanted_among(
        node@,
        c,
        node@.owner.user.devices,
        own_pk,
        Some(node@.device_uuid),
    ));
    out
}

/// A connection request, without its signature.
pub open spec fn connect_request_bytes(n: NodeView, id: u16, fresh: PublicKey) -> Seq<u8> {
    seq![CONNECT_REQUEST_OP] + wire::enc_u16(id) + n.device_uuid@ + fresh@
        + n.owner.key_pair.public_key@
}

/// The state after a session was asked for, and the request.
pub open spec fn asked_for(n: NodeView, w: WantedPeer, fresh: KeyPair, now: u64) -> (
    NodeView,
    EffectView,
) {
    let id = ids::next_id(ids::used_ids(n.owner));
    let p = PendingConnection {
        our_conn_id: id,
        our_key_pair: fresh,
        peer_device_uuid: w.device_uuid,
        peer_longterm_pk: w.longterm_pk,
        created_at: now,
    };
    (
        NodeView {
            owner: OwnerView {
                pending_connections: n.owner.pending_connections.push(p),
                ..n.owner
            },
            ..n
        },
        EffectView::SendSigned {
            key: n.owner.key_pair.private_key,
            dest: PeerAddr::V4(w.addr),
            bytes: connect_request_bytes(n, id, fresh.public_key),
        },
    )
}

/// Asks each of some peers for a session, one after the other, unless it is
/// covered by then. Each request takes the next key pair; where there is none
/// left, no more sessions are asked for.
pub open spec fn asked_all(
    n: NodeView,
    need: Seq<WantedPeer>,
    keys: Seq<KeyPair>,
    now: u64,
    threshold: u64,
) -> (NodeView, Seq<EffectView>)
    decreases need.len(),
{
    if need.len() == 0 {
        (n, Seq::empty())
    } else {
        let (m, e) = asked_all(n, need.drop_last(), keys, now, threshold);
        let w = need.last();
        if e.len() >= keys.len() || covered(m, w.device_uuid, now, threshold) {
            (m, e)
        } else {
            let (k, x) = asked_for(m, w, keys[e.len() as int], now);
            (k, e.push(x))
        }
    }
}

/// What keeping the sessions up leads to.
pub open spec fn maintained(
    n: NodeView,
    cache: Seq<ResolvedHostView>,
    keys: Seq<KeyPair>,
    now: u64,
    times: SessionTimes,
) -> (NodeView, Seq<EffectView>) {
    let c = without_stale(n, now, times.pending_timeout);
    let (m, e) = asked_all(c, needed(c, cache, now, times), keys, now, times.renew_threshold);
    (
        m,
        if e.len() > 0 {
            e.push(
                EffectView::Schedule {
                    task: Task::MaintainConnections,
                    delay_ms: (times.pending_timeout * 1000 + 500) as u64,
                },
            )
        } else {
            e
        },
    )
}

/// Keeps the sessions up: forgets requests that were not answered in time, asks
/// for a session with every peer that this device opens sessions with, can
/// address and has no lasting session with, and comes back to it once requests
/// could have gone stale. `cache` holds the resolved hosts, `keys` a new key
/// pair for each request.
pub fn maintain_connections(
    node: &mut Node,
    cache: &Vec<ResolvedHost>,
    keys: &Vec<KeyPair>,
    now: u64,
    times: SessionTimes,
) -> (r: Vec<Effect>)
    requires
        old(node).owner.active_connections@.len() + old(node).owner.pending_connections@.len()
            + keys@.len() < 65536,
        times.pending_timeout * 1000 + 500 <= u64::MAX,
    ensures
        (final(node)@, model::views(r@)) == maintained(
            old(node)@,
            model::views(cache@),
            keys@,
            now,
            times,
        ),
        keys::keyed(old(node)@) ==> keys::keyed(final(node)@),
{
    broadcast use model::group_views;

    proof {
        if keys::keyed(node@) {
            keys::lemma_maintained(node@, model::views(cache@), keys@, now, times);
        }
    }
    proof {
        let p = old(node).owner.pending_connections@;
        let q = model::keep(p, still_waiting(now, times.pending_timeout));
        model::lemma_keep_contains(p, still_waiting(now, times.pending_timeout), arbitrary());
    }
    drop_stale(&mut node.owner.pending_connections, now, times.pending_timeout);
    let ghost c = node@;
    let need = needed_peers(node, cache, now, times);
    let mut out: Vec<Effect> = Vec::new();
    let mut i: usize = 0;
    assert(need@.take(0) =~= Seq::empty());
    assert(model::views(out@) =~= Seq::empty());
    while i < need.len()
        invariant
            i <= need@.len(),
            (node@, model::views(out@)) == asked_all(
                c,
                need@.take(i as int),
                keys@,
                now,
                times.renew_threshold,
            ),
            out@.len() <= keys@.len(),
            node.owner.active_connections@.len() == c.owner.active_connections.len(),
            node.owner.pending_connections@.len() == c.owner.pending_connections.len()
                + out@.len(),
            c.owner.active_connections.len() + c.owner.pending_connections.len() + keys@.len()
                < 65536,
        decreases need@.len() - i,
    {
        proof {
            assert(need@.take(i + 1).drop_last() =~= need@.take(i as int));
            assert(need@.take(i + 1).last() == need@[i as int]);
        }
        let w = need[i];
        if out.len() < keys.len() && !is_covered(node, &w.device_uuid, now, times.renew_threshold) {
            let fresh = keys[out.len()];
            let id: u16 = allocate_conn_id(node);
            let mut bytes: Vec<u8> = Vec::new();
            bytes.push(CONNECT_REQUEST_OP);
            push_u16(&mut bytes, id);
            push_uuid(&mut bytes, &node.device_uuid);
            push_key(&mut bytes, &fresh.public_key);
            push_key(&mut bytes, &node.owner.key_pair.public_key);
            assert(bytes@ =~= connect_request_bytes(node@, id, fresh.public_key));
            node.owner.pending_connections.push(
                PendingConnection {
                    our_conn_id: id,
                    our_key_pair: fresh,
                    peer_device_uuid: w.device_uuid,
                    peer_longterm_pk: w.longterm_pk,
                    created_at: now,
                },
            );
            out.push(
                Effect::SendSigned {
                    key: node.owner.key_pair.private_key,
                    dest: PeerAddr::V4(w.addr),
                    bytes,
                },
            );
        }
        i += 1;
    }
    assert(need@.take(need@.len() as int) =~= need@);
    if out.len() > 0 {
        out.push(
            Effect::Schedule {
                task: Task::MaintainConnections,
                delay_ms: times.pending_timeout * 1000 + 500,
            },
        );
    }
    out
}

pub open spec fn sg_is(u: Uuid) -> spec_fn(DeviceView) -> bool {
    |d: DeviceView| d.uuid == u && d.grade == DeviceGrade::SG
}

pub open spec fn contact_has_sg(u: Uuid) -> spec_fn(ContactView) -> bool {
    |c: ContactView| model::any_where(c.user.devices, sg_is(u))
}

/// `u` is a server of the user or of a contact.
pub open spec fn known_sg(o: OwnerView, u: Uuid) -> bool {
    model::any_where(o.user.devices, sg_is(u)) || model::any_where(
        o.contact_users,
        contact_has_sg(u),
    )
}

fn has_sg(devices: &Vec<Device>, u: &Uuid) -> (r: bool)
    ensures
        r == model::any_where(model::views(devices@), sg_is(*u)),
{
    broadcast use model::group_views;

    let ghost s = model::views(devices@);
    let mut i: usize = 0;
    while i < devices.len()
        invariant
            i <= devices@.len(),
            s == model::views(devices@),
            forall|j: int| 0 <= j < i ==> !sg_is(*u)(#[trigger] s[j]),
        decreases devices@.len() - i,
    {
        if uuid_eq(&devices[i].uuid, u) && devices[i].grade == DeviceGrade::SG {
            assert(sg_is(*u)(s[i as int]));
            return true;
        }
        i += 1;
    }
    false
}

fn is_known_sg(node: &Node, u: &Uuid) -> (r: bool)
    ensures
        r == known_sg(node@.owner, *u),
{
    broadcast use model::group_views;

    if has_sg(&node.owner.user.devices, u) {
        return true;
    }
    let ghost cs = node@.owner.contact_users;
    let mut i: usize = 0;
    while i < node.owner.contact_users.len()
        invariant
            i <= node.owner.contact_users@.len(),
            cs == node@.owner.contact_users,
            forall|j: int| 0 <= j < i ==> !contact_has_sg(*u)(#[trigger] cs[j]),
        decreases node.owner.contact_users@.len() - i,
    {
        if has_sg(&node.owner.contact_users[i].user.devices, u) {
            assert(contact_has_sg(*u)(cs[i as int]));
            return true;
        }
        i += 1;
    }
    false
}

/// A keepalive for each session, of those given, with a server that polling
/// does not say is down.
pub open spec fn keepalives(n: NodeView, conns: Seq<ActiveConnection>) -> Seq<EffectView>
    decreases conns.len(),
{
    if conns.len() == 0 {
        Seq::empty()
    } else {
        let rest = keepalives(n, conns.drop_last());
        let conn = conns.last();
        if known_sg(n.owner, conn.device_uuid) && !routing::polled_down(n, conn.device_uuid) {
            rest.push(EffectView::Seal { conn, op: DG_KEEPALIVE_OP, body: Seq::empty() })
        } else {
            rest
        }
    }
}

/// The signs of life that are due: those of a device that is no server.
pub open spec fn keepalives_due(n: NodeView) -> Seq<EffectView> {
    if own_grade(n) == Some(DeviceGrade::DG) {
        keepalives(n, n.owner.active_connections)
    } else {
        Seq::empty()
    }
}

/// Keepalives to every server with which there is a session, if this device is
/// not a server itself.
pub fn keepalive_dg(node: &Node) -> (r: Vec<Effect>)
    ensures
        model::views(r@) == keepalives_due(node@),
{
    broadcast use model::group_views;

    let mut out: Vec<Effect> = Vec::new();
    assert(model::views(out@) =~= Seq::empty());
    let is_dg = match find_own_grade(node) {
        Some(g) => g == DeviceGrade::DG,
        None => false,
    };
    if !is_dg {
        return out;
    }
    let conns = &node.owner.active_connections;
    let mut i: usize = 0;
    assert(conns@.take(0) =~= Seq::empty());
    while i < conns.len()
        invariant
            i <= conns@.len(),
            conns@ == node@.owner.active_connections,
            model::views(out@) == keepalives(node@, conns@.take(i as int)),
        decreases conns@.len() - i,
    {
        proof {
            assert(conns@.take(i + 1).drop_last() =~= conns@.take(i as int));
            assert(conns@.take(i + 1).last() == conns@[i as int]);
        }
        let conn = conns[i];
        if is_known_sg(node, &conn.device_uuid) && !is_polled_down(node, &conn.device_uuid) {
            let body: Vec<u8> = Vec::new();
            assert(body@ =~= Seq::empty());
            out.push(Effect::Seal { conn, op: DG_KEEPALIVE_OP, body });
        }
        i += 1;
    }
    assert(conns@.take(conns@.len() as int) =~= conns@);
    out
}

/// The sessions, after a keepalive came from `src` over the session `id`.
pub open spec fn refreshed_conns(
    conns: Seq<ActiveConnection>,
    id: u16,
    src: PeerAddr,
    timeout: u64,
) -> Seq<ActiveConnection> {
    match model::first_where(conns, find::conn_has_id(id)) {
        Some(i) => conns.update(
            i,
            ActiveConnection { peer_addr: src, timeout, ..conns[i] },
        ),
        None => conns,
    }
}

/// The identifier at the head of a packet.
pub open spec fn header_id(d: Seq<u8>) -> Option<u16> {
    match wire::parse_u16(d, 0) {
        Some((id, _)) => Some(id),
        None => None,
    }
}

/// The identifier at the head of a packet.
pub fn packet_conn_id(data: &[u8]) -> (r: Option<u16>)
    ensures
        r == header_id(data@),
{
    let mut pos: usize = 0;
    read_u16(data, &mut pos)
}

/// What a keepalive leads to: the session it came over is renewed, and its peer is
/// from now on at `src`.
pub open spec fn kept_alive(n: NodeView, src: PeerAddr, d: Seq<u8>, timeout: u64) -> NodeView {
    match header_id(d) {
        Some(id) => NodeView {
            owner: OwnerView {
                active_connections: refreshed_conns(n.owner.active_connections, id, src, timeout),
                ..n.owner
            },
            ..n
        },
        None => n,
    }
}

/// What a sign of life leads to: one that cannot be decrypted is answered by a
/// reset.
pub open spec fn keepalive_taken(
    n: NodeView,
    src: PeerAddr,
    d: Seq<u8>,
    decrypted: bool,
    timeout: u64,
) -> (NodeView, Seq<EffectView>) {
    if !decrypted {
        (n, seq![EffectView::Send { dest: src, bytes: seq![CONN_RESET_OP] }])
    } else {
        (kept_alive(n, src, d, timeout), Seq::empty())
    }
}

/// Takes a keepalive. `decrypted` tells whether it could be decrypted. If so,
/// the session it came over is renewed and answered from now on at `src`; if
/// not, the sender is told to reset.
pub fn dg_keepalive_receive(
    node: &mut Node,
    src: PeerAddr,
    data: &[u8],
    decrypted: bool,
    now: u64,
    times: SessionTimes,
) -> (r: Vec<Effect>)
    requires
        now + times.lifetime <= u64::MAX,
    ensures
        (final(node)@, model::views(r@)) == keepalive_taken(
            old(node)@,
            src,
            data@,
            decrypted,
            (now + times.lifetime) as u64,
        ),
        keys::keyed(old(node)@) ==> keys::keyed(final(node)@),
{
    broadcast use model::group_views;

    proof {
        if let Some(id) = header_id(data@) {
            if keys::keyed(node@) {
                keys::lemma_refreshed(
                    node@.owner.active_connections,
                    id,
                    src,
                    (now + times.lifetime) as u64,
                );
            }
        }
    }
    let mut out: Vec<Effect> = Vec::new();
    assert(model::views(out@) =~= Seq::empty());
    if !decrypted {
        let mut bytes: Vec<u8> = Vec::new();
        bytes.push(CONN_RESET_OP);
        assert(bytes@ =~= seq![CONN_RESET_OP]);
        out.push(Effect::Send { dest: src, bytes });
        assert(model::views(out@) =~= seq![
            EffectView::Send { dest: src, bytes: seq![CONN_RESET_OP] },
        ]);
        return out;
    }
    if let Some(id) = packet_conn_id(data) {
        if let Some(i) = find_conn(&node.owner.active_connections, id) {
            let c = node.owner.active_connections[i];
            let timeout: u64 = now + times.lifetime;
            node.owner.active_connections.set(i, ActiveConnection { peer_addr: src, timeout, ..c });
        }
    }
    out
}

/// A session with a peer at another IPv4 address.
pub open spec fn elsewhere(ip: Ipv4) -> spec_fn(ActiveConnection) -> bool {
    |c: ActiveConnection|
        match c.peer_addr {
            PeerAddr::V4(h) => h.ip != ip,
            _ => true,
        }
}

/// What a reset leads to: the sessions with peers at the address it came from are
/// dropped, and new ones are asked for if there were any.
pub open spec fn reset(n: NodeView, src: PeerAddr) -> (NodeView, Seq<EffectView>) {
    match routing::ipv4_of(src) {
        Some(ip) => {
            let conns = n.owner.active_connections;
            let left = model::keep(conns, elsewhere(ip));
            (
                NodeView {
                    owner: OwnerView { active_connections: left, ..n.owner },
                    ..n
                },
                if left.len() < conns.len() {
                    seq![EffectView::Schedule { task: Task::MaintainConnections, delay_ms: 0 }]
                } else {
                    Seq::empty()
                },
            )
        },
        None => (n, Seq::empty()),
    }
}

/// Takes a reset: drops the sessions with peers at the address it came from,
/// and has new ones asked for if there were any.
pub fn conn_reset(node: &mut Node, src: PeerAddr) -> (r: Vec<Effect>)
    ensures
        (final(node)@, model::views(r@)) == reset(old(node)@, src),
        keys::keyed(old(node)@) ==> keys::keyed(final(node)@),
{
    broadcast use model::group_views;

    proof {
        if let Some(ip) = routing::ipv4_of(src) {
            if keys::keyed(node@) {
                keys::lemma_left(node@.owner.active_connections, elsewhere(ip));
            }
        }
    }
    let mut out: Vec<Effect> = Vec::new();
    assert(model::views(out@) =~= Seq::empty());
    let ip = match ipv4_from(src) {
        Some(ip) => ip,
        None => {
            return out;
        },
    };
    let ghost s = node.owner.active_connections@;
    let mut left: Vec<ActiveConnection> = Vec::new();
    let mut i: usize = 0;
    assert(left@ =~= model::keep(s.take(0), elsewhere(ip)));
    while i < node.owner.active_connections.len()
        invariant
            i <= node.owner.active_connections@.len(),
            s == node.owner.active_connections@,
            *node == *old(node),
            left@ == model::keep(s.take(i as int), elsewhere(ip)),
        decreases node.owner.active_connections@.len() - i,
    {
        let c = node.owner.active_connections[i];
        let other = match c.peer_addr {
            PeerAddr::V4(h) => h.ip != ip,
            _ => true,
        };
        if other {
            left.push(c);
        }
        proof {
            model::lemma_keep_step(s, elsewhere(ip), i as int);
        }
        i += 1;
    }
    assert(s.take(s.len() as int) =~= s);
    if left.len() < node.owner.active_connections.len() {
        out.push(Effect::Schedule { task: Task::MaintainConnections, delay_ms: 0 });
    }
    node.owner.active_connections = left;
    assert(model::views(out@) =~= if left@.len() < s.len() {
        seq![EffectView::Schedule { task: Task::MaintainConnections, delay_ms: 0 }]
    } else {
        Seq::empty()
    });
    out
}

/// Once a peer was asked for a session it is covered, so that it is not asked
/// again until the request goes stale.
pub proof fn law_asked_is_covered(
    n: NodeView,
    w: WantedPeer,
    fresh: KeyPair,
    now: u64,
    threshold: u64,
)
    ensures
        covered(asked_for(n, w, fresh, now).0, w.device_uuid, now, threshold),
{
    let p = asked_for(n, w, fresh, now).0.owner.pending_connections;
    assert(pending_to(w.device_uuid)(p[p.len() - 1]));
}

/// A request that is added takes nothing away.
proof fn lemma_still_covered(
    n: NodeView,
    w: WantedPeer,
    fresh: KeyPair,
    now: u64,
    threshold: u64,
    u: Uuid,
)
    requires
        covered(n, u, now, threshold),
    ensures
        covered(asked_for(n, w, fresh, now).0, u, now, threshold),
{
    let had = n.owner.pending_connections;
    let has = asked_for(n, w, fresh, now).0.owner.pending_connections;
    if model::any_where(had, pending_to(u)) {
        let i = choose|i: int| 0 <= i < had.len() && pending_to(u)(#[trigger] had[i]);
        assert(pending_to(u)(has[i]));
    }
}

proof fn lemma_all_asked(
    n: NodeView,
    need: Seq<WantedPeer>,
    keys: Seq<KeyPair>,
    now: u64,
    threshold: u64,
)
    requires
        need.len() <= keys.len(),
    ensures
        asked_all(n, need, keys, now, threshold).1.len() <= need.len(),
        forall|i: int|
            0 <= i < need.len() ==> covered(
                asked_all(n, need, keys, now, threshold).0,
                (#[trigger] need[i]).device_uuid,
                now,
                threshold,
            ),
    decreases need.len(),
{
    if need.len() > 0 {
        let t = need.drop_last();
        let w = need.last();
        lemma_all_asked(n, t, keys, now, threshold);
        let (m, e) = asked_all(n, t, keys, now, threshold);
        let k = asked_all(n, need, keys, now, threshold).0;
        if !covered(m, w.device_uuid, now, threshold) {
            law_asked_is_covered(m, w, keys[e.len() as int], now, threshold);
        }
        assert forall|i: int| 0 <= i < need.len() implies covered(
            k,
            (#[trigger] need[i]).device_uuid,
            now,
            threshold,
        ) by {
            if i < t.len() {
                assert(t[i] == need[i]);
                assert(covered(m, t[i].device_uuid, now, threshold));
                if !covered(m, w.device_uuid, now, threshold) {
                    lemma_still_covered(
                        m,
                        w,
                        keys[e.len() as int],
                        now,
                        threshold,
                        need[i].device_uuid,
                    );
                }
            }
        }
    }
}

/// With a key pair for each, no peer is passed over: whoever needs a session has
/// one or has been asked for one afterwards.
pub proof fn law_nobody_is_passed_over(
    n: NodeView,
    cache: Seq<ResolvedHostView>,
    keys: Seq<KeyPair>,
    now: u64,
    times: SessionTimes,
    i: int,
)
    requires
        ({
            let c = without_stale(n, now, times.pending_timeout);
            &&& needed(c, cache, now, times).len() <= keys.len()
            &&& 0 <= i < needed(c, cache, now, times).len()
        }),
    ensures
        ({
            let c = without_stale(n, now, times.pending_timeout);
            covered(
                maintained(n, cache, keys, now, times).0,
                needed(c, cache, now, times)[i].device_uuid,
                now,
                times.renew_threshold,
            )
        }),
{
    let c = without_stale(n, now, times.pending_timeout);
    lemma_all_asked(c, needed(c, cache, now, times), keys, now, times.renew_threshold);
}

/// A connection request is read as it was written, whatever its signature.
pub proof fn law_connect_request_roundtrip(
    n: NodeView,
    id: u16,
    fresh: PublicKey,
    signature: Seq<u8>,
)
    requires
        signature.len() == 64,
    ensures
        parse_connect_request(connect_request_bytes(n, id, fresh).skip(1) + signature) == Some(
            ConnectRequest {
                conn_id: id,
                device_uuid: n.device_uuid,
                ephemeral_pk: fresh,
                longterm_pk: n.owner.key_pair.public_key,
            },
        ),
{
    let d = connect_request_bytes(n, id, fresh).skip(1) + signature;
    assert(d.len() == 146);
    assert(d.subrange(0, 2) =~= wire::enc_u16(id));
    assert(d.subrange(2, 18) =~= n.device_uuid@);
    assert(d.subrange(18, 50) =~= fresh@);
    assert(d.subrange(50, 82) =~= n.owner.key_pair.public_key@);
    wire::lemma_u16(d, 0, id);
    wire::lemma_uuid_of(n.device_uuid);
    wire::lemma_key_of(fresh);
    wire::lemma_key_of(n.owner.key_pair.public_key);
}

/// An acknowledgement is read as it was written, whatever its signature.
pub proof fn law_connect_ack_roundtrip(
    own_id: u16,
    peer_id: u16,
    pk: PublicKey,
    signature: Seq<u8>,
)
    requires
        signature.len() == 64,
    ensures
        parse_connect_ack(connect_ack_bytes(own_id, peer_id, pk).skip(1) + signature) == Some(
            ConnectAck { responder_conn_id: own_id, our_conn_id: peer_id, ephemeral_pk: pk },
        ),
{
    let d = connect_ack_bytes(own_id, peer_id, pk).skip(1) + signature;
    assert(d.len() == 100);
    assert(d.subrange(0, 2) =~= wire::enc_u16(own_id));
    assert(d.subrange(2, 4) =~= wire::enc_u16(peer_id));
    assert(d.subrange(4, 36) =~= pk@);
    wire::lemma_u16(d, 0, own_id);
    wire::lemma_u16(d, 2, peer_id);
    wire::lemma_key_of(pk);
}

/// A request waits under its identifier.
proof fn lemma_asked_is_awaited(n: NodeView, w: WantedPeer, fresh: KeyPair, now: u64)
    requires
        ids::used_ids(n.owner).len() < 65536,
    ensures
        awaited(asked_for(n, w, fresh, now).0, ids::next_id(ids::used_ids(n.owner))) == Some(
            PendingConnection {
                our_conn_id: ids::next_id(ids::used_ids(n.owner)),
                our_key_pair: fresh,
                peer_device_uuid: w.device_uuid,
                peer_longterm_pk: w.longterm_pk,
                created_at: now,
            },
        ),
{
    let used = ids::used_ids(n.owner);
    let id = ids::next_id(used);
    let old_p = n.owner.pending_connections;
    let p = asked_for(n, w, fresh, now).0.owner.pending_connections;
    let k = old_p.len() as int;
    ids::law_next_id_is_free(used);
    assert forall|j: int| 0 <= j < k implies !pending_has_id(id)(#[trigger] p[j]) by {
        assert(used[n.owner.active_connections.len() + j] == old_p[j].our_conn_id);
        assert(p[j] == old_p[j]);
    }
    assert(pending_has_id(id)(p[k]));
    model::lemma_first_at(p, pending_has_id(id), k);
}

/// A handshake leads to a session on each side, and the two name each other:
/// each has the identifier and the key of the other's session.
pub proof fn law_handshake(
    a: NodeView,
    w: WantedPeer,
    fresh_a: KeyPair,
    signature_a: Seq<u8>,
    seen_a: PeerAddr,
    b: NodeView,
    fresh_b: KeyPair,
    signature_b: Seq<u8>,
    seen_b: PeerAddr,
    now: u64,
    times: SessionTimes,
)
    requires
        ids::used_ids(a.owner).len() < 65536,
        signature_a.len() == 64,
        signature_b.len() == 64,
        w.device_uuid == b.device_uuid,
        vouched(b.owner, a.owner.key_pair.public_key, a.device_uuid),
    ensures
        ({
            let ida = ids::next_id(ids::used_ids(a.owner));
            let idb = ids::next_id(ids::used_ids(b.owner));
            let asked = asked_for(a, w, fresh_a, now);
            let q = parse_connect_request(
                connect_request_bytes(a, ida, fresh_a.public_key).skip(1) + signature_a,
            );
            let answered = connect_requested(b, seen_a, q->0, fresh_b, now, times);
            let r = parse_connect_ack(
                connect_ack_bytes(idb, ida, fresh_b.public_key).skip(1) + signature_b,
            );
            let done = connect_acked(asked.0, seen_b, r->0, now, times);
            &&& asked.1 == (EffectView::SendSigned {
                key: a.owner.key_pair.private_key,
                dest: PeerAddr::V4(w.addr),
                bytes: connect_request_bytes(a, ida, fresh_a.public_key),
            })
            &&& q is Some
            &&& answered.1[0] == (EffectView::SendSigned {
                key: b.owner.key_pair.private_key,
                dest: seen_a,
                bytes: connect_ack_bytes(idb, ida, fresh_b.public_key),
            })
            &&& r is Some
            &&& match (sync::session(done.0, ida), sync::session(answered.0, idb)) {
                (Some(x), Some(y)) => {
                    &&& x.device_uuid == b.device_uuid
                    &&& y.device_uuid == a.device_uuid
                    &&& x.peer_active_connection_id == y.id
                    &&& y.peer_active_connection_id == x.id
                    &&& x.key_pair == fresh_a
                    &&& y.key_pair == fresh_b
                    &&& x.peer_public_key == fresh_b.public_key
                    &&& y.peer_public_key == fresh_a.public_key
                    &&& x.peer_addr == seen_b
                    &&& y.peer_addr == seen_a
                },
                _ => false,
            }
        }),
{
    let ida = ids::next_id(ids::used_ids(a.owner));
    let idb = ids::next_id(ids::used_ids(b.owner));
    let asked = asked_for(a, w, fresh_a, now);
    law_connect_request_roundtrip(a, ida, fresh_a.public_key, signature_a);
    law_connect_ack_roundtrip(idb, ida, fresh_b.public_key, signature_b);
    lemma_asked_is_awaited(a, w, fresh_a, now);
    let q = parse_connect_request(
        connect_request_bytes(a, ida, fresh_a.public_key).skip(1) + signature_a,
    )->0;
    let r = parse_connect_ack(
        connect_ack_bytes(idb, ida, fresh_b.public_key).skip(1) + signature_b,
    )->0;
    let y = ActiveConnection {
        id: idb,
        timeout: (now + times.lifetime) as u64,
        key_pair: fresh_b,
        peer_public_key: q.ephemeral_pk,
        peer_active_connection_id: q.conn_id,
        device_uuid: q.device_uuid,
        peer_addr: seen_a,
    };
    let x = ActiveConnection {
        id: ida,
        timeout: (now + times.lifetime) as u64,
        key_pair: fresh_a,
        peer_public_key: r.ephemeral_pk,
        peer_active_connection_id: r.responder_conn_id,
        device_uuid: w.device_uuid,
        peer_addr: seen_b,
    };
    ids::law_put_then_find(b.owner.active_connections, y, true);
    ids::law_put_then_find(asked.0.owner.active_connections, x, true);
}

} // verus!
