//! How packets pass from hand to hand: each goes to the device that handles it
//! next, and is there what it was meant to be.
use crate::dispatch;
use crate::dispatch::Packet;
use crate::effects::EffectView;
use crate::find;
use crate::following;
use crate::model;
use crate::routing;
use crate::sync;
use crate::tunnels;
use crate::types::{
    ActiveConnection, ActiveTunnel, KeyPair, NodeView, PeerAddr, PublicKey, Uuid,
};
use crate::wire;
use crate::wire::{TUNNEL_CONNECT_ACK_OP, TUNNEL_CONNECT_REQUEST_OP, TUNNEL_INIT_OP};
use vstd::prelude::*;

verus! {

/// The session with a device: the first that is with it.
pub open spec fn session_to(n: NodeView, u: Uuid, c: ActiveConnection) -> bool {
    exists|i: int|
        0 <= i < n.owner.active_connections.len() && #[trigger] n.owner.active_connections[i] == c
            && c.device_uuid == u && forall|j: int|
            0 <= j < i ==> (#[trigger] n.owner.active_connections[j]).device_uuid != u
}

pub proof fn lemma_session_to(n: NodeView, u: Uuid, c: ActiveConnection)
    requires
        session_to(n, u, c),
    ensures
        routing::session_with(n, u) == Some(c),
{
    let s = n.owner.active_connections;
    let i = choose|i: int|
        0 <= i < s.len() && #[trigger] s[i] == c && c.device_uuid == u && forall|j: int|
            0 <= j < i ==> (#[trigger] s[j]).device_uuid != u;
    let p = find::conn_to(u);
    assert(p(s[i]));
    assert forall|j: int| 0 <= j < i implies !p(#[trigger] s[j]) by {}
    model::lemma_first_at(s, p, i);
}

/// One datagram to an address, and nothing else; whoever gets it takes it for
/// `kind`.
pub open spec fn one_datagram(
    e: Seq<EffectView>,
    dest: PeerAddr,
    kind: Packet,
    bytes: Seq<u8>,
) -> bool {
    e.len() == 1 && e[0] == (EffectView::Send { dest, bytes }) && dispatch::packet_of(bytes)
        == Some(kind)
}

/// A device has opened its end of a tunnel: a leg leads to a session with the
/// other device, over the address of the server, with its own keys and the key of
/// the other end.
pub open spec fn opened(
    n: NodeView,
    id: u16,
    peer: Uuid,
    keys: KeyPair,
    peer_key: PublicKey,
    server: PeerAddr,
) -> bool {
    exists|i: int, j: int|
        0 <= i < n.owner.dg_tunnel_map.len() && 0 <= j < n.owner.active_connections.len()
            && (#[trigger] n.owner.dg_tunnel_map[i]).tunnel_id == id
            && (#[trigger] n.owner.active_connections[j]).id == n.owner.dg_tunnel_map[i].conn_id
            && n.owner.active_connections[j].device_uuid == peer
            && n.owner.active_connections[j].key_pair == keys
            && n.owner.active_connections[j].peer_public_key == peer_key
            && n.owner.active_connections[j].peer_addr == server
}

/// A device has proposed no tunnel with an identifier itself.
pub open spec fn unproposed(n: NodeView, id: u16) -> bool {
    forall|i: int|
        0 <= i < n.owner.pending_tunnels.len() ==> (#[trigger] n.owner.pending_tunnels[i]).tunnel_id
            != id
}

proof fn lemma_unproposed(n: NodeView, id: u16)
    requires
        unproposed(n, id),
    ensures
        model::first_where(n.owner.pending_tunnels, tunnels::pending_tunnel_is(id)) is None,
{
    let s = n.owner.pending_tunnels;
    let p = tunnels::pending_tunnel_is(id);
    assert forall|i: int| 0 <= i < s.len() implies !p(#[trigger] s[i]) by {}
    model::lemma_first_none(s, p);
}

proof fn lemma_opened(n: NodeView, id: u16)
    requires
        tunnels::tunnel_session(n, id) is Some,
    ensures
        ({
            let c = tunnels::tunnel_session(n, id)->0;
            opened(n, id, c.device_uuid, c.key_pair, c.peer_public_key, c.peer_addr)
        }),
{
    let legs = n.owner.dg_tunnel_map;
    let conns = n.owner.active_connections;
    model::lemma_first_where(legs, tunnels::leg_is(id));
    let i = model::first_where(legs, tunnels::leg_is(id))->0;
    let q = find::conn_has_id(legs[i].conn_id);
    model::lemma_first_where(conns, q);
    let j = model::first_where(conns, q)->0;
    assert(tunnels::leg_is(id)(legs[i]));
    assert(q(conns[j]));
}

/// The packets of a set-up and the states that they leave.
pub struct SetUp {
    pub proposal: Seq<u8>,
    pub request: Seq<u8>,
    pub relayed_request: Seq<u8>,
    pub ack: Seq<u8>,
    pub relayed_ack: Seq<u8>,
    pub server: NodeView,
    pub a: NodeView,
    pub b: NodeView,
}

/// A set-up runs from hand to hand: the server's proposal goes to `a`, the
/// request of `a` to the server, from there to `b`, the answer of `b` to the
/// server, and from there to `a`. Each packet is what the next one takes.
pub open spec fn handed_on(
    u: SetUp,
    server: NodeView,
    a: NodeView,
    b: NodeView,
    ca: ActiveConnection,
    cb: ActiveConnection,
    fresh_a: KeyPair,
    fresh_b: KeyPair,
    seen_a: PeerAddr,
    seen_b: PeerAddr,
    now_ms: u64,
    timeout: u64,
) -> bool {
    let (s1, e1) = tunnels::tunnel_begun(server, a.device_uuid, b.device_uuid);
    let (a1, e2) = tunnels::tunnel_inited(a, seen_a, u.proposal.skip(1), fresh_a);
    let (s2, e3) = tunnels::tunnel_requested(
        s1,
        ca.peer_addr,
        u.request.skip(1),
        fresh_b,
        timeout,
    );
    let (b1, e4) = tunnels::tunnel_requested(
        b,
        seen_b,
        u.relayed_request.skip(1),
        fresh_b,
        timeout,
    );
    let (s3, e5) = tunnels::tunnel_acked(s2, cb.peer_addr, u.ack.skip(1), now_ms, timeout);
    let (a2, e6) = tunnels::tunnel_acked(a1, seen_a, u.relayed_ack.skip(1), now_ms, timeout);
    &&& one_datagram(e1, ca.peer_addr, Packet::TunnelInit, u.proposal)
    &&& one_datagram(e2, seen_a, Packet::TunnelConnectRequest, u.request)
    &&& one_datagram(e3, cb.peer_addr, Packet::TunnelConnectRequest, u.relayed_request)
    &&& one_datagram(e4, seen_b, Packet::TunnelConnectAck, u.ack)
    &&& one_datagram(e5, ca.peer_addr, Packet::TunnelConnectAck, u.relayed_ack)
    &&& e6.len() == 0
    &&& u.server == s3
    &&& u.a == a2
    &&& u.b == b1
}

/// The server joins two sessions by a tunnel.
pub open spec fn joined(n: NodeView, id: u16, ca: ActiveConnection, cb: ActiveConnection) -> bool {
    exists|i: int|
        0 <= i < n.owner.active_tunnels.len() && (#[trigger] n.owner.active_tunnels[i]).id == id
            && n.owner.active_tunnels[i].connection_a_id == ca.id
            && n.owner.active_tunnels[i].connection_b_id == cb.id
}

/// Every packet of the set-up of a tunnel goes to the device that handles it
/// next. The server, which has sessions with both devices, sends the request of
/// the one to the address of its session with the other, and the answer back to
/// the address of its session with the first; each device opens its end with what
/// it got, with the identifier and the key of the other.
pub proof fn law_set_up_is_handed_on(
    server: NodeView,
    a: NodeView,
    b: NodeView,
    ca: ActiveConnection,
    cb: ActiveConnection,
    fresh_a: KeyPair,
    fresh_b: KeyPair,
    seen_a: PeerAddr,
    seen_b: PeerAddr,
    now_ms: u64,
    timeout: u64,
)
    requires
        session_to(server, a.device_uuid, ca),
        session_to(server, b.device_uuid, cb),
        unproposed(a, tunnels::next_tunnel_id(server.owner)),
        unproposed(b, tunnels::next_tunnel_id(server.owner)),
    ensures
        exists|u: SetUp|
            #[trigger] handed_on(
                u,
                server,
                a,
                b,
                ca,
                cb,
                fresh_a,
                fresh_b,
                seen_a,
                seen_b,
                now_ms,
                timeout,
            ) && joined(u.server, tunnels::next_tunnel_id(server.owner), ca, cb) && opened(
                u.a,
                tunnels::next_tunnel_id(server.owner),
                b.device_uuid,
                fresh_a,
                fresh_b.public_key,
                seen_a,
            ) && opened(
                u.b,
                tunnels::next_tunnel_id(server.owner),
                a.device_uuid,
                fresh_b,
                fresh_a.public_key,
                seen_b,
            ),
{
    let id = tunnels::next_tunnel_id(server.owner);
    lemma_session_to(server, a.device_uuid, ca);
    lemma_session_to(server, b.device_uuid, cb);
    lemma_unproposed(a, id);
    lemma_unproposed(b, id);
    let none = Seq::<u8>::empty();
    let proposal = seq![TUNNEL_INIT_OP] + wire::enc_u16(id) + b.device_uuid@;
    let request = tunnels::tunnel_key_packet(TUNNEL_CONNECT_REQUEST_OP, id, fresh_a.public_key);
    let relayed_request = request + a.device_uuid@;
    let ack = tunnels::tunnel_key_packet(TUNNEL_CONNECT_ACK_OP, id, fresh_b.public_key);
    tunnels::lemma_key_packet(TUNNEL_CONNECT_REQUEST_OP, id, fresh_a.public_key, none);
    tunnels::lemma_key_packet(
        TUNNEL_CONNECT_REQUEST_OP,
        id,
        fresh_a.public_key,
        a.device_uuid@,
    );
    tunnels::lemma_key_packet(TUNNEL_CONNECT_ACK_OP, id, fresh_b.public_key, none);
    assert(request + none =~= request);
    assert(ack + none =~= ack);
    let d = proposal.skip(1);
    assert(d[0] == (id / 256) as u8 && d[1] == (id % 256) as u8);
    tunnels::lemma_proposal_found(
        server,
        a.device_uuid,
        b.device_uuid,
        ca.peer_addr,
        fresh_a.public_key,
        fresh_b,
        timeout,
    );
    tunnels::law_tunnel_comes_up(server, a, b, fresh_a, fresh_b, seen_a, now_ms, timeout);
    tunnels::law_tunnel_comes_up(server, a, b, fresh_a, fresh_b, seen_b, now_ms, timeout);
    let s1 = tunnels::tunnel_begun(server, a.device_uuid, b.device_uuid).0;
    let a1 = tunnels::tunnel_inited(a, seen_a, d, fresh_a).0;
    let s2 = tunnels::tunnel_requested(
        s1,
        ca.peer_addr,
        request.skip(1),
        fresh_b,
        timeout,
    ).0;
    let b1 = tunnels::tunnel_requested(
        b,
        seen_b,
        relayed_request.skip(1),
        fresh_b,
        timeout,
    ).0;
    let s3 = tunnels::tunnel_acked(s2, cb.peer_addr, ack.skip(1), now_ms, timeout).0;
    let a2 = tunnels::tunnel_acked(a1, seen_a, ack.skip(1), now_ms, timeout).0;
    let u = SetUp {
        proposal,
        request,
        relayed_request,
        ack,
        relayed_ack: ack,
        server: s3,
        a: a2,
        b: b1,
    };
    assert(dispatch::packet_of(proposal) == Some(Packet::TunnelInit));
    assert(dispatch::packet_of(request) == Some(Packet::TunnelConnectRequest));
    assert(dispatch::packet_of(relayed_request) == Some(Packet::TunnelConnectRequest));
    assert(dispatch::packet_of(ack) == Some(Packet::TunnelConnectAck));
    assert(handed_on(
        u,
        server,
        a,
        b,
        ca,
        cb,
        fresh_a,
        fresh_b,
        seen_a,
        seen_b,
        now_ms,
        timeout,
    ));
    lemma_opened(a2, id);
    lemma_opened(b1, id);
    let n = s3.owner.active_tunnels.len() - 1;
    assert(s3.owner.active_tunnels[n].id == id);
}

/// What one end puts into a tunnel comes out at the other: the server sends it,
/// and nothing else, to the address of the other session, where it is a delivery
/// that is decrypted with the session of the tunnel and holds the nonce and the
/// ciphertext that went in.
pub proof fn law_tunnel_carries(
    server: NodeView,
    i: int,
    from: ActiveConnection,
    to: ActiveConnection,
    end: NodeView,
    end_conn: ActiveConnection,
    nonce: Seq<u8>,
    ciphertext: Seq<u8>,
    now_ms: u64,
    max_blob: int,
)
    requires
        0 <= i < server.owner.active_tunnels.len(),
        forall|j: int|
            0 <= j < i ==> (#[trigger] server.owner.active_tunnels[j]).id
                != server.owner.active_tunnels[i].id,
        from.id != to.id,
        server.owner.active_tunnels[i].connection_a_id == from.id
            && server.owner.active_tunnels[i].connection_b_id == to.id
            || server.owner.active_tunnels[i].connection_a_id == to.id
            && server.owner.active_tunnels[i].connection_b_id == from.id,
        following::session_under(server, to.id, to),
        tunnels::tunnel_session(end, server.owner.active_tunnels[i].id) == Some(end_conn),
        nonce.len() == 24,
        24 + ciphertext.len() <= max_blob,
    ensures
        ({
            let id = server.owner.active_tunnels[i].id;
            let put = tunnels::forward_packet(from.id, id, nonce, ciphertext);
            let (m, e) = tunnels::forwarded(server, put.skip(1), now_ms, max_blob);
            &&& dispatch::packet_of(put) == Some(Packet::TunnelForward)
            &&& m.owner.active_tunnels[i] == (ActiveTunnel {
                last_used_at: now_ms,
                ..server.owner.active_tunnels[i]
            })
            &&& exists|out: Seq<u8>| #[trigger]
                one_datagram(e, to.peer_addr, Packet::TunnelDelivery, out)
                    && tunnels::delivery_parts(end, out.skip(1)) == Some(
                    (end_conn, nonce, ciphertext),
                )
        }),
{
    let t = server.owner.active_tunnels[i];
    let id = t.id;
    following::lemma_session_under(server, to.id, to);
    let p = tunnels::tunnel_is(id);
    assert(p(t));
    assert forall|j: int| 0 <= j < i implies !p(#[trigger] server.owner.active_tunnels[j]) by {}
    model::lemma_first_at(server.owner.active_tunnels, p, i);
    tunnels::law_forward_then_deliver(from.id, id, nonce, ciphertext);
    let put = tunnels::forward_packet(from.id, id, nonce, ciphertext);
    let out = tunnels::delivery_packet(id, put.skip(1).skip(4));
    assert(put.skip(1).skip(4) =~= nonce + ciphertext);
    assert(out.skip(1).len() == 26 + ciphertext.len());
    let e = tunnels::forwarded(server, put.skip(1), now_ms, max_blob).1;
    assert(one_datagram(e, to.peer_addr, Packet::TunnelDelivery, out));
}

/// What does not come from an end of a tunnel goes nowhere.
pub proof fn law_tunnel_is_closed_to_others(
    server: NodeView,
    from: u16,
    id: u16,
    nonce: Seq<u8>,
    ciphertext: Seq<u8>,
    now_ms: u64,
    max_blob: int,
)
    requires
        nonce.len() == 24,
        forall|j: int|
            0 <= j < server.owner.active_tunnels.len() && (
            #[trigger] server.owner.active_tunnels[j]).id == id
                ==> server.owner.active_tunnels[j].connection_a_id != from
                && server.owner.active_tunnels[j].connection_b_id != from,
    ensures
        ({
            let put = tunnels::forward_packet(from, id, nonce, ciphertext);
            tunnels::forwarded(server, put.skip(1), now_ms, max_blob) == (
                server,
                Seq::<EffectView>::empty(),
            )
        }),
{
    tunnels::law_forward_then_deliver(from, id, nonce, ciphertext);
    model::lemma_first_where(server.owner.active_tunnels, tunnels::tunnel_is(id));
    match model::first_where(server.owner.active_tunnels, tunnels::tunnel_is(id)) {
        Some(i) => {
            assert(tunnels::tunnel_is(id)(server.owner.active_tunnels[i]));
        },
        None => {},
    }
}

} // verus!
