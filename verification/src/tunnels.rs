//! Tunnels between two devices through a server: setting up, exchanging keys,
//! forwarding, delivering and tearing down.
use crate::effects::{Effect, EffectView};
use crate::find;
use crate::find::find_conn_to;
use crate::ids;
use crate::ids::{allocate_conn_id, pick_id, put_conn};
use crate::keys;
use crate::model;
use crate::relay;
use crate::relay::app_packet;
use crate::routing;
use crate::routing::find_session;
use crate::sync;
use crate::sync::find_session_by_id;
use crate::types::{
    ActiveConnection, ActiveTunnel, KeyPair, Node, NodeView, OwnerView, PeerAddr, PendingTunnel,
    PendingTunnelConnection, PublicKey, TunnelCounter, TunnelLeg, Uuid,
};
use crate::wire;
use crate::wire::{
    bytes_of, push_bytes, push_key, push_u16, push_uuid, slice_key, slice_uuid,
    TUNNEL_CONNECT_ACK_OP, TUNNEL_CONNECT_REQUEST_OP, TUNNEL_DELIVERY_OP, TUNNEL_FORWARD_OP,
    TUNNEL_INIT_OP,
};
use vstd::prelude::*;

verus! {

/// After how many milliseconds without traffic a tunnel goes.
pub const TUNNEL_IDLE_TIMEOUT_MS: u64 = 300_000;

/// The tunnel identifiers in use on this server.
pub open spec fn tunnel_ids(o: OwnerView) -> Seq<u16> {
    Seq::new(o.active_tunnels.len(), |i: int| o.active_tunnels[i].id) + Seq::new(
        o.pending_tunnels.len(),
        |i: int| o.pending_tunnels[i].tunnel_id,
    )
}

/// The identifier of the next tunnel.
pub open spec fn next_tunnel_id(o: OwnerView) -> u16 {
    ids::next_id(tunnel_ids(o))
}

/// An identifier for a new tunnel, which no tunnel has, there or proposed,
/// unless there is none left.
pub fn allocate_tunnel_id(node: &Node) -> (r: u16)
    ensures
        r == next_tunnel_id(node@.owner),
        tunnel_ids(node@.owner).len() < 65536 ==> !tunnel_ids(node@.owner).contains(r),
{
    let active = &node.owner.active_tunnels;
    let pending = &node.owner.pending_tunnels;
    let ghost s = tunnel_ids(node@.owner);
    let mut used: Vec<u16> = Vec::new();
    let mut i: usize = 0;
    assert(used@ =~= s.take(0));
    while i < active.len()
        invariant
            i <= active@.len(),
            s == tunnel_ids(node@.owner),
            active@ == node@.owner.active_tunnels,
            used@ == s.take(i as int),
        decreases active@.len() - i,
    {
        assert(s[i as int] == active@[i as int].id);
        used.push(active[i].id);
        proof {
            model::lemma_take_push(s, i as int);
        }
        i += 1;
    }
    let mut k: usize = 0;
    while k < pending.len()
        invariant
            k <= pending@.len(),
            s == tunnel_ids(node@.owner),
            active@ == node@.owner.active_tunnels,
            pending@ == node@.owner.pending_tunnels,
            used@ == s.take(active@.len() + k),
        decreases pending@.len() - k,
    {
        assert(s[active@.len() + k] == pending@[k as int].tunnel_id);
        used.push(pending[k].tunnel_id);
        proof {
            model::lemma_take_push(s, active@.len() + k);
        }
        k += 1;
    }
    assert(s.take(s.len() as int) =~= s);
    proof {
        if s.len() < 65536 {
            ids::law_next_id_is_free(s);
        }
    }
    pick_id(&used)
}

pub open spec fn pending_tunnel_is(id: u16) -> spec_fn(PendingTunnel) -> bool {
    |p: PendingTunnel| p.tunnel_id == id
}

pub open spec fn pending_tunnel_is_not(id: u16) -> spec_fn(PendingTunnel) -> bool {
    |p: PendingTunnel| p.tunnel_id != id
}

fn find_pending(v: &Vec<PendingTunnel>, id: u16) -> (r: Option<usize>)
    ensures
        match model::first_where(v@, pending_tunnel_is(id)) {
            Some(i) => r == Some(i as usize) && 0 <= i < v@.len() && i == r->0,
            None => r is None,
        },
{
    let mut i: usize = 0;
    while i < v.len()
        invariant
            i <= v@.len(),
            forall|j: int| 0 <= j < i ==> !pending_tunnel_is(id)(#[trigger] v@[j]),
        decreases v@.len() - i,
    {
        if v[i].tunnel_id == id {
            proof {
                assert(pending_tunnel_is(id)(v@[i as int]));
                model::lemma_first_at(v@, pending_tunnel_is(id), i as int);
            }
            return Some(i);
        }
        i += 1;
    }
    proof {
        model::lemma_first_none(v@, pending_tunnel_is(id));
    }
    None
}

fn drop_pending(v: &mut Vec<PendingTunnel>, id: u16)
    ensures
        final(v)@ == model::keep(old(v)@, pending_tunnel_is_not(id)),
{
    let ghost s = v@;
    let ghost p = pending_tunnel_is_not(id);
    let mut out: Vec<PendingTunnel> = Vec::new();
    let mut i: usize = 0;
    assert(out@ =~= model::keep(s.take(0), p));
    while i < v.len()
        invariant
            i <= v@.len(),
            s == v@,
            p == pending_tunnel_is_not(id),
            out@ == model::keep(s.take(i as int), p),
        decreases v@.len() - i,
    {
        if v[i].tunnel_id != id {
            out.push(v[i]);
        }
        proof {
            model::lemma_keep_step(s, p, i as int);
        }
        i += 1;
    }
    assert(s.take(s.len() as int) =~= s);
    *v = out;
}

/// One datagram.
fn send_one(dest: PeerAddr, bytes: Vec<u8>) -> (r: Vec<Effect>)
    ensures
        model::views(r@) == seq![EffectView::Send { dest, bytes: bytes@ }],
{
    broadcast use model::group_views;

    let mut out: Vec<Effect> = Vec::new();
    out.push(Effect::Send { dest, bytes });
    assert(model::views(out@) =~= seq![EffectView::Send { dest, bytes: bytes@ }]);
    out
}

/// What setting up a tunnel leads to: where both ends have sessions, the tunnel
/// is proposed to the sender.
pub open spec fn tunnel_begun(n: NodeView, sender: Uuid, dest: Uuid) -> (NodeView, Seq<EffectView>) {
    match routing::session_with(n, sender) {
        Some(conn) if routing::session_with(n, dest) is Some => {
            let id = next_tunnel_id(n.owner);
            let p = PendingTunnel {
                tunnel_id: id,
                sender_device_uuid: sender,
                dest_device_uuid: dest,
                sender_ephem_pk: None,
            };
            (
                NodeView {
                    owner: OwnerView {
                        pending_tunnels: model::keep(
                            n.owner.pending_tunnels,
                            pending_tunnel_is_not(id),
                        ).push(p),
                        ..n.owner
                    },
                    ..n
                },
                seq![
                    EffectView::Send {
                        dest: conn.peer_addr,
                        bytes: seq![TUNNEL_INIT_OP] + wire::enc_u16(id) + dest@,
                    },
                ],
            )
        },
        _ => (n, Seq::empty()),
    }
}

/// Proposes a tunnel between two devices to the first of them, if there are
/// sessions with both.
pub fn setup_tunnel(node: &mut Node, sender_uuid: Uuid, dest_uuid: Uuid) -> (r: Vec<Effect>)
    ensures
        (final(node)@, model::views(r@)) == tunnel_begun(old(node)@, sender_uuid, dest_uuid),
        keys::keyed(old(node)@) ==> keys::keyed(final(node)@),
{
    broadcast use model::group_views;

    proof {
        if keys::keyed(node@) {
            keys::lemma_tunnel_begun(node@, sender_uuid, dest_uuid);
        }
    }
    let sender = find_session(node, &sender_uuid);
    let dest = find_session(node, &dest_uuid);
    match sender {
        Some(conn) => {
            if dest.is_none() {
                return Vec::new();
            }
            let id: u16 = allocate_tunnel_id(node);
            drop_pending(&mut node.owner.pending_tunnels, id);
            node.owner.pending_tunnels.push(
                PendingTunnel {
                    tunnel_id: id,
                    sender_device_uuid: sender_uuid,
                    dest_device_uuid: dest_uuid,
                    sender_ephem_pk: None,
                },
            );
            let mut bytes: Vec<u8> = Vec::new();
            bytes.push(TUNNEL_INIT_OP);
            push_u16(&mut bytes, id);
            push_uuid(&mut bytes, &dest_uuid);
            assert(bytes@ =~= seq![TUNNEL_INIT_OP] + wire::enc_u16(id) + dest_uuid@);
            send_one(conn.peer_addr, bytes)
        },
        None => Vec::new(),
    }
}

pub open spec fn started_is(id: u16) -> spec_fn(PendingTunnelConnection) -> bool {
    |p: PendingTunnelConnection| p.tunnel_id == id
}

pub open spec fn started_is_not(id: u16) -> spec_fn(PendingTunnelConnection) -> bool {
    |p: PendingTunnelConnection| p.tunnel_id != id
}

fn find_started(v: &Vec<PendingTunnelConnection>, id: u16) -> (r: Option<PendingTunnelConnection>)
    ensures
        match model::first_where(v@, started_is(id)) {
            Some(i) => r == Some(v@[i]),
            None => r is None,
        },
{
    let mut i: usize = 0;
    while i < v.len()
        invariant
            i <= v@.len(),
            forall|j: int| 0 <= j < i ==> !started_is(id)(#[trigger] v@[j]),
        decreases v@.len() - i,
    {
        if v[i].tunnel_id == id {
            proof {
                assert(started_is(id)(v@[i as int]));
                model::lemma_first_at(v@, started_is(id), i as int);
            }
            return Some(v[i]);
        }
        i += 1;
    }
    proof {
        model::lemma_first_none(v@, started_is(id));
    }
    None
}

fn drop_started(v: &mut Vec<PendingTunnelConnection>, id: u16)
    ensures
        final(v)@ == model::keep(old(v)@, started_is_not(id)),
{
    let ghost s = v@;
    let ghost p = started_is_not(id);
    let mut out: Vec<PendingTunnelConnection> = Vec::new();
    let mut i: usize = 0;
    assert(out@ =~= model::keep(s.take(0), p));
    while i < v.len()
        invariant
            i <= v@.len(),
            s == v@,
            p == started_is_not(id),
            out@ == model::keep(s.take(i as int), p),
        decreases v@.len() - i,
    {
        if v[i].tunnel_id != id {
            out.push(v[i]);
        }
        proof {
            model::lemma_keep_step(s, p, i as int);
        }
        i += 1;
    }
    assert(s.take(s.len() as int) =~= s);
    *v = out;
}

/// An op byte, a tunnel and a key: how the two ends exchange keys.
pub open spec fn tunnel_key_packet(op: u8, id: u16, pk: PublicKey) -> Seq<u8> {
    seq![op] + wire::enc_u16(id) + pk@
}

fn key_packet(op: u8, id: u16, pk: &PublicKey) -> (r: Vec<u8>)
    ensures
        r@ == tunnel_key_packet(op, id, *pk),
{
    let mut bytes: Vec<u8> = Vec::new();
    bytes.push(op);
    push_u16(&mut bytes, id);
    push_key(&mut bytes, pk);
    assert(bytes@ =~= tunnel_key_packet(op, id, *pk));
    bytes
}

/// The tunnel at the head of a packet.
pub open spec fn tunnel_at(d: Seq<u8>, p: int) -> u16 {
    (d[p] * 256 + d[p + 1]) as u16
}

fn read_tunnel(data: &[u8], at: usize) -> (r: u16)
    requires
        at + 2 <= data@.len(),
    ensures
        r == tunnel_at(data@, at as int),
{
    data[at] as u16 * 256 + data[at + 1] as u16
}

/// What a proposal of a tunnel leads to on the sending device: its end is
/// started under a new session identifier and its key goes back.
pub open spec fn tunnel_inited(n: NodeView, src: PeerAddr, d: Seq<u8>, fresh: KeyPair) -> (
    NodeView,
    Seq<EffectView>,
) {
    if d.len() < 18 {
        (n, Seq::empty())
    } else {
        let id = tunnel_at(d, 0);
        let p = PendingTunnelConnection {
            tunnel_id: id,
            our_conn_id: ids::next_id(ids::used_ids(n.owner)),
            our_key_pair: fresh,
            dest_device_uuid: wire::uuid_of(d.subrange(2, 18)),
        };
        (
            NodeView {
                owner: OwnerView {
                    pending_tunnel_connections: model::keep(
                        n.owner.pending_tunnel_connections,
                        started_is_not(id),
                    ).push(p),
                    ..n.owner
                },
                ..n
            },
            seq![
                EffectView::Send {
                    dest: src,
                    bytes: tunnel_key_packet(TUNNEL_CONNECT_REQUEST_OP, id, fresh.public_key),
                },
            ],
        )
    }
}

/// Takes the proposal of a tunnel. `fresh` is a new key pair for this end.
pub fn tunnel_init(node: &mut Node, src: PeerAddr, data: &[u8], fresh: KeyPair) -> (r: Vec<Effect>)
    requires
        old(node).owner.active_connections@.len() + old(node).owner.pending_connections@.len()
            < 65536,
    ensures
        (final(node)@, model::views(r@)) == tunnel_inited(old(node)@, src, data@, fresh),
        keys::keyed(old(node)@) ==> keys::keyed(final(node)@),
{
    broadcast use model::group_views;

    proof {
        if keys::keyed(node@) {
            keys::lemma_tunnel_inited(node@, src, data@, fresh);
        }
    }
    if data.len() < 18 {
        return Vec::new();
    }
    let id: u16 = read_tunnel(data, 0);
    let dest = match slice_uuid(data, 2) {
        Some(u) => u,
        None => {
            return Vec::new();
        },
    };
    let our_conn_id: u16 = allocate_conn_id(node);
    drop_started(&mut node.owner.pending_tunnel_connections, id);
    node.owner.pending_tunnel_connections.push(
        PendingTunnelConnection {
            tunnel_id: id,
            our_conn_id,
            our_key_pair: fresh,
            dest_device_uuid: dest,
        },
    );
    send_one(src, key_packet(TUNNEL_CONNECT_REQUEST_OP, id, &fresh.public_key))
}

pub open spec fn leg_is_not(id: u16) -> spec_fn(TunnelLeg) -> bool {
    |l: TunnelLeg| l.tunnel_id != id
}

/// The legs with one more, in place of any older one of the tunnel.
pub open spec fn with_leg(legs: Seq<TunnelLeg>, l: TunnelLeg) -> Seq<TunnelLeg> {
    model::keep(legs, leg_is_not(l.tunnel_id)).push(l)
}

fn put_leg(v: &mut Vec<TunnelLeg>, l: TunnelLeg)
    ensures
        final(v)@ == with_leg(old(v)@, l),
{
    let ghost s = v@;
    let ghost p = leg_is_not(l.tunnel_id);
    let mut out: Vec<TunnelLeg> = Vec::new();
    let mut i: usize = 0;
    assert(out@ =~= model::keep(s.take(0), p));
    while i < v.len()
        invariant
            i <= v@.len(),
            s == v@,
            p == leg_is_not(l.tunnel_id),
            out@ == model::keep(s.take(i as int), p),
        decreases v@.len() - i,
    {
        if v[i].tunnel_id != l.tunnel_id {
            out.push(v[i]);
        }
        proof {
            model::lemma_keep_step(s, p, i as int);
        }
        i += 1;
    }
    assert(s.take(s.len() as int) =~= s);
    out.push(l);
    *v = out;
}

/// The state with the session of this end of a tunnel.
pub open spec fn with_tunnel_session(
    n: NodeView,
    id: u16,
    conn_id: u16,
    keys: KeyPair,
    peer_pk: PublicKey,
    peer: Uuid,
    src: PeerAddr,
    timeout: u64,
) -> NodeView {
    let conn = ActiveConnection {
        id: conn_id,
        timeout,
        key_pair: keys,
        peer_public_key: peer_pk,
        peer_active_connection_id: 0,
        device_uuid: peer,
        peer_addr: src,
    };
    NodeView {
        owner: OwnerView {
            active_connections: ids::with_conn(n.owner.active_connections, conn, false),
            dg_tunnel_map: with_leg(n.owner.dg_tunnel_map, TunnelLeg { tunnel_id: id, conn_id }),
            ..n.owner
        },
        ..n
    }
}

/// What the sender's key leads to. A server that proposed the tunnel passes it
/// on to the destination; the destination opens its end and answers with its
/// own key.
pub open spec fn tunnel_requested(
    n: NodeView,
    src: PeerAddr,
    d: Seq<u8>,
    fresh: KeyPair,
    timeout: u64,
) -> (NodeView, Seq<EffectView>) {
    let id = tunnel_at(d, 0);
    let pk = wire::key_of(d.subrange(2, 34));
    if d.len() < 34 {
        (n, Seq::empty())
    } else {
        match model::first_where(n.owner.pending_tunnels, pending_tunnel_is(id)) {
            Some(i) => {
                let p = n.owner.pending_tunnels[i];
                (
                    NodeView {
                        owner: OwnerView {
                            pending_tunnels: n.owner.pending_tunnels.update(
                                i,
                                PendingTunnel { sender_ephem_pk: Some(pk), ..p },
                            ),
                            ..n.owner
                        },
                        ..n
                    },
                    match routing::session_with(n, p.dest_device_uuid) {
                        Some(conn) => seq![
                            EffectView::Send {
                                dest: conn.peer_addr,
                                bytes: tunnel_key_packet(TUNNEL_CONNECT_REQUEST_OP, id, pk)
                                    + p.sender_device_uuid@,
                            },
                        ],
                        None => Seq::empty(),
                    },
                )
            },
            None => if d.len() < 50 {
                (n, Seq::empty())
            } else {
                (
                    with_tunnel_session(
                        n,
                        id,
                        ids::next_id(ids::used_ids(n.owner)),
                        fresh,
                        pk,
                        wire::uuid_of(d.subrange(34, 50)),
                        src,
                        timeout,
                    ),
                    seq![
                        EffectView::Send {
                            dest: src,
                            bytes: tunnel_key_packet(TUNNEL_CONNECT_ACK_OP, id, fresh.public_key),
                        },
                    ],
                )
            },
        }
    }
}

/// Takes the sender's key of a tunnel. `fresh` is a new key pair, for the case
/// that this device is the destination.
pub fn tunnel_connect_request(
    node: &mut Node,
    src: PeerAddr,
    data: &[u8],
    fresh: KeyPair,
    now: u64,
    lifetime: u64,
) -> (r: Vec<Effect>)
    requires
        old(node).owner.active_connections@.len() + old(node).owner.pending_connections@.len()
            < 65536,
        now + lifetime <= u64::MAX,
    ensures
        (final(node)@, model::views(r@)) == tunnel_requested(
            old(node)@,
            src,
            data@,
            fresh,
            (now + lifetime) as u64,
        ),
        keys::keyed(old(node)@) ==> keys::keyed(final(node)@),
{
    broadcast use model::group_views;

    proof {
        if keys::keyed(node@) {
            keys::lemma_tunnel_requested(node@, src, data@, fresh, (now + lifetime) as u64);
        }
    }
    if data.len() < 34 {
        return Vec::new();
    }
    let id: u16 = read_tunnel(data, 0);
    let pk = match slice_key(data, 2) {
        Some(k) => k,
        None => {
            return Vec::new();
        },
    };
    match find_pending(&node.owner.pending_tunnels, id) {
        Some(i) => {
            let p = node.owner.pending_tunnels[i];
            let conn = find_session(node, &p.dest_device_uuid);
            node.owner.pending_tunnels.set(i, PendingTunnel { sender_ephem_pk: Some(pk), ..p });
            match conn {
                Some(conn) => {
                    let mut bytes = key_packet(TUNNEL_CONNECT_REQUEST_OP, id, &pk);
                    push_uuid(&mut bytes, &p.sender_device_uuid);
                    send_one(conn.peer_addr, bytes)
                },
                None => Vec::new(),
            }
        },
        None => {
            if data.len() < 50 {
                return Vec::new();
            }
            let sender = match slice_uuid(data, 34) {
                Some(u) => u,
                None => {
                    return Vec::new();
                },
            };
            let conn_id: u16 = allocate_conn_id(node);
            let conn = ActiveConnection {
                id: conn_id,
                timeout: now + lifetime,
                key_pair: fresh,
                peer_public_key: pk,
                peer_active_connection_id: 0,
                device_uuid: sender,
                peer_addr: src,
            };
            put_conn(&mut node.owner.active_connections, conn, false);
            put_leg(&mut node.owner.dg_tunnel_map, TunnelLeg { tunnel_id: id, conn_id });
            send_one(src, key_packet(TUNNEL_CONNECT_ACK_OP, id, &fresh.public_key))
        },
    }
}

pub open spec fn tunnel_is(id: u16) -> spec_fn(ActiveTunnel) -> bool {
    |t: ActiveTunnel| t.id == id
}

pub open spec fn tunnel_is_not(id: u16) -> spec_fn(ActiveTunnel) -> bool {
    |t: ActiveTunnel| t.id != id
}

/// The tunnels with one more, in place of any older one with its identifier.
pub open spec fn with_tunnel(v: Seq<ActiveTunnel>, t: ActiveTunnel) -> Seq<ActiveTunnel> {
    model::keep(v, tunnel_is_not(t.id)).push(t)
}

fn put_tunnel(v: &mut Vec<ActiveTunnel>, t: ActiveTunnel)
    ensures
        final(v)@ == with_tunnel(old(v)@, t),
{
    let ghost s = v@;
    let ghost p = tunnel_is_not(t.id);
    let mut out: Vec<ActiveTunnel> = Vec::new();
    let mut i: usize = 0;
    assert(out@ =~= model::keep(s.take(0), p));
    while i < v.len()
        invariant
            i <= v@.len(),
            s == v@,
            p == tunnel_is_not(t.id),
            out@ == model::keep(s.take(i as int), p),
        decreases v@.len() - i,
    {
        if v[i].id != t.id {
            out.push(v[i]);
        }
        proof {
            model::lemma_keep_step(s, p, i as int);
        }
        i += 1;
    }
    assert(s.take(s.len() as int) =~= s);
    out.push(t);
    *v = out;
}

/// What the destination's key leads to. On the server that proposed the tunnel
/// it comes up, if both ends still have sessions, and the key goes on to the
/// sender; the sender opens its end.
pub open spec fn tunnel_acked(
    n: NodeView,
    src: PeerAddr,
    d: Seq<u8>,
    now_ms: u64,
    timeout: u64,
) -> (NodeView, Seq<EffectView>) {
    let id = tunnel_at(d, 0);
    let pk = wire::key_of(d.subrange(2, 34));
    if d.len() < 34 {
        (n, Seq::empty())
    } else {
        match model::first_where(n.owner.pending_tunnels, pending_tunnel_is(id)) {
            Some(i) => {
                let p = n.owner.pending_tunnels[i];
                let a = routing::session_with(n, p.sender_device_uuid);
                let b = routing::session_with(n, p.dest_device_uuid);
                let tunnels = match (a, b) {
                    (Some(x), Some(y)) => with_tunnel(
                        n.owner.active_tunnels,
                        ActiveTunnel {
                            id,
                            connection_a_id: x.id,
                            connection_b_id: y.id,
                            last_used_at: now_ms,
                        },
                    ),
                    _ => n.owner.active_tunnels,
                };
                (
                    NodeView {
                        owner: OwnerView {
                            active_tunnels: tunnels,
                            pending_tunnels: model::keep(
                                n.owner.pending_tunnels,
                                pending_tunnel_is_not(id),
                            ),
                            ..n.owner
                        },
                        ..n
                    },
                    match a {
                        Some(conn) => seq![
                            EffectView::Send {
                                dest: conn.peer_addr,
                                bytes: tunnel_key_packet(TUNNEL_CONNECT_ACK_OP, id, pk),
                            },
                        ],
                        None => Seq::empty(),
                    },
                )
            },
            None => match model::first_where(
                n.owner.pending_tunnel_connections,
                started_is(id),
            ) {
                Some(k) => {
                    let p = n.owner.pending_tunnel_connections[k];
                    let m = NodeView {
                        owner: OwnerView {
                            pending_tunnel_connections: model::keep(
                                n.owner.pending_tunnel_connections,
                                started_is_not(id),
                            ),
                            ..n.owner
                        },
                        ..n
                    };
                    (
                        with_tunnel_session(
                            m,
                            id,
                            p.our_conn_id,
                            p.our_key_pair,
                            pk,
                            p.dest_device_uuid,
                            src,
                            timeout,
                        ),
                        Seq::empty(),
                    )
                },
                None => (n, Seq::empty()),
            },
        }
    }
}

/// Takes the destination's key of a tunnel. `now_ms` is in milliseconds of a
/// monotonic clock, `now` in seconds since the Unix epoch.
pub fn tunnel_connect_ack(
    node: &mut Node,
    src: PeerAddr,
    data: &[u8],
    now_ms: u64,
    now: u64,
    lifetime: u64,
) -> (r: Vec<Effect>)
    requires
        now + lifetime <= u64::MAX,
    ensures
        (final(node)@, model::views(r@)) == tunnel_acked(
            old(node)@,
            src,
            data@,
            now_ms,
            (now + lifetime) as u64,
        ),
        keys::keyed(old(node)@) ==> keys::keyed(final(node)@),
{
    broadcast use model::group_views;

    proof {
        if keys::keyed(node@) {
            keys::lemma_tunnel_acked(node@, src, data@, now_ms, (now + lifetime) as u64);
        }
    }
    if data.len() < 34 {
        return Vec::new();
    }
    let id: u16 = read_tunnel(data, 0);
    let pk = match slice_key(data, 2) {
        Some(k) => k,
        None => {
            return Vec::new();
        },
    };
    match find_pending(&node.owner.pending_tunnels, id) {
        Some(i) => {
            let p = node.owner.pending_tunnels[i];
            let a = find_session(node, &p.sender_device_uuid);
            let b = find_session(node, &p.dest_device_uuid);
            drop_pending(&mut node.owner.pending_tunnels, id);
            match a {
                Some(x) => {
                    if let Some(y) = b {
                        put_tunnel(
                            &mut node.owner.active_tunnels,
                            ActiveTunnel {
                                id,
                                connection_a_id: x.id,
                                connection_b_id: y.id,
                                last_used_at: now_ms,
                            },
                        );
                    }
                    send_one(x.peer_addr, key_packet(TUNNEL_CONNECT_ACK_OP, id, &pk))
                },
                None => Vec::new(),
            }
        },
        None => match find_started(&node.owner.pending_tunnel_connections, id) {
            Some(p) => {
                drop_started(&mut node.owner.pending_tunnel_connections, id);
                let conn = ActiveConnection {
                    id: p.our_conn_id,
                    timeout: now + lifetime,
                    key_pair: p.our_key_pair,
                    peer_public_key: pk,
                    peer_active_connection_id: 0,
                    device_uuid: p.dest_device_uuid,
                    peer_addr: src,
                };
                put_conn(&mut node.owner.active_connections, conn, false);
                put_leg(
                    &mut node.owner.dg_tunnel_map,
                    TunnelLeg { tunnel_id: id, conn_id: p.our_conn_id },
                );
                Vec::new()
            },
            None => Vec::new(),
        },
    }
}

/// A packet into a tunnel: the sender's session on the server, the tunnel, and
/// what the two ends alone can read.
pub open spec fn forward_packet(via_id: u16, id: u16, nonce: Seq<u8>, ciphertext: Seq<u8>) -> Seq<
    u8,
> {
    seq![TUNNEL_FORWARD_OP] + wire::enc_u16(via_id) + wire::enc_u16(id) + nonce + ciphertext
}

/// Frames an encrypted body for a tunnel.
pub fn tunnel_forward_packet(via_id: u16, id: u16, nonce: &[u8], ciphertext: &[u8]) -> (r: Vec<u8>)
    ensures
        r@ == forward_packet(via_id, id, nonce@, ciphertext@),
{
    let mut bytes: Vec<u8> = Vec::new();
    bytes.push(TUNNEL_FORWARD_OP);
    push_u16(&mut bytes, via_id);
    push_u16(&mut bytes, id);
    push_bytes(&mut bytes, nonce);
    push_bytes(&mut bytes, ciphertext);
    assert(bytes@ =~= forward_packet(via_id, id, nonce@, ciphertext@));
    bytes
}

/// The session at the far side of a tunnel from the session `from`.
pub open spec fn far_side(t: ActiveTunnel, from: u16) -> Option<u16> {
    if t.connection_a_id == from {
        Some(t.connection_b_id)
    } else if t.connection_b_id == from {
        Some(t.connection_a_id)
    } else {
        None
    }
}

/// What goes out at the far side of a tunnel: the tunnel and the same opaque
/// bytes.
pub open spec fn delivery_packet(id: u16, blob: Seq<u8>) -> Seq<u8> {
    seq![TUNNEL_DELIVERY_OP] + wire::enc_u16(id) + blob
}

/// What a packet into a tunnel leads to on the server.
pub open spec fn forwarded(n: NodeView, d: Seq<u8>, now_ms: u64, max_blob: int) -> (
    NodeView,
    Seq<EffectView>,
) {
    let from = tunnel_at(d, 0);
    let id = tunnel_at(d, 2);
    if d.len() < 28 || d.len() - 4 > max_blob {
        (n, Seq::empty())
    } else {
        match model::first_where(n.owner.active_tunnels, tunnel_is(id)) {
            None => (n, Seq::empty()),
            Some(i) => {
                let t = n.owner.active_tunnels[i];
                match far_side(t, from) {
                    None => (n, Seq::empty()),
                    Some(out) => (
                        NodeView {
                            owner: OwnerView {
                                active_tunnels: n.owner.active_tunnels.update(
                                    i,
                                    ActiveTunnel { last_used_at: now_ms, ..t },
                                ),
                                ..n.owner
                            },
                            ..n
                        },
                        match sync::session(n, out) {
                            Some(conn) => seq![
                                EffectView::Send {
                                    dest: conn.peer_addr,
                                    bytes: delivery_packet(id, d.skip(4)),
                                },
                            ],
                            None => Seq::empty(),
                        },
                    ),
                }
            },
        }
    }
}

fn find_tunnel(v: &Vec<ActiveTunnel>, id: u16) -> (r: Option<usize>)
    ensures
        match model::first_where(v@, tunnel_is(id)) {
            Some(i) => r == Some(i as usize) && 0 <= i < v@.len() && i == r->0,
            None => r is None,
        },
{
    let mut i: usize = 0;
    while i < v.len()
        invariant
            i <= v@.len(),
            forall|j: int| 0 <= j < i ==> !tunnel_is(id)(#[trigger] v@[j]),
        decreases v@.len() - i,
    {
        if v[i].id == id {
            proof {
                assert(tunnel_is(id)(v@[i as int]));
                model::lemma_first_at(v@, tunnel_is(id), i as int);
            }
            return Some(i);
        }
        i += 1;
    }
    proof {
        model::lemma_first_none(v@, tunnel_is(id));
    }
    None
}

/// Passes a packet on through a tunnel, unread. One that is too short or too
/// long, or from a session that is no end of the tunnel, is dropped.
pub fn tunnel_forward(node: &mut Node, data: &[u8], now_ms: u64, max_blob: usize) -> (r: Vec<Effect>)
    ensures
        (final(node)@, model::views(r@)) == forwarded(
            old(node)@,
            data@,
            now_ms,
            max_blob as int,
        ),
        keys::keyed(old(node)@) ==> keys::keyed(final(node)@),
{
    broadcast use model::group_views;

    proof {
        if keys::keyed(node@) {
            keys::lemma_forwarded(node@, data@, now_ms, max_blob as int);
        }
    }
    if data.len() < 28 || data.len() - 4 > max_blob {
        return Vec::new();
    }
    let from: u16 = read_tunnel(data, 0);
    let id: u16 = read_tunnel(data, 2);
    let i = match find_tunnel(&node.owner.active_tunnels, id) {
        Some(i) => i,
        None => {
            return Vec::new();
        },
    };
    let t = node.owner.active_tunnels[i];
    let out: u16 = if t.connection_a_id == from {
        t.connection_b_id
    } else if t.connection_b_id == from {
        t.connection_a_id
    } else {
        return Vec::new();
    };
    let conn = find_session_by_id(node, out);
    node.owner.active_tunnels.set(i, ActiveTunnel { last_used_at: now_ms, ..t });
    match conn {
        Some(conn) => {
            let blob = &data[4..data.len()];
            assert(blob@ =~= data@.skip(4));
            let mut bytes: Vec<u8> = Vec::new();
            bytes.push(TUNNEL_DELIVERY_OP);
            push_u16(&mut bytes, id);
            push_bytes(&mut bytes, blob);
            assert(bytes@ =~= delivery_packet(id, data@.skip(4)));
            send_one(conn.peer_addr, bytes)
        },
        None => Vec::new(),
    }
}

/// A tunnel carries both ways: what one side sends goes to the other.
pub proof fn law_tunnel_both_ways(t: ActiveTunnel)
    ensures
        far_side(t, t.connection_a_id) == Some(t.connection_b_id),
        far_side(t, t.connection_b_id) == Some(t.connection_a_id),
{
}

pub open spec fn leg_is(id: u16) -> spec_fn(TunnelLeg) -> bool {
    |l: TunnelLeg| l.tunnel_id == id
}

/// The session of this end of a tunnel.
pub open spec fn tunnel_session(n: NodeView, id: u16) -> Option<ActiveConnection> {
    match model::first_where(n.owner.dg_tunnel_map, leg_is(id)) {
        Some(i) => sync::session(n, n.owner.dg_tunnel_map[i].conn_id),
        None => None,
    }
}

fn find_leg(v: &Vec<TunnelLeg>, id: u16) -> (r: Option<usize>)
    ensures
        match model::first_where(v@, leg_is(id)) {
            Some(i) => r == Some(i as usize) && 0 <= i < v@.len() && i == r->0,
            None => r is None,
        },
{
    let mut i: usize = 0;
    while i < v.len()
        invariant
            i <= v@.len(),
            forall|j: int| 0 <= j < i ==> !leg_is(id)(#[trigger] v@[j]),
        decreases v@.len() - i,
    {
        if v[i].tunnel_id == id {
            proof {
                assert(leg_is(id)(v@[i as int]));
                model::lemma_first_at(v@, leg_is(id), i as int);
            }
            return Some(i);
        }
        i += 1;
    }
    proof {
        model::lemma_first_none(v@, leg_is(id));
    }
    None
}

/// A delivery as it has to be decrypted: with the session of the tunnel, a
/// nonce of 24 bytes, and the rest.
#[derive(Debug, PartialEq, Eq)]
pub struct SealedDelivery {
    pub conn: ActiveConnection,
    pub nonce: Vec<u8>,
    pub ciphertext: Vec<u8>,
}

/// How a delivery is to be decrypted: the session of its tunnel, the nonce and
/// the ciphertext.
pub open spec fn delivery_parts(n: NodeView, d: Seq<u8>) -> Option<
    (ActiveConnection, Seq<u8>, Seq<u8>),
> {
    if d.len() < 26 {
        None
    } else {
        match tunnel_session(n, tunnel_at(d, 0)) {
            Some(conn) => Some((conn, d.subrange(2, 26), d.skip(26))),
            None => None,
        }
    }
}

/// Finds how a delivery is to be decrypted; `None` if it is too short or its
/// tunnel has no session here.
pub fn tunnel_delivery_parts(node: &Node, data: &[u8]) -> (r: Option<SealedDelivery>)
    ensures
        match delivery_parts(node@, data@) {
            Some((conn, nonce, ciphertext)) => {
                &&& r matches Some(s)
                &&& s.conn == conn
                &&& s.nonce@ == nonce
                &&& s.ciphertext@ == ciphertext
            },
            None => r is None,
        },
{
    if data.len() < 26 {
        return None;
    }
    let id: u16 = read_tunnel(data, 0);
    let i = match find_leg(&node.owner.dg_tunnel_map, id) {
        Some(i) => i,
        None => { return None; },
    };
    let conn_id: u16 = node.owner.dg_tunnel_map[i].conn_id;
    match find_session_by_id(node, conn_id) {
        Some(conn) => {
            let nonce = bytes_of(data, 2, 26);
            let ciphertext = bytes_of(data, 26, data.len());
            assert(ciphertext@ =~= data@.skip(26));
            Some(SealedDelivery { conn, nonce, ciphertext })
        },
        None => None,
    }
}

/// Delivers what came out of a tunnel, decrypted, to an application of this
/// device.
pub fn tunnel_delivery(node: &Node, plaintext: &[u8], max_payload: usize) -> (r: Vec<Effect>)
    ensures
        model::views(r@) == relay::delivered(node@, plaintext@, max_payload as int),
{
    app_packet(node, plaintext, max_payload)
}

/// What goes into a tunnel at one end comes out at the other: the server finds
/// the tunnel in the packet, and the delivery holds the nonce and ciphertext
/// where the other end looks for them.
pub proof fn law_forward_then_deliver(
    via_id: u16,
    id: u16,
    nonce: Seq<u8>,
    ciphertext: Seq<u8>,
)
    requires
        nonce.len() == 24,
    ensures
        ({
            let f = forward_packet(via_id, id, nonce, ciphertext).skip(1);
            let d = delivery_packet(id, f.skip(4)).skip(1);
            &&& tunnel_at(f, 0) == via_id
            &&& tunnel_at(f, 2) == id
            &&& f.len() == 28 + ciphertext.len()
            &&& tunnel_at(d, 0) == id
            &&& d.subrange(2, 26) == nonce
            &&& d.skip(26) == ciphertext
        }),
{
    let f = forward_packet(via_id, id, nonce, ciphertext).skip(1);
    let d = delivery_packet(id, f.skip(4)).skip(1);
    assert(f.skip(4) =~= nonce + ciphertext);
    assert(d.subrange(2, 26) =~= nonce);
    assert(d.skip(26) =~= ciphertext);
    assert(f[0] == (via_id / 256) as u8 && f[1] == (via_id % 256) as u8);
    assert(f[2] == (id / 256) as u8 && f[3] == (id % 256) as u8);
    assert(d[0] == (id / 256) as u8 && d[1] == (id % 256) as u8);
}

/// A tunnel that was used lately.
pub open spec fn busy(now_ms: u64) -> spec_fn(ActiveTunnel) -> bool {
    |t: ActiveTunnel| now_ms - t.last_used_at < TUNNEL_IDLE_TIMEOUT_MS
}

/// A proposed tunnel both of whose ends have sessions.
pub open spec fn both_ends(conns: Seq<ActiveConnection>) -> spec_fn(PendingTunnel) -> bool {
    |p: PendingTunnel|
        model::any_where(conns, find::conn_to(p.sender_device_uuid)) && model::any_where(
            conns,
            find::conn_to(p.dest_device_uuid),
        )
}

/// A counter whose window has not passed.
pub open spec fn counting(now_ms: u64, window_ms: u64) -> spec_fn(TunnelCounter) -> bool {
    |c: TunnelCounter|
        (if now_ms >= c.window_start {
            now_ms - c.window_start
        } else {
            0
        }) < window_ms
}

/// A leg whose session is there and has not run out.
pub open spec fn live_leg(n: NodeView, now: u64) -> spec_fn(TunnelLeg) -> bool {
    |l: TunnelLeg| sync::session(n, l.conn_id) matches Some(c) && c.timeout > now
}

/// A leg of the tunnel that is not live.
pub open spec fn dead_leg_of(n: NodeView, now: u64, id: u16) -> spec_fn(TunnelLeg) -> bool {
    |l: TunnelLeg| l.tunnel_id == id && !live_leg(n, now)(l)
}

pub open spec fn no_dead_leg(n: NodeView, now: u64) -> spec_fn(PendingTunnelConnection) -> bool {
    |p: PendingTunnelConnection|
        !model::any_where(n.owner.dg_tunnel_map, dead_leg_of(n, now, p.tunnel_id))
}

/// The state after tunnels and what belongs to them were tidied up.
pub open spec fn tidied(n: NodeView, now_ms: u64, now: u64, window_ms: u64) -> NodeView {
    NodeView {
        owner: OwnerView {
            active_tunnels: model::keep(n.owner.active_tunnels, busy(now_ms)),
            pending_tunnels: model::keep(
                n.owner.pending_tunnels,
                both_ends(n.owner.active_connections),
            ),
            tunnel_counters: model::keep(n.owner.tunnel_counters, counting(now_ms, window_ms)),
            dg_tunnel_map: model::keep(n.owner.dg_tunnel_map, live_leg(n, now)),
            pending_tunnel_connections: model::keep(
                n.owner.pending_tunnel_connections,
                no_dead_leg(n, now),
            ),
            ..n.owner
        },
        ..n
    }
}

fn busy_tunnels(v: &Vec<ActiveTunnel>, now_ms: u64) -> (r: Vec<ActiveTunnel>)
    ensures
        r@ == model::keep(v@, busy(now_ms)),
{
    let mut out: Vec<ActiveTunnel> = Vec::new();
    let mut i: usize = 0;
    assert(out@ =~= model::keep(v@.take(0), busy(now_ms)));
    while i < v.len()
        invariant
            i <= v@.len(),
            out@ == model::keep(v@.take(i as int), busy(now_ms)),
        decreases v@.len() - i,
    {
        if v[i].last_used_at > now_ms || now_ms - v[i].last_used_at < TUNNEL_IDLE_TIMEOUT_MS {
            out.push(v[i]);
        }
        proof {
            model::lemma_keep_step(v@, busy(now_ms), i as int);
        }
        i += 1;
    }
    assert(v@.take(v@.len() as int) =~= v@);
    out
}

fn connected_pending(v: &Vec<PendingTunnel>, conns: &Vec<ActiveConnection>) -> (r: Vec<
    PendingTunnel,
>)
    ensures
        r@ == model::keep(v@, both_ends(conns@)),
{
    let mut out: Vec<PendingTunnel> = Vec::new();
    let mut i: usize = 0;
    assert(out@ =~= model::keep(v@.take(0), both_ends(conns@)));
    while i < v.len()
        invariant
            i <= v@.len(),
            out@ == model::keep(v@.take(i as int), both_ends(conns@)),
        decreases v@.len() - i,
    {
        let a = find_conn_to(conns, &v[i].sender_device_uuid);
        let b = find_conn_to(conns, &v[i].dest_device_uuid);
        if a.is_some() && b.is_some() {
            out.push(v[i]);
        }
        proof {
            model::lemma_keep_step(v@, both_ends(conns@), i as int);
        }
        i += 1;
    }
    assert(v@.take(v@.len() as int) =~= v@);
    out
}

fn counting_counters(v: &Vec<TunnelCounter>, now_ms: u64, window_ms: u64) -> (r: Vec<TunnelCounter>)
    ensures
        r@ == model::keep(v@, counting(now_ms, window_ms)),
{
    let ghost p = counting(now_ms, window_ms);
    let mut out: Vec<TunnelCounter> = Vec::new();
    let mut i: usize = 0;
    assert(out@ =~= model::keep(v@.take(0), p));
    while i < v.len()
        invariant
            i <= v@.len(),
            p == counting(now_ms, window_ms),
            out@ == model::keep(v@.take(i as int), p),
        decreases v@.len() - i,
    {
        let passed: u64 = if now_ms >= v[i].window_start {
            now_ms - v[i].window_start
        } else {
            0
        };
        if passed < window_ms {
            out.push(v[i]);
        }
        proof {
            model::lemma_keep_step(v@, p, i as int);
        }
        i += 1;
    }
    assert(v@.take(v@.len() as int) =~= v@);
    out
}

fn is_live_leg(node: &Node, l: &TunnelLeg, now: u64) -> (r: bool)
    ensures
        r == live_leg(node@, now)(*l),
{
    match find_session_by_id(node, l.conn_id) {
        Some(c) => c.timeout > now,
        None => false,
    }
}

fn live_legs(node: &Node, now: u64) -> (r: Vec<TunnelLeg>)
    ensures
        r@ == model::keep(node@.owner.dg_tunnel_map, live_leg(node@, now)),
{
    let v = &node.owner.dg_tunnel_map;
    let mut out: Vec<TunnelLeg> = Vec::new();
    let mut i: usize = 0;
    assert(out@ =~= model::keep(v@.take(0), live_leg(node@, now)));
    while i < v.len()
        invariant
            i <= v@.len(),
            out@ == model::keep(v@.take(i as int), live_leg(node@, now)),
        decreases v@.len() - i,
    {
        if is_live_leg(node, &v[i], now) {
            out.push(v[i]);
        }
        proof {
            model::lemma_keep_step(v@, live_leg(node@, now), i as int);
        }
        i += 1;
    }
    assert(v@.take(v@.len() as int) =~= v@);
    out
}

fn has_dead_leg(node: &Node, id: u16, now: u64) -> (r: bool)
    ensures
        r == model::any_where(node@.owner.dg_tunnel_map, dead_leg_of(node@, now, id)),
{
    let v = &node.owner.dg_tunnel_map;
    let mut i: usize = 0;
    while i < v.len()
        invariant
            i <= v@.len(),
            v@ == node@.owner.dg_tunnel_map,
            forall|j: int| 0 <= j < i ==> !dead_leg_of(node@, now, id)(#[trigger] v@[j]),
        decreases v@.len() - i,
    {
        if v[i].tunnel_id == id && !is_live_leg(node, &v[i], now) {
            assert(dead_leg_of(node@, now, id)(v@[i as int]));
            return true;
        }
        i += 1;
    }
    false
}

fn started_left(node: &Node, now: u64) -> (r: Vec<PendingTunnelConnection>)
    ensures
        r@ == model::keep(node@.owner.pending_tunnel_connections, no_dead_leg(node@, now)),
{
    let v = &node.owner.pending_tunnel_connections;
    let mut out: Vec<PendingTunnelConnection> = Vec::new();
    let mut i: usize = 0;
    assert(out@ =~= model::keep(v@.take(0), no_dead_leg(node@, now)));
    while i < v.len()
        invariant
            i <= v@.len(),
            out@ == model::keep(v@.take(i as int), no_dead_leg(node@, now)),
        decreases v@.len() - i,
    {
        if !has_dead_leg(node, v[i].tunnel_id, now) {
            out.push(v[i]);
        }
        proof {
            model::lemma_keep_step(v@, no_dead_leg(node@, now), i as int);
        }
        i += 1;
    }
    assert(v@.take(v@.len() as int) =~= v@);
    out
}

/// Drops idle tunnels, proposals one end of which is gone, counters whose
/// window has passed, and legs without a session. `now_ms` is in milliseconds of
/// a monotonic clock, `now` in seconds since the Unix epoch.
pub fn cleanup_tunnels(node: &mut Node, now_ms: u64, now: u64, counter_window_ms: u64)
    ensures
        final(node)@ == tidied(old(node)@, now_ms, now, counter_window_ms),
        keys::keyed(old(node)@) ==> keys::keyed(final(node)@),
{
    proof {
        if keys::keyed(node@) {
            keys::lemma_tidied(node@, now_ms, now, counter_window_ms);
        }
    }
    let started = started_left(node, now);
    let legs = live_legs(node, now);
    node.owner.active_tunnels = busy_tunnels(&node.owner.active_tunnels, now_ms);
    node.owner.pending_tunnels =
    connected_pending(&node.owner.pending_tunnels, &node.owner.active_connections);
    node.owner.tunnel_counters =
    counting_counters(&node.owner.tunnel_counters, now_ms, counter_window_ms);
    node.owner.dg_tunnel_map = legs;
    node.owner.pending_tunnel_connections = started;
}

/// After tidying up, every leg has a session that has not run out.
pub proof fn law_tidied_legs_live(n: NodeView, now_ms: u64, now: u64, window_ms: u64, i: int)
    requires
        0 <= i < tidied(n, now_ms, now, window_ms).owner.dg_tunnel_map.len(),
    ensures
        live_leg(tidied(n, now_ms, now, window_ms), now)(
            tidied(n, now_ms, now, window_ms).owner.dg_tunnel_map[i],
        ),
{
    let m = tidied(n, now_ms, now, window_ms);
    model::lemma_keep_again(n.owner.dg_tunnel_map, live_leg(n, now));
    assert(live_leg(n, now)(m.owner.dg_tunnel_map[i]));
}

/// Tidying up twice at one time is tidying up once.
pub proof fn law_tidy_twice(n: NodeView, now_ms: u64, now: u64, window_ms: u64)
    ensures
        tidied(tidied(n, now_ms, now, window_ms), now_ms, now, window_ms) == tidied(
            n,
            now_ms,
            now,
            window_ms,
        ),
{
    let m = tidied(n, now_ms, now, window_ms);
    model::lemma_keep_again(n.owner.active_tunnels, busy(now_ms));
    model::lemma_keep_again(n.owner.pending_tunnels, both_ends(n.owner.active_connections));
    model::lemma_keep_again(n.owner.tunnel_counters, counting(now_ms, window_ms));
    assert forall|j: int| 0 <= j < m.owner.dg_tunnel_map.len() implies live_leg(m, now)(
        #[trigger] m.owner.dg_tunnel_map[j],
    ) by {
        law_tidied_legs_live(n, now_ms, now, window_ms, j);
    }
    model::lemma_keep_all(m.owner.dg_tunnel_map, live_leg(m, now));
    model::lemma_keep_all(m.owner.pending_tunnel_connections, no_dead_leg(m, now));
}

/// A tunnel and a key are read as they were written, whatever follows.
pub proof fn lemma_key_packet(op: u8, id: u16, pk: PublicKey, rest: Seq<u8>)
    ensures
        ({
            let d = (tunnel_key_packet(op, id, pk) + rest).skip(1);
            &&& d.len() == 34 + rest.len()
            &&& tunnel_at(d, 0) == id
            &&& wire::key_of(d.subrange(2, 34)) == pk
            &&& d.skip(34) == rest
        }),
{
    let d = (tunnel_key_packet(op, id, pk) + rest).skip(1);
    assert(d[0] == (id / 256) as u8 && d[1] == (id % 256) as u8);
    assert(d.subrange(2, 34) =~= pk@);
    assert(d.skip(34) =~= rest);
    wire::lemma_key_of(pk);
}

/// A leg put last is the one found under its tunnel.
proof fn lemma_leg_found(legs: Seq<TunnelLeg>, l: TunnelLeg)
    ensures
        ({
            let s = with_leg(legs, l);
            &&& model::first_where(s, leg_is(l.tunnel_id)) == Some(s.len() - 1)
            &&& s[s.len() - 1] == l
        }),
{
    let k = model::keep(legs, leg_is_not(l.tunnel_id));
    let s = k.push(l);
    let i = k.len() as int;
    model::lemma_keep_again(legs, leg_is_not(l.tunnel_id));
    assert forall|j: int| 0 <= j < i implies !leg_is(l.tunnel_id)(#[trigger] s[j]) by {
        assert(s[j] == k[j]);
        assert(leg_is_not(l.tunnel_id)(k[j]));
    }
    assert(leg_is(l.tunnel_id)(s[i]));
    model::lemma_first_at(s, leg_is(l.tunnel_id), i);
}

/// The steps by which a tunnel comes up, one after the other: the server, the
/// sender, the server, the destination, the server, the sender.
pub open spec fn tunnel_steps(
    server: NodeView,
    a: NodeView,
    b: NodeView,
    fresh_a: KeyPair,
    fresh_b: KeyPair,
    seen: PeerAddr,
    now_ms: u64,
    timeout: u64,
) -> (NodeView, NodeView, NodeView) {
    let id = next_tunnel_id(server.owner);
    let init = (seq![TUNNEL_INIT_OP] + wire::enc_u16(id) + b.device_uuid@).skip(1);
    let ask = tunnel_key_packet(TUNNEL_CONNECT_REQUEST_OP, id, fresh_a.public_key);
    let ack = tunnel_key_packet(TUNNEL_CONNECT_ACK_OP, id, fresh_b.public_key);
    let s1 = tunnel_begun(server, a.device_uuid, b.device_uuid).0;
    let a1 = tunnel_inited(a, seen, init, fresh_a).0;
    let s2 = tunnel_requested(s1, seen, ask.skip(1), fresh_b, timeout).0;
    let b1 = tunnel_requested(
        b,
        seen,
        (ask + a.device_uuid@).skip(1),
        fresh_b,
        timeout,
    ).0;
    let s3 = tunnel_acked(s2, seen, ack.skip(1), now_ms, timeout).0;
    let a2 = tunnel_acked(a1, seen, ack.skip(1), now_ms, timeout).0;
    (s3, a2, b1)
}

/// The server finds its proposal under the identifier that it gave it, before and
/// after the sender's key has come.
pub proof fn lemma_proposal_found(
    server: NodeView,
    sender: Uuid,
    dest: Uuid,
    src: PeerAddr,
    pk: PublicKey,
    fresh: KeyPair,
    timeout: u64,
)
    requires
        routing::session_with(server, sender) is Some,
        routing::session_with(server, dest) is Some,
    ensures
        ({
            let id = next_tunnel_id(server.owner);
            let p = PendingTunnel {
                tunnel_id: id,
                sender_device_uuid: sender,
                dest_device_uuid: dest,
                sender_ephem_pk: None,
            };
            let ask = tunnel_key_packet(TUNNEL_CONNECT_REQUEST_OP, id, pk).skip(1);
            let s1 = tunnel_begun(server, sender, dest).0;
            let s2 = tunnel_requested(s1, src, ask, fresh, timeout).0;
            let k = s1.owner.pending_tunnels.len() - 1;
            &&& model::first_where(s1.owner.pending_tunnels, pending_tunnel_is(id)) == Some(k)
            &&& s1.owner.pending_tunnels[k] == p
            &&& model::first_where(s2.owner.pending_tunnels, pending_tunnel_is(id)) == Some(k)
            &&& s2.owner.pending_tunnels[k] == (PendingTunnel { sender_ephem_pk: Some(pk), ..p })
        }),
{
    let id = next_tunnel_id(server.owner);
    let packet = tunnel_key_packet(TUNNEL_CONNECT_REQUEST_OP, id, pk);
    lemma_key_packet(TUNNEL_CONNECT_REQUEST_OP, id, pk, Seq::empty());
    assert(packet + Seq::<u8>::empty() =~= packet);
    let s1 = tunnel_begun(server, sender, dest).0;
    let left = model::keep(server.owner.pending_tunnels, pending_tunnel_is_not(id));
    let p1 = s1.owner.pending_tunnels;
    let k = left.len() as int;
    model::lemma_keep_again(server.owner.pending_tunnels, pending_tunnel_is_not(id));
    assert forall|j: int| 0 <= j < k implies !pending_tunnel_is(id)(#[trigger] p1[j]) by {
        assert(pending_tunnel_is_not(id)(left[j]));
    }
    assert(pending_tunnel_is(id)(p1[k]));
    model::lemma_first_at(p1, pending_tunnel_is(id), k);
    let s2 = tunnel_requested(s1, src, packet.skip(1), fresh, timeout).0;
    let p2 = s2.owner.pending_tunnels;
    assert forall|j: int| 0 <= j < k implies !pending_tunnel_is(id)(#[trigger] p2[j]) by {
        assert(!pending_tunnel_is(id)(p1[j]));
    }
    assert(pending_tunnel_is(id)(p2[k]));
    model::lemma_first_at(p2, pending_tunnel_is(id), k);
}

/// A tunnel comes up whole: the server joins its sessions with the two devices,
/// and each device has a session for the tunnel with the other's identifier and
/// key.
pub proof fn law_tunnel_comes_up(
    server: NodeView,
    a: NodeView,
    b: NodeView,
    fresh_a: KeyPair,
    fresh_b: KeyPair,
    seen: PeerAddr,
    now_ms: u64,
    timeout: u64,
)
    requires
        routing::session_with(server, a.device_uuid) is Some,
        routing::session_with(server, b.device_uuid) is Some,
        model::first_where(
            a.owner.pending_tunnels,
            pending_tunnel_is(next_tunnel_id(server.owner)),
        ) is None,
        model::first_where(
            b.owner.pending_tunnels,
            pending_tunnel_is(next_tunnel_id(server.owner)),
        ) is None,
    ensures
        ({
            let id = next_tunnel_id(server.owner);
            let (s, x, y) = tunnel_steps(
                server,
                a,
                b,
                fresh_a,
                fresh_b,
                seen,
                now_ms,
                timeout,
            );
            &&& s.owner.active_tunnels.last() == (ActiveTunnel {
                id,
                connection_a_id: routing::session_with(server, a.device_uuid).unwrap().id,
                connection_b_id: routing::session_with(server, b.device_uuid).unwrap().id,
                last_used_at: now_ms,
            })
            &&& match (tunnel_session(x, id), tunnel_session(y, id)) {
                (Some(p), Some(q)) => {
                    &&& p.device_uuid == b.device_uuid
                    &&& q.device_uuid == a.device_uuid
                    &&& p.key_pair == fresh_a
                    &&& q.key_pair == fresh_b
                    &&& p.peer_public_key == fresh_b.public_key
                    &&& q.peer_public_key == fresh_a.public_key
                    &&& p.peer_addr == seen
                    &&& q.peer_addr == seen
                    &&& p.timeout == timeout
                    &&& q.timeout == timeout
                },
                _ => false,
            }
        }),
{
    let id = next_tunnel_id(server.owner);
    let init = (seq![TUNNEL_INIT_OP] + wire::enc_u16(id) + b.device_uuid@).skip(1);
    let ask = tunnel_key_packet(TUNNEL_CONNECT_REQUEST_OP, id, fresh_a.public_key);
    let ack = tunnel_key_packet(TUNNEL_CONNECT_ACK_OP, id, fresh_b.public_key);
    let none = Seq::<u8>::empty();
    lemma_key_packet(TUNNEL_CONNECT_REQUEST_OP, id, fresh_a.public_key, none);
    lemma_key_packet(TUNNEL_CONNECT_REQUEST_OP, id, fresh_a.public_key, a.device_uuid@);
    lemma_key_packet(TUNNEL_CONNECT_ACK_OP, id, fresh_b.public_key, none);
    assert(ask + none =~= ask);
    assert(ack + none =~= ack);
    assert(init[0] == (id / 256) as u8 && init[1] == (id % 256) as u8);
    assert(init.subrange(2, 18) =~= b.device_uuid@);
    wire::lemma_uuid_of(a.device_uuid);
    wire::lemma_uuid_of(b.device_uuid);

    // The server finds its own proposal again.
    lemma_proposal_found(
        server,
        a.device_uuid,
        b.device_uuid,
        seen,
        fresh_a.public_key,
        fresh_b,
        timeout,
    );

    // The sender finds the end that it started.
    let a1 = tunnel_inited(a, seen, init, fresh_a).0;
    let rest = model::keep(a.owner.pending_tunnel_connections, started_is_not(id));
    let c1 = a1.owner.pending_tunnel_connections;
    let m = rest.len() as int;
    model::lemma_keep_again(a.owner.pending_tunnel_connections, started_is_not(id));
    assert forall|j: int| 0 <= j < m implies !started_is(id)(#[trigger] c1[j]) by {
        assert(started_is_not(id)(rest[j]));
    }
    assert(started_is(id)(c1[m]));
    model::lemma_first_at(c1, started_is(id), m);

    // Each end finds its session.
    let full = (ask + a.device_uuid@).skip(1);
    assert(full.subrange(34, 50) =~= full.skip(34));
    let conn_a = ids::next_id(ids::used_ids(a.owner));
    let conn_b = ids::next_id(ids::used_ids(b.owner));
    let x = ActiveConnection {
        id: conn_a,
        timeout,
        key_pair: fresh_a,
        peer_public_key: fresh_b.public_key,
        peer_active_connection_id: 0,
        device_uuid: b.device_uuid,
        peer_addr: seen,
    };
    let y = ActiveConnection {
        id: conn_b,
        timeout,
        key_pair: fresh_b,
        peer_public_key: fresh_a.public_key,
        peer_active_connection_id: 0,
        device_uuid: a.device_uuid,
        peer_addr: seen,
    };
    ids::law_put_then_find(a1.owner.active_connections, x, false);
    ids::law_put_then_find(b.owner.active_connections, y, false);
    lemma_leg_found(a1.owner.dg_tunnel_map, TunnelLeg { tunnel_id: id, conn_id: conn_a });
    lemma_leg_found(b.owner.dg_tunnel_map, TunnelLeg { tunnel_id: id, conn_id: conn_b });
}

} // verus!
