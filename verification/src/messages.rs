//! What becomes of an application's message, told by applications, sessions,
//! tunnels and counters alone.
use crate::app_edge;
use crate::app_edge::{RegisterWith, RegistrationView, UpdateView};
use crate::apply;
use crate::change;
use crate::change::ChangeView;
use crate::device_wire;
use crate::effects::{EffectView, Task};
use crate::find;
use crate::following;
use crate::lists;
use crate::model;
use crate::outcomes;
use crate::passage;
use crate::relay;
use crate::relay::RelayLimits;
use crate::routing;
use crate::routing::WriterTarget;
use crate::sync;
use crate::types::{
    ActiveConnection, ApplicationView, HostAddr, NodeView, PeerAddr, TunnelCounter, Uuid,
};
use crate::wire;
use crate::wire::{
    APP_PACKET_OP, APP_PUSH_OP, ERR_BAD_PACKET, ERR_NOT_APPROVED, ERR_NO_ROUTE, ERR_NO_WRITER,
    ERR_PAYLOAD_TOO_LARGE, ERR_RATE_LIMITED, ERR_TOKEN_UNKNOWN, OK, RELAY_PACKET_OP, STATUS_ERR,
    SYNC_WRITE_REQUEST_OP,
};
use vstd::prelude::*;

verus! {

/// The leg of a tunnel whose session is with a device.
pub open spec fn leads_to(n: NodeView, i: int, c: ActiveConnection, dest: Uuid) -> bool {
    &&& 0 <= i < n.owner.dg_tunnel_map.len()
    &&& following::session_under(n, n.owner.dg_tunnel_map[i].conn_id, c)
    &&& c.device_uuid == dest
}

/// A session with a device that has not run out and that is of no tunnel.
pub open spec fn straight(n: NodeView, c: ActiveConnection, dest: Uuid, now: u64) -> bool {
    &&& n.owner.active_connections.contains(c)
    &&& c.device_uuid == dest
    &&& c.timeout > now
    &&& forall|i: int|
        0 <= i < n.owner.dg_tunnel_map.len() ==> (#[trigger] n.owner.dg_tunnel_map[i]).conn_id
            != c.id
}

pub proof fn lemma_session_is_under(n: NodeView, id: u16)
    ensures
        sync::session(n, id) matches Some(c) ==> following::session_under(n, id, c),
{
    let s = n.owner.active_connections;
    let p = find::conn_has_id(id);
    model::lemma_first_where(s, p);
    match model::first_where(s, p) {
        Some(i) => {
            assert(p(s[i]));
            assert forall|j: int| 0 <= j < i implies (#[trigger] s[j]).id != id by {
                assert(!p(s[j]));
            }
        },
        None => {},
    }
}

proof fn lemma_straight(n: NodeView, c: ActiveConnection, dest: Uuid, now: u64)
    ensures
        straight(n, c, dest, now) <==> n.owner.active_connections.contains(c) && app_edge::direct(
            n,
            dest,
            now,
        )(c),
{
    let legs = n.owner.dg_tunnel_map;
    let p = app_edge::leg_on(c.id);
    if model::any_where(legs, p) {
        let i = choose|i: int| 0 <= i < legs.len() && p(#[trigger] legs[i]);
        assert(legs[i].conn_id == c.id);
    } else {
        assert forall|i: int| 0 <= i < legs.len() implies (#[trigger] legs[i]).conn_id != c.id by {
            assert(!p(legs[i]));
        }
    }
}

/// A message takes a tunnel to the device wherever there is one and a server to
/// carry it; else a session with the device itself, that has not run out and is
/// of no tunnel; else a server carries it, with the device at its head. Where it
/// takes the longer way, the shorter one was not there, and where it takes none
/// there is none.
pub proof fn law_shortest_way(n: NodeView, dest: Uuid, inner: Seq<u8>, now: u64)
    ensures
        ({
            let via = routing::carrier(n, dest);
            match app_edge::routed(n, dest, inner, now) {
                Some(EffectView::SealTunnel { conn, via: by, tunnel_id, body }) => {
                    &&& body == inner
                    &&& via == Some(by)
                    &&& exists|i: int| #[trigger]
                        leads_to(n, i, conn, dest) && n.owner.dg_tunnel_map[i].tunnel_id
                            == tunnel_id
                },
                Some(EffectView::Seal { conn, op, body }) => {
                    &&& via is Some ==> forall|i: int, c: ActiveConnection|
                        !#[trigger] leads_to(n, i, c, dest)
                    &&& {
                        ||| op == APP_PACKET_OP && body == inner && straight(n, conn, dest, now)
                        ||| op == RELAY_PACKET_OP && body == dest@ + inner && via == Some(conn)
                            && forall|c: ActiveConnection| !#[trigger] straight(n, c, dest, now)
                    }
                },
                Some(_) => false,
                None => {
                    &&& via is None
                    &&& forall|c: ActiveConnection| !#[trigger] straight(n, c, dest, now)
                },
            }
        }),
{
    let via = routing::carrier(n, dest);
    let legs = n.owner.dg_tunnel_map;
    let conns = n.owner.active_connections;
    let p = app_edge::leg_to(n, dest);
    let q = app_edge::direct(n, dest, now);
    model::lemma_first_where(legs, p);
    model::lemma_first_where(conns, q);
    match model::first_where(legs, p) {
        Some(i) => {
            assert(p(legs[i]));
            lemma_session_is_under(n, legs[i].conn_id);
            assert(leads_to(n, i, sync::session(n, legs[i].conn_id)->0, dest));
        },
        None => {
            assert forall|i: int, c: ActiveConnection| !#[trigger] leads_to(n, i, c, dest) by {
                if leads_to(n, i, c, dest) {
                    following::lemma_session_under(n, legs[i].conn_id, c);
                    assert(p(legs[i]));
                }
            }
        },
    }
    match model::first_where(conns, q) {
        Some(i) => {
            assert(q(conns[i]));
            lemma_straight(n, conns[i], dest, now);
        },
        None => {
            assert forall|c: ActiveConnection| !#[trigger] straight(n, c, dest, now) by {
                lemma_straight(n, c, dest, now);
                if straight(n, c, dest, now) {
                    let i = choose|i: int| 0 <= i < conns.len() && conns[i] == c;
                    assert(q(conns[i]));
                }
            }
        },
    }
}

/// One answer to an address, with an error code, and nothing else.
pub open spec fn refused(e: Seq<EffectView>, src: PeerAddr, code: u8) -> bool {
    &&& e.len() == 1
    &&& e[0] matches EffectView::Send { dest, bytes } && dest == src && bytes.len() == 2 && bytes[0]
        == STATUS_ERR && bytes[1] == code
}

/// The `k`-th application of this device is the first with a token.
pub open spec fn token_at(n: NodeView, i: int, token: Uuid, k: int) -> bool {
    &&& outcomes::device_at(n.owner, n.device_uuid, i)
    &&& 0 <= k < n.owner.user.devices[i].applications.len()
    &&& n.owner.user.devices[i].applications[k].token == token
    &&& forall|j: int|
        0 <= j < k ==> (#[trigger] n.owner.user.devices[i].applications[j]).token != token
}

proof fn lemma_token_at(n: NodeView, i: int, token: Uuid, k: int)
    requires
        token_at(n, i, token, k),
    ensures
        app_edge::own_index(n) == Some(i),
        model::first_where(app_edge::own_apps(n), find::app_has_token(token)) == Some(k),
        app_edge::app_of_token(n, token) == Some(n.owner.user.devices[i].applications[k]),
{
    outcomes::lemma_device_at(n.owner, n.device_uuid, i);
    let apps = n.owner.user.devices[i].applications;
    let p = find::app_has_token(token);
    assert(p(apps[k]));
    assert forall|j: int| 0 <= j < k implies !p(#[trigger] apps[j]) by {}
    model::lemma_first_at(apps, p, k);
}

/// Why a message is refused. Beyond the rate of the application it is refused
/// whoever sends it; then for its size; then for a token that no application of
/// this device has; then for an application that the user has not approved; and
/// last where there is no way. The answer goes to where the message came from.
pub proof fn law_refusals(
    n: NodeView,
    src: PeerAddr,
    i: int,
    token: Uuid,
    dest: Uuid,
    dest_app: Uuid,
    payload: Seq<u8>,
    allowed: bool,
    now: u64,
    max_payload: int,
    k: int,
)
    requires
        outcomes::device_at(n.owner, n.device_uuid, i),
    ensures
        ({
            let e = app_edge::app_sent(
                n,
                src,
                app_edge::send_request(token, dest, dest_app, payload),
                allowed,
                now,
                max_payload,
            );
            let apps = n.owner.user.devices[i].applications;
            let fits = payload.len() <= max_payload;
            &&& !allowed ==> refused(e, src, ERR_RATE_LIMITED)
            &&& allowed && !fits ==> refused(e, src, ERR_PAYLOAD_TOO_LARGE)
            &&& allowed && fits && (forall|j: int|
                0 <= j < apps.len() ==> (#[trigger] apps[j]).token != token) ==> refused(
                e,
                src,
                ERR_TOKEN_UNKNOWN,
            )
            &&& allowed && fits && token_at(n, i, token, k) && !apps[k].user_approved ==> refused(
                e,
                src,
                ERR_NOT_APPROVED,
            )
            &&& allowed && fits && token_at(n, i, token, k) && apps[k].user_approved ==> {
                let inner = dest_app@ + apps[k].id@ + payload;
                match app_edge::routed(n, dest, inner, now) {
                    Some(x) => e.len() == 1 && e[0] == x,
                    None => refused(e, src, ERR_NO_ROUTE),
                }
            }
        }),
{
    let d = app_edge::send_request(token, dest, dest_app, payload);
    assert(d.subrange(0, 16) =~= token@);
    assert(d.subrange(16, 32) =~= dest@);
    assert(d.subrange(32, 48) =~= dest_app@);
    assert(d.skip(48) =~= payload);
    wire::lemma_uuid_of(token);
    wire::lemma_uuid_of(dest);
    outcomes::lemma_device_at(n.owner, n.device_uuid, i);
    let apps = n.owner.user.devices[i].applications;
    if token_at(n, i, token, k) {
        lemma_token_at(n, i, token, k);
    }
    if forall|j: int| 0 <= j < apps.len() ==> (#[trigger] apps[j]).token != token {
        let p = find::app_has_token(token);
        assert forall|j: int| 0 <= j < apps.len() implies !p(#[trigger] apps[j]) by {}
        model::lemma_first_none(apps, p);
    }
}

/// The `k`-th application of this device is the first with an identifier that is
/// approved.
pub open spec fn listens(n: NodeView, i: int, app: Uuid, k: int) -> bool {
    &&& outcomes::device_at(n.owner, n.device_uuid, i)
    &&& 0 <= k < n.owner.user.devices[i].applications.len()
    &&& n.owner.user.devices[i].applications[k].id == app
    &&& n.owner.user.devices[i].applications[k].user_approved
    &&& forall|j: int|
        0 <= j < k && (#[trigger] n.owner.user.devices[i].applications[j]).id == app
            ==> !n.owner.user.devices[i].applications[j].user_approved
}

proof fn lemma_listens(n: NodeView, i: int, app: Uuid, k: int)
    requires
        listens(n, i, app, k),
    ensures
        relay::approved_host(n, app) == Some(n.owner.user.devices[i].applications[k].host),
{
    outcomes::lemma_device_at(n.owner, n.device_uuid, i);
    let apps = n.owner.user.devices[i].applications;
    let p = relay::approved_app(app);
    assert(p(apps[k]));
    assert forall|j: int| 0 <= j < k implies !p(#[trigger] apps[j]) by {}
    model::lemma_first_at(apps, p, k);
}

/// One datagram hands a payload to an application: the identifier of the sender
/// stands before it.
pub open spec fn handed_over(
    e: Seq<EffectView>,
    host: HostAddr,
    sender: Uuid,
    payload: Seq<u8>,
) -> bool {
    &&& e.len() == 1
    &&& e[0] matches EffectView::Send { dest, bytes } && dest == PeerAddr::V4(host) && bytes[0]
        == APP_PUSH_OP && bytes.len() == 17 + payload.len() && bytes.subrange(1, 17) == sender@
        && bytes.skip(17) == payload
}

/// A message that reaches the device is handed to the approved application it is
/// for, where it listens, whole.
pub proof fn law_message_is_handed_over(
    n: NodeView,
    i: int,
    app: Uuid,
    k: int,
    sender: Uuid,
    payload: Seq<u8>,
    max_payload: int,
)
    requires
        listens(n, i, app, k),
        payload.len() <= max_payload,
    ensures
        handed_over(
            relay::delivered(n, app@ + sender@ + payload, max_payload),
            n.owner.user.devices[i].applications[k].host,
            sender,
            payload,
        ),
{
    lemma_listens(n, i, app, k);
    let host = n.owner.user.devices[i].applications[k].host;
    relay::law_delivered_whole(n, app, sender, payload, max_payload, host);
    let b = relay::push_packet(sender, payload);
    assert(b.subrange(1, 17) =~= sender@);
    assert(b.skip(17) =~= payload);
}

/// A tunnel between two devices is there, in either direction, or proposed.
pub open spec fn tunnelled(n: NodeView, a: Uuid, b: Uuid) -> bool {
    ||| exists|i: int, x: ActiveConnection, y: ActiveConnection|
        0 <= i < n.owner.active_tunnels.len() && #[trigger] following::session_under(
            n,
            n.owner.active_tunnels[i].connection_a_id,
            x,
        ) && #[trigger] following::session_under(n, n.owner.active_tunnels[i].connection_b_id, y)
            && (x.device_uuid == a && y.device_uuid == b || x.device_uuid == b && y.device_uuid
            == a)
    ||| exists|i: int|
        0 <= i < n.owner.pending_tunnels.len() && (
        #[trigger] n.owner.pending_tunnels[i]).sender_device_uuid == a
            && n.owner.pending_tunnels[i].dest_device_uuid == b
}

proof fn lemma_tunnelled(n: NodeView, a: Uuid, b: Uuid)
    ensures
        tunnelled(n, a, b) <==> relay::has_tunnel(n, a, b),
{
    let ts = n.owner.active_tunnels;
    let ps = n.owner.pending_tunnels;
    let p = relay::joins(n, a, b);
    let q = relay::proposed_between(a, b);
    if tunnelled(n, a, b) {
        if exists|i: int|
            0 <= i < ps.len() && (#[trigger] ps[i]).sender_device_uuid == a
                && ps[i].dest_device_uuid == b {
            let i = choose|i: int|
                0 <= i < ps.len() && (#[trigger] ps[i]).sender_device_uuid == a
                    && ps[i].dest_device_uuid == b;
            assert(q(ps[i]));
        } else {
            let (i, x, y) = choose|i: int, x: ActiveConnection, y: ActiveConnection|
                0 <= i < n.owner.active_tunnels.len() && #[trigger] following::session_under(
                    n,
                    n.owner.active_tunnels[i].connection_a_id,
                    x,
                ) && #[trigger] following::session_under(
                    n,
                    n.owner.active_tunnels[i].connection_b_id,
                    y,
                ) && (x.device_uuid == a && y.device_uuid == b || x.device_uuid == b
                    && y.device_uuid == a);
            following::lemma_session_under(n, ts[i].connection_a_id, x);
            following::lemma_session_under(n, ts[i].connection_b_id, y);
            assert(p(ts[i]));
        }
    }
    if relay::has_tunnel(n, a, b) {
        if model::any_where(ts, p) {
            let i = choose|i: int| 0 <= i < ts.len() && p(#[trigger] ts[i]);
            lemma_session_is_under(n, ts[i].connection_a_id);
            lemma_session_is_under(n, ts[i].connection_b_id);
            let x = sync::session(n, ts[i].connection_a_id)->0;
            let y = sync::session(n, ts[i].connection_b_id)->0;
            assert(following::session_under(n, n.owner.active_tunnels[i].connection_a_id, x));
            assert(following::session_under(n, n.owner.active_tunnels[i].connection_b_id, y));
        } else {
            let i = choose|i: int| 0 <= i < ps.len() && q(#[trigger] ps[i]);
            assert(ps[i].sender_device_uuid == a);
        }
    }
}

/// The `i`-th counter is the one for packets from one device to another.
pub open spec fn counts_for(list: Seq<TunnelCounter>, a: Uuid, b: Uuid, i: int) -> bool {
    &&& 0 <= i < list.len()
    &&& list[i].sender_uuid == a
    &&& list[i].dest_uuid == b
    &&& forall|j: int|
        0 <= j < i ==> (#[trigger] list[j]).sender_uuid != a || list[j].dest_uuid != b
}

/// No counter is for packets from one device to another.
pub open spec fn uncounted(list: Seq<TunnelCounter>, a: Uuid, b: Uuid) -> bool {
    forall|j: int|
        0 <= j < list.len() ==> (#[trigger] list[j]).sender_uuid != a || list[j].dest_uuid != b
}

/// A packet that is relayed goes to the session with the device it is for, and
/// nowhere else. It calls for a tunnel exactly if it is the one by which the
/// packets from its sender to that device reach the threshold within the window,
/// and there is neither a tunnel nor a proposal yet.
pub proof fn law_relay_counts(
    n: NodeView,
    from: ActiveConnection,
    to: ActiveConnection,
    dest: Uuid,
    inner: Seq<u8>,
    now: u64,
    limits: RelayLimits,
    i: int,
)
    requires
        dest != n.device_uuid,
        32 <= inner.len(),
        inner.len() - 32 <= limits.max_payload,
        following::session_under(n, from.id, from),
        passage::session_to(n, dest, to),
        relay::counters_fit(n.owner.tunnel_counters),
    ensures
        ({
            let (m, e) = relay::relayed(n, from.id, dest@ + inner, now, limits);
            let before = n.owner.tunnel_counters;
            let after = m.owner.tunnel_counters;
            let a = from.device_uuid;
            let called = e.len() == 2 && e[1] == (EffectView::Schedule {
                task: Task::SetupTunnel { sender_uuid: a, dest_uuid: dest },
                delay_ms: 0,
            });
            &&& e.len() == 1 || called
            &&& e[0] == (EffectView::Seal { conn: to, op: APP_PACKET_OP, body: inner })
            &&& tunnelled(n, a, dest) ==> m == n && !called
            &&& !tunnelled(n, a, dest) && uncounted(before, a, dest) ==> {
                let due = limits.counter_window_ms > 0 && limits.tunnel_threshold <= 1;
                &&& called <==> due
                &&& due ==> after == before
                &&& !due ==> after == before.push(
                    TunnelCounter { sender_uuid: a, dest_uuid: dest, count: 1, window_start: now },
                )
            }
            &&& !tunnelled(n, a, dest) && counts_for(before, a, dest, i) ==> {
                let old_window = now - before[i].window_start >= limits.counter_window_ms
                    || limits.counter_window_ms == 0;
                let due = !old_window && before[i].count + 1 >= limits.tunnel_threshold;
                &&& called <==> due
                &&& due ==> after == before.remove(i)
                &&& !due ==> after == before.update(
                    i,
                    TunnelCounter {
                        sender_uuid: a,
                        dest_uuid: dest,
                        count: if old_window {
                            1
                        } else {
                            (before[i].count + 1) as u32
                        },
                        window_start: if old_window {
                            now
                        } else {
                            before[i].window_start
                        },
                    },
                )
            }
        }),
{
    let pt = dest@ + inner;
    assert(pt.subrange(0, 16) =~= dest@);
    assert(pt.skip(16) =~= inner);
    wire::lemma_uuid_of(dest);
    following::lemma_session_under(n, from.id, from);
    passage::lemma_session_to(n, dest, to);
    let a = from.device_uuid;
    lemma_tunnelled(n, a, dest);
    let list = n.owner.tunnel_counters;
    let p = relay::counts(a, dest);
    if uncounted(list, a, dest) {
        assert forall|j: int| 0 <= j < list.len() implies !p(#[trigger] list[j]) by {}
        model::lemma_first_none(list, p);
        let fresh = TunnelCounter { sender_uuid: a, dest_uuid: dest, count: 0, window_start: now };
        let l = list.push(fresh);
        assert(l.remove(list.len() as int) =~= list);
        let one = TunnelCounter { count: 1, ..fresh };
        assert(l.update(list.len() as int, one) =~= list.push(one));
    }
    if counts_for(list, a, dest, i) {
        assert(p(list[i]));
        assert forall|j: int| 0 <= j < i implies !p(#[trigger] list[j]) by {}
        model::lemma_first_at(list, p, i);
    }
}

/// The message of an application of a device that has a session with the device
/// it is for, through a server or not, comes out there as one datagram: what the
/// last law says of it holds whichever way it went.
pub proof fn law_message_comes_out(
    a: NodeView,
    i: int,
    k: int,
    token: Uuid,
    src: PeerAddr,
    server: NodeView,
    to: ActiveConnection,
    b: NodeView,
    bi: int,
    bk: int,
    dest_app: Uuid,
    payload: Seq<u8>,
    conn_id: u16,
    now: u64,
    now_ms: u64,
    limits: RelayLimits,
)
    requires
        token_at(a, i, token, k),
        a.owner.user.devices[i].applications[k].user_approved,
        listens(b, bi, dest_app, bk),
        payload.len() <= limits.max_payload,
        server.device_uuid != b.device_uuid,
        passage::session_to(server, b.device_uuid, to),
    ensures
        ({
            let e = app_edge::app_sent(
                a,
                src,
                app_edge::send_request(token, b.device_uuid, dest_app, payload),
                true,
                now,
                limits.max_payload as int,
            );
            let host = b.owner.user.devices[bi].applications[bk].host;
            let sender = a.owner.user.devices[i].applications[k].id;
            let max = limits.max_payload as int;
            &&& e.len() == 1
            &&& match e[0] {
                EffectView::SealTunnel { conn, body, .. } => conn.device_uuid == b.device_uuid
                    && handed_over(relay::delivered(b, body, max), host, sender, payload),
                EffectView::Seal { conn, op, body } => {
                    ||| op == APP_PACKET_OP && conn.device_uuid == b.device_uuid && handed_over(
                        relay::delivered(b, body, max),
                        host,
                        sender,
                        payload,
                    )
                    ||| op == RELAY_PACKET_OP && exists|last: Seq<u8>| #[trigger]
                        following::packet_at(
                            relay::relayed(server, conn_id, body, now_ms, limits).1,
                            0,
                            to,
                            APP_PACKET_OP,
                            last,
                        ) && handed_over(relay::delivered(b, last, max), host, sender, payload)
                },
                _ => refused(e, src, ERR_NO_ROUTE),
            }
        }),
{
    let app = a.owner.user.devices[i].applications[k];
    let host = b.owner.user.devices[bi].applications[bk].host;
    let dest = b.device_uuid;
    let max = limits.max_payload as int;
    let inner = dest_app@ + app.id@ + payload;
    lemma_token_at(a, i, token, k);
    lemma_listens(b, bi, dest_app, bk);
    passage::lemma_session_to(server, dest, to);
    law_refusals(a, src, i, token, dest, dest_app, payload, true, now, max, k);
    law_shortest_way(a, dest, inner, now);
    law_message_is_handed_over(b, bi, dest_app, bk, app.id, payload, max);
    relay::law_relayed_whole(server, conn_id, dest, inner, now_ms, limits);
    match app_edge::routed(a, dest, inner, now) {
        Some(EffectView::Seal { conn, op, body }) => {
            if op == RELAY_PACKET_OP {
                let e = relay::relayed(server, conn_id, body, now_ms, limits).1;
                assert(following::packet_at(e, 0, to, APP_PACKET_OP, inner));
            }
        },
        _ => {},
    }
}

/// The last effect answers an address with some bytes.
pub open spec fn answers(e: Seq<EffectView>, src: PeerAddr, bytes: Seq<u8>) -> bool {
    e.len() > 0 && e.last() == (EffectView::Send { dest: src, bytes })
}

/// The first application of a list with a name and an address.
pub open spec fn placed_at(
    apps: Seq<ApplicationView>,
    alias: Seq<char>,
    host: HostAddr,
    k: int,
) -> bool {
    &&& 0 <= k < apps.len()
    &&& apps[k].alias == alias
    &&& apps[k].host == host
    &&& forall|j: int|
        0 <= j < k ==> (#[trigger] apps[j]).alias != alias || apps[j].host != host
}

/// No application of a list has a name and an address.
pub open spec fn not_placed(apps: Seq<ApplicationView>, alias: Seq<char>, host: HostAddr) -> bool {
    forall|j: int|
        0 <= j < apps.len() ==> (#[trigger] apps[j]).alias != alias || apps[j].host != host
}

/// Whoever registers again under the name and from the address that it has is
/// told its token again, and nothing changes.
pub proof fn law_known_registration(
    n: NodeView,
    i: int,
    k: int,
    src: PeerAddr,
    d: Seq<u8>,
    g: RegistrationView,
    w: RegisterWith,
)
    requires
        app_edge::parse_registration(d, src) == Some(g),
        outcomes::device_at(n.owner, n.device_uuid, i),
        placed_at(n.owner.user.devices[i].applications, g.alias, g.host, k),
    ensures
        ({
            let (m, e) = app_edge::registration_answered(n, src, d, true, w);
            &&& m == n
            &&& e.len() == 2
            &&& e[0] == EffectView::Save
            &&& answers(e, src, seq![OK] + n.owner.user.devices[i].applications[k].token@)
        }),
{
    outcomes::lemma_device_at(n.owner, n.device_uuid, i);
    let apps = n.owner.user.devices[i].applications;
    let p = app_edge::app_at(g.alias, g.host);
    assert(p(apps[k]));
    assert forall|j: int| 0 <= j < k implies !p(#[trigger] apps[j]) by {}
    model::lemma_first_at(apps, p, k);
}

/// A new application stands behind the others of the device, as it was
/// registered.
pub open spec fn enlisted(
    n: NodeView,
    m: NodeView,
    i: int,
    g: RegistrationView,
    w: RegisterWith,
) -> bool {
    let before = n.owner.user.devices[i].applications;
    let after = m.owner.user.devices[i].applications;
    &&& m.device_uuid == n.device_uuid
    &&& m.owner.contact_users == n.owner.contact_users
    &&& m.owner.user.devices.len() == n.owner.user.devices.len()
    &&& forall|k: int|
        0 <= k < n.owner.user.devices.len() && k != i ==> #[trigger] m.owner.user.devices[k]
            == n.owner.user.devices[k]
    &&& after.len() == before.len() + 1
    &&& forall|k: int| 0 <= k < before.len() ==> #[trigger] after[k] == before[k]
    &&& after.last().id == w.fresh_id
    &&& after.last().token == w.fresh_token
    &&& after.last().alias == g.alias
    &&& after.last().protocol == g.protocol
    &&& after.last().host == g.host
    &&& after.last().user_approved == w.auto_approve
}

/// A new application is added as it registered, approved at once or not, and gets
/// the new token. One that is approved at once is also made public: where another
/// node writes, the request to add it goes to that node; where this one does, the
/// public version moves on; and where nobody can, the application is taken out
/// again and refused.
pub proof fn law_new_registration(
    n: NodeView,
    i: int,
    src: PeerAddr,
    d: Seq<u8>,
    g: RegistrationView,
    w: RegisterWith,
    c: ActiveConnection,
)
    requires
        app_edge::parse_registration(d, src) == Some(g),
        n.owner.public_version.room(2),
        outcomes::device_at(n.owner, n.device_uuid, i),
        not_placed(n.owner.user.devices[i].applications, g.alias, g.host),
        outcomes::no_app(n.owner.user.devices[i].applications, w.fresh_id),
        w.target matches WriterTarget::Remote(u) ==> passage::session_to(n, u, c),
        change::plain_change(
            ChangeView::AddApplication {
                device_uuid: n.device_uuid,
                app_id: w.fresh_id,
                app_alias: g.alias,
            },
        ),
    ensures
        ({
            let (m, e) = app_edge::registration_answered(n, src, d, true, w);
            let add = ChangeView::AddApplication {
                device_uuid: n.device_uuid,
                app_id: w.fresh_id,
                app_alias: g.alias,
            };
            let welcome = seq![OK] + w.fresh_token@;
            if !w.auto_approve {
                &&& enlisted(n, m, i, g, w)
                &&& m.owner.public_version == n.owner.public_version
                &&& e.len() == 2 && e[0] == EffectView::Save
                &&& answers(e, src, welcome)
            } else {
                match w.target {
                    WriterTarget::Remote(_) => {
                        &&& enlisted(n, m, i, g, w)
                        &&& m.owner.public_version == n.owner.public_version
                        &&& e.len() == 3 && e[1] == EffectView::Save
                        &&& asks_for(e, 0, c, add)
                        &&& answers(e, src, welcome)
                    },
                    WriterTarget::Local => {
                        &&& enlisted(n, m, i, g, w)
                        &&& outcomes::succeeds(
                            n.owner.public_version,
                            m.owner.public_version,
                            n.device_uuid,
                        )
                        &&& answers(e, src, welcome)
                    },
                    WriterTarget::Unreachable => {
                        &&& m.owner.user.devices[i].applications
                            == n.owner.user.devices[i].applications
                        &&& outcomes::same_but_apps(n.owner, m.owner, i)
                        &&& e.len() == 2 && e[0] == EffectView::Save
                        &&& answers(e, src, seq![STATUS_ERR, ERR_NO_WRITER])
                    },
                }
            }
        }),
{
    let before = n.owner.user.devices[i].applications;
    outcomes::lemma_device_at(n.owner, n.device_uuid, i);
    let p = app_edge::app_at(g.alias, g.host);
    assert forall|j: int| 0 <= j < before.len() implies !p(#[trigger] before[j]) by {}
    model::lemma_first_none(before, p);
    let x = ApplicationView {
        id: w.fresh_id,
        alias: g.alias,
        protocol: g.protocol,
        host: g.host,
        user_approved: w.auto_approve,
        token: w.fresh_token,
    };
    let more = before.push(x);
    let q = app_edge::with_own_apps(n, more);
    let add = ChangeView::AddApplication {
        device_uuid: n.device_uuid,
        app_id: w.fresh_id,
        app_alias: g.alias,
    };
    let (m, e) = app_edge::registration_answered(n, src, d, true, w);
    app_edge::lemma_same_index(n, more);
    assert(enlisted(n, q, i, g, w));
    if w.auto_approve {
        assert(more[before.len() as int].id == w.fresh_id);
        assert(outcomes::app_at(more, w.fresh_id, before.len() as int));
        outcomes::lemma_app_at(more, w.fresh_id, before.len() as int);
        assert(apply::applied(q.owner, add) == Some((false, q.owner)));
        let (_, k, sent) = sync::requested(q, add, w.target, true, w.now, w.retention);
        match w.target {
            WriterTarget::Remote(u) => {
                passage::lemma_session_to(n, u, c);
                change::law_change_roundtrip(add);
                assert(routing::session_with(q, u) == Some(c));
                assert(following::packet_at(
                    e,
                    0,
                    c,
                    SYNC_WRITE_REQUEST_OP,
                    change::enc_change(add),
                ));
            },
            WriterTarget::Local => {
                assert(m == k);
                assert(k.owner.user == q.owner.user);
                assert(e == sent + seq![
                    EffectView::Save,
                    app_edge::token_reply(src, w.fresh_token),
                ]);
                assert(e.last() == app_edge::token_reply(src, w.fresh_token));
            },
            WriterTarget::Unreachable => {
                let f = find::app_is_not(w.fresh_id);
                assert(more.drop_last() =~= before);
                assert(!f(more.last()));
                assert forall|j: int| 0 <= j < before.len() implies f(#[trigger] before[j]) by {}
                model::lemma_keep_all(before, f);
                assert(model::keep(more, f) == before);
                app_edge::lemma_same_index(q, before);
            },
        }
    }
}

/// The `k`-th effect hands a change to the peer of a session to be made.
pub open spec fn asks_for(
    e: Seq<EffectView>,
    k: int,
    c: ActiveConnection,
    x: ChangeView,
) -> bool {
    exists|body: Seq<u8>| #[trigger]
        following::packet_at(e, k, c, SYNC_WRITE_REQUEST_OP, body) && change::parse_change(body)
            == Some(x)
}

/// The application that `u` asks to be: the new name and the new port where they
/// are given, the port together with the address that the request came from.
pub open spec fn renewed(
    a: ApplicationView,
    b: ApplicationView,
    u: UpdateView,
    src: PeerAddr,
) -> bool {
    &&& b.id == a.id
    &&& b.token == a.token
    &&& b.protocol == a.protocol
    &&& b.user_approved == a.user_approved
    &&& b.alias == match u.alias {
        Some(s) => s,
        None => a.alias,
    }
    &&& u.port is None ==> b.host == a.host
    &&& u.port matches Some(port) ==> match src {
        PeerAddr::V4(h) => b.host.ip == h.ip && b.host.port == port,
        _ => true,
    }
}

/// An update gives the application with the token the name and the port that it
/// asks for, and leaves every other application as it was. A new name is made
/// public by the writer; where nobody can write, the application keeps its name
/// and is refused.
pub proof fn law_update_renews(
    n: NodeView,
    i: int,
    k: int,
    src: PeerAddr,
    d: Seq<u8>,
    u: UpdateView,
    target: WriterTarget,
    now: u64,
    retention: u64,
    c: ActiveConnection,
)
    requires
        app_edge::parse_update(d) == Some(u),
        n.owner.public_version.room(2),
        token_at(n, i, u.token, k),
        forall|j: int|
            0 <= j < n.owner.user.devices[i].applications.len() && j != k ==> (
            #[trigger] n.owner.user.devices[i].applications[j]).id
                != n.owner.user.devices[i].applications[k].id,
        target matches WriterTarget::Remote(w) ==> passage::session_to(n, w, c),
        u.alias matches Some(s) ==> change::plain_change(
            ChangeView::UpdateApplicationAlias {
                device_uuid: n.device_uuid,
                app_id: n.owner.user.devices[i].applications[k].id,
                new_alias: s,
            },
        ),
    ensures
        ({
            let (m, e) = app_edge::update_answered(n, src, d, target, now, retention);
            let before = n.owner.user.devices[i].applications;
            let after = m.owner.user.devices[i].applications;
            let renamed = u.alias is Some && u.alias != Some(before[k].alias);
            let rename = ChangeView::UpdateApplicationAlias {
                device_uuid: n.device_uuid,
                app_id: before[k].id,
                new_alias: u.alias->0,
            };
            &&& after.len() == before.len()
            &&& forall|j: int|
                0 <= j < before.len() && j != k ==> #[trigger] after[j] == before[j]
            &&& e.len() > 0 && e[0] == EffectView::Save
            &&& !renamed ==> {
                &&& renewed(before[k], after[k], u, src)
                &&& e.len() == 2
                &&& answers(e, src, seq![OK])
                &&& m.owner.public_version == n.owner.public_version
            }
            &&& renamed ==> match target {
                WriterTarget::Remote(_) => {
                    &&& renewed(before[k], after[k], u, src)
                    &&& e.len() == 3
                    &&& asks_for(e, 1, c, rename)
                    &&& answers(e, src, seq![OK])
                },
                WriterTarget::Local => {
                    &&& renewed(before[k], after[k], u, src)
                    &&& outcomes::succeeds(
                        n.owner.public_version,
                        m.owner.public_version,
                        n.device_uuid,
                    )
                    &&& answers(e, src, seq![OK])
                },
                WriterTarget::Unreachable => {
                    &&& renewed(before[k], after[k], UpdateView { alias: None, ..u }, src)
                    &&& e.len() == 3
                    &&& answers(e, src, seq![STATUS_ERR, ERR_NO_WRITER])
                },
            }
        }),
{
    lemma_token_at(n, i, u.token, k);
    let before = n.owner.user.devices[i].applications;
    let a = before[k];
    let b = app_edge::updated_app(a, u, src);
    let more = before.update(k, b);
    let q = app_edge::with_own_apps(n, more);
    app_edge::lemma_same_index(n, more);
    let (m, e) = app_edge::update_answered(n, src, d, target, now, retention);
    if b.alias != a.alias {
        assert(outcomes::app_at(more, a.id, k)) by {
            assert forall|j: int| 0 <= j < k implies (#[trigger] more[j]).id != a.id by {
                assert(more[j] == before[j]);
            }
        }
        outcomes::lemma_app_at(more, a.id, k);
        let rename = ChangeView::UpdateApplicationAlias {
            device_uuid: n.device_uuid,
            app_id: a.id,
            new_alias: b.alias,
        };
        assert(apply::applied(q.owner, rename) == Some((false, q.owner)));
        let (_, w, sent) = sync::requested(q, rename, target, true, now, retention);
        match target {
            WriterTarget::Remote(x) => {
                passage::lemma_session_to(n, x, c);
                change::law_change_roundtrip(rename);
                assert(routing::session_with(q, x) == Some(c));
                assert(following::packet_at(
                    e,
                    1,
                    c,
                    SYNC_WRITE_REQUEST_OP,
                    change::enc_change(rename),
                ));
            },
            WriterTarget::Local => {
                assert(w.owner.user == q.owner.user);
                assert(e.last() == app_edge::ok_reply(src));
            },
            WriterTarget::Unreachable => {
                assert(w == q);
                let back = more.update(k, ApplicationView { alias: a.alias, ..more[k] });
                app_edge::lemma_same_index(q, back);
                assert(e.last() == app_edge::refusal(src, ERR_NO_WRITER)[0]);
            },
        }
    }
}

/// Nobody else's application is updated: a token that no application of this
/// device has is refused.
pub proof fn law_update_needs_the_token(
    n: NodeView,
    i: int,
    src: PeerAddr,
    d: Seq<u8>,
    u: UpdateView,
    target: WriterTarget,
    now: u64,
    retention: u64,
)
    requires
        app_edge::parse_update(d) == Some(u),
        outcomes::device_at(n.owner, n.device_uuid, i),
        forall|j: int|
            0 <= j < n.owner.user.devices[i].applications.len() ==> (
            #[trigger] n.owner.user.devices[i].applications[j]).token != u.token,
    ensures
        ({
            let (m, e) = app_edge::update_answered(n, src, d, target, now, retention);
            m == n && refused(e, src, ERR_TOKEN_UNKNOWN)
        }),
{
    outcomes::lemma_device_at(n.owner, n.device_uuid, i);
    let apps = n.owner.user.devices[i].applications;
    let p = find::app_has_token(u.token);
    assert forall|j: int| 0 <= j < apps.len() implies !p(#[trigger] apps[j]) by {}
    model::lemma_first_none(apps, p);
}

/// Whoever registers too often, or in a packet that cannot be read, is refused,
/// and so is an update that cannot be read. Nothing changes.
pub proof fn law_unheard(
    n: NodeView,
    src: PeerAddr,
    d: Seq<u8>,
    w: RegisterWith,
    target: WriterTarget,
    now: u64,
    retention: u64,
)
    ensures
        ({
            let (m, e) = app_edge::registration_answered(n, src, d, false, w);
            m == n && refused(e, src, ERR_RATE_LIMITED)
        }),
        app_edge::parse_registration(d, src) is None ==> {
            let (m, e) = app_edge::registration_answered(n, src, d, true, w);
            m == n && refused(e, src, ERR_BAD_PACKET)
        },
        app_edge::parse_update(d) is None ==> {
            let (m, e) = app_edge::update_answered(n, src, d, target, now, retention);
            m == n && refused(e, src, ERR_BAD_PACKET)
        },
{
}

/// Some bytes stand somewhere among others.
pub open spec fn among_bytes(all: Seq<u8>, piece: Seq<u8>) -> bool {
    exists|k: int|
        0 <= k && k + piece.len() <= all.len() && #[trigger] all.subrange(k, k + piece.len())
            == piece
}

proof fn lemma_among_bytes(a: Seq<u8>, all: Seq<u8>, b: Seq<u8>, piece: Seq<u8>)
    requires
        among_bytes(all, piece),
    ensures
        among_bytes(a + all + b, piece),
{
    let k = choose|k: int|
        0 <= k && k + piece.len() <= all.len() && #[trigger] all.subrange(k, k + piece.len())
            == piece;
    let more = a + all + b;
    let l = a.len() + k;
    assert(more.subrange(l, l + piece.len()) =~= all.subrange(k, k + piece.len()));
}

proof fn lemma_leads(piece: Seq<u8>, b: Seq<u8>)
    ensures
        among_bytes(piece + b, piece),
{
    let all = piece + b;
    let k = 0int;
    assert(all.subrange(k, k + piece.len()) =~= piece);
}

proof fn lemma_item_stands<T>(s: Seq<T>, f: spec_fn(T) -> Seq<u8>, i: int, piece: Seq<u8>)
    requires
        0 <= i < s.len(),
        among_bytes(f(s[i]), piece),
    ensures
        among_bytes(lists::enc_all(s, f), piece),
    decreases s.len(),
{
    let t = s.drop_last();
    let none = Seq::<u8>::empty();
    if i == s.len() - 1 {
        lemma_among_bytes(lists::enc_all(t, f), f(s[i]), none, piece);
        assert(lists::enc_all(t, f) + f(s[i]) + none =~= lists::enc_all(s, f));
    } else {
        lemma_item_stands(t, f, i, piece);
        lemma_among_bytes(none, lists::enc_all(t, f), f(s.last()), piece);
        assert(none + lists::enc_all(t, f) + f(s.last()) =~= lists::enc_all(s, f));
    }
}

/// How an application is written down: its identifier, its name, where it is and
/// whether it is approved.
pub open spec fn app_entry(a: ApplicationView) -> Seq<u8> {
    a.id@ + wire::enc_str(a.alias) + seq![a.host.ip.a, a.host.ip.b, a.host.ip.c, a.host.ip.d]
        + wire::enc_u16(a.host.port) + seq![
        if a.user_approved {
            1u8
        } else {
            0u8
        },
    ]
}

/// The start of the directory that an application gets.
pub open spec fn directory_head(n: NodeView, me: ApplicationView) -> Seq<u8> {
    seq![OK] + app_entry(me) + me.token@ + n.device_uuid@ + wire::enc_str(n.owner.user.alias)
        + n.owner.user.uuid@
}

proof fn lemma_directory(n: NodeView, me: ApplicationView)
    ensures
        ({
            let ds = lists::enc_all(n.owner.user.devices, app_edge::own_device_enc());
            let cs = lists::enc_all(n.owner.contact_users, app_edge::known_contact_enc());
            let dn = seq![(n.owner.user.devices.len() % 256) as u8];
            let cn = seq![(n.owner.contact_users.len() % 256) as u8];
            let head = directory_head(n, me);
            &&& app_edge::directory(n, me) == (head + dn) + ds + (cn + cs)
            &&& app_edge::directory(n, me) == (head + dn + ds + cn) + cs + Seq::<u8>::empty()
            &&& head.len() <= app_edge::directory(n, me).len()
            &&& app_edge::directory(n, me).take(head.len() as int) == head
        }),
{
    let ds = lists::enc_all(n.owner.user.devices, app_edge::own_device_enc());
    let cs = lists::enc_all(n.owner.contact_users, app_edge::known_contact_enc());
    let dn = seq![(n.owner.user.devices.len() % 256) as u8];
    let cn = seq![(n.owner.contact_users.len() % 256) as u8];
    let head = directory_head(n, me);
    let bytes = app_edge::directory(n, me);
    assert(app_edge::enc_own_app(me) =~= app_entry(me));
    assert(bytes == head + dn + ds + cn + cs);
    assert(bytes =~= (head + dn) + ds + (cn + cs));
    assert(bytes =~= (head + dn + ds + cn) + cs + Seq::<u8>::empty());
    assert(bytes.take(head.len() as int) =~= head);
}

proof fn lemma_directory_device(n: NodeView, me: ApplicationView, d: int)
    requires
        0 <= d < n.owner.user.devices.len(),
    ensures
        among_bytes(
            app_edge::directory(n, me),
            n.owner.user.devices[d].uuid@ + wire::enc_str(n.owner.user.devices[d].alias),
        ),
{
    let devices = n.owner.user.devices;
    let x = devices[d];
    let name = x.uuid@ + wire::enc_str(x.alias);
    let one = app_edge::enc_own_device(x);
    let ds = lists::enc_all(devices, app_edge::own_device_enc());
    let cs = lists::enc_all(n.owner.contact_users, app_edge::known_contact_enc());
    let dn = seq![(devices.len() % 256) as u8];
    let cn = seq![(n.owner.contact_users.len() % 256) as u8];
    assert(one =~= name + one.skip(name.len() as int));
    lemma_leads(name, one.skip(name.len() as int));
    lemma_item_stands(devices, app_edge::own_device_enc(), d, name);
    lemma_directory(n, me);
    lemma_among_bytes(directory_head(n, me) + dn, ds, cn + cs, name);
}

proof fn lemma_directory_app(n: NodeView, me: ApplicationView, d: int, a: int)
    requires
        0 <= d < n.owner.user.devices.len(),
        0 <= a < n.owner.user.devices[d].applications.len(),
    ensures
        among_bytes(
            app_edge::directory(n, me),
            app_entry(n.owner.user.devices[d].applications[a]),
        ),
{
    let devices = n.owner.user.devices;
    let x = devices[d];
    let y = x.applications[a];
    let entry = app_entry(y);
    let one = app_edge::enc_own_device(x);
    let none = Seq::<u8>::empty();
    let ds = lists::enc_all(devices, app_edge::own_device_enc());
    let cs = lists::enc_all(n.owner.contact_users, app_edge::known_contact_enc());
    let dn = seq![(devices.len() % 256) as u8];
    let cn = seq![(n.owner.contact_users.len() % 256) as u8];
    assert(app_edge::enc_own_app(y) =~= entry);
    lemma_leads(entry, none);
    assert(entry + none =~= entry);
    lemma_item_stands(x.applications, app_edge::own_app_enc(), a, entry);
    let own = lists::enc_all(x.applications, app_edge::own_app_enc());
    let before = device_wire::enc_device_fields(x.uuid, x.alias, x.grade, x.sg_rank, x.hosts)
        + seq![(x.applications.len() % 256) as u8];
    lemma_among_bytes(before, own, none, entry);
    assert(before + own + none =~= one);
    lemma_item_stands(devices, app_edge::own_device_enc(), d, entry);
    lemma_directory(n, me);
    lemma_among_bytes(directory_head(n, me) + dn, ds, cn + cs, entry);
}

proof fn lemma_directory_contact(n: NodeView, me: ApplicationView, c: int)
    requires
        0 <= c < n.owner.contact_users.len(),
    ensures
        among_bytes(
            app_edge::directory(n, me),
            wire::enc_str(n.owner.contact_users[c].user.alias)
                + n.owner.contact_users[c].user.uuid@,
        ),
{
    let contacts = n.owner.contact_users;
    let x = contacts[c];
    let name = wire::enc_str(x.user.alias) + x.user.uuid@;
    let one = app_edge::enc_known_contact(x);
    let ds = lists::enc_all(n.owner.user.devices, app_edge::own_device_enc());
    let cs = lists::enc_all(contacts, app_edge::known_contact_enc());
    let dn = seq![(n.owner.user.devices.len() % 256) as u8];
    let cn = seq![(contacts.len() % 256) as u8];
    assert(one =~= name + one.skip(name.len() as int));
    lemma_leads(name, one.skip(name.len() as int));
    lemma_item_stands(contacts, app_edge::known_contact_enc(), c, name);
    lemma_directory(n, me);
    lemma_among_bytes(directory_head(n, me) + dn + ds + cn, cs, Seq::empty(), name);
}

/// An application that shows its token is answered with itself and its token, with
/// this device and its user, and with all devices of the user, their applications
/// and all contacts.
pub proof fn law_directory_is_complete(
    n: NodeView,
    src: PeerAddr,
    i: int,
    token: Uuid,
    k: int,
    rest: Seq<u8>,
    d: int,
    a: int,
    c: int,
)
    requires
        token_at(n, i, token, k),
    ensures
        ({
            let e = app_edge::looked_up(n, src, token@ + rest);
            let devices = n.owner.user.devices;
            let contacts = n.owner.contact_users;
            let head = directory_head(n, devices[i].applications[k]);
            &&& e.len() == 1
            &&& e[0] matches EffectView::Send { dest, bytes } && {
                &&& dest == src
                &&& head.len() <= bytes.len() && bytes.take(head.len() as int) == head
                &&& 0 <= d < devices.len() ==> among_bytes(
                    bytes,
                    devices[d].uuid@ + wire::enc_str(devices[d].alias),
                )
                &&& 0 <= d < devices.len() && 0 <= a < devices[d].applications.len()
                    ==> among_bytes(bytes, app_entry(devices[d].applications[a]))
                &&& 0 <= c < contacts.len() ==> among_bytes(
                    bytes,
                    wire::enc_str(contacts[c].user.alias) + contacts[c].user.uuid@,
                )
            }
        }),
{
    lemma_token_at(n, i, token, k);
    wire::lemma_uuid_of(token);
    assert((token@ + rest).subrange(0, 16) =~= token@);
    let devices = n.owner.user.devices;
    let me = devices[i].applications[k];
    lemma_directory(n, me);
    if 0 <= d < devices.len() {
        lemma_directory_device(n, me, d);
        if 0 <= a < devices[d].applications.len() {
            lemma_directory_app(n, me, d, a);
        }
    }
    if 0 <= c < n.owner.contact_users.len() {
        lemma_directory_contact(n, me, c);
    }
}

/// Whoever shows no token, or one that no application of this device has, gets no
/// directory.
pub proof fn law_directory_needs_a_token(
    n: NodeView,
    src: PeerAddr,
    i: int,
    token: Uuid,
    rest: Seq<u8>,
)
    requires
        outcomes::device_at(n.owner, n.device_uuid, i),
    ensures
        rest.len() < 16 ==> refused(app_edge::looked_up(n, src, rest), src, ERR_BAD_PACKET),
        (forall|j: int|
            0 <= j < n.owner.user.devices[i].applications.len() ==> (
            #[trigger] n.owner.user.devices[i].applications[j]).token != token) ==> refused(
            app_edge::looked_up(n, src, token@ + rest),
            src,
            ERR_TOKEN_UNKNOWN,
        ),
{
    outcomes::lemma_device_at(n.owner, n.device_uuid, i);
    let apps = n.owner.user.devices[i].applications;
    wire::lemma_uuid_of(token);
    assert((token@ + rest).subrange(0, 16) =~= token@);
    if forall|j: int| 0 <= j < apps.len() ==> (#[trigger] apps[j]).token != token {
        let p = find::app_has_token(token);
        assert forall|j: int| 0 <= j < apps.len() implies !p(#[trigger] apps[j]) by {}
        model::lemma_first_none(apps, p);
    }
}

} // verus!
