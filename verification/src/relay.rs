//! Relaying application packets between devices and delivering them to local
//! applications.
use crate::effects::{Effect, EffectView, Task};
use crate::find;
use crate::find::find_device;
use crate::keys;
use crate::model;
use crate::routing;
use crate::routing::find_session;
use crate::sync;
use crate::sync::find_session_by_id;
use crate::types::{
    uuid_eq, ActiveTunnel, ApplicationView, HostAddr, Node, NodeView, OwnerView, PeerAddr,
    PendingTunnel, TunnelCounter, Uuid,
};
use crate::wire;
use crate::wire::{push_bytes, push_uuid, slice_uuid, APP_PACKET_OP, APP_PUSH_OP};
use vstd::prelude::*;

verus! {

/// What relaying goes by: the longest payload, in bytes; how many packets
/// within how many milliseconds call for a tunnel.
#[derive(Clone, Copy, PartialEq, Eq, Debug, Structural)]
pub struct RelayLimits {
    pub max_payload: usize,
    pub tunnel_threshold: u32,
    pub counter_window_ms: u64,
}

pub open spec fn approved_app(id: Uuid) -> spec_fn(ApplicationView) -> bool {
    |a: ApplicationView| a.id == id && a.user_approved
}

/// Where the approved application `id` of this device listens.
pub open spec fn approved_host(n: NodeView, id: Uuid) -> Option<HostAddr> {
    match model::first_where(n.owner.user.devices, find::device_is(n.device_uuid)) {
        Some(i) => {
            let apps = n.owner.user.devices[i].applications;
            match model::first_where(apps, approved_app(id)) {
                Some(k) => Some(apps[k].host),
                None => None,
            }
        },
        None => None,
    }
}

/// Where the approved application `dest_app_id` of this device listens.
pub fn local_approved_app_host(node: &Node, dest_app_id: &Uuid) -> (r: Option<HostAddr>)
    ensures
        r == approved_host(node@, *dest_app_id),
{
    broadcast use model::group_views;

    let i = match find_device(&node.owner.user.devices, &node.device_uuid) {
        Some(i) => i,
        None => { return None; },
    };
    let apps = &node.owner.user.devices[i].applications;
    let ghost s = model::views(apps@);
    let ghost p = approved_app(*dest_app_id);
    let mut k: usize = 0;
    while k < apps.len()
        invariant
            k <= apps@.len(),
            s == model::views(apps@),
            p == approved_app(*dest_app_id),
            model::first_where(node@.owner.user.devices, find::device_is(node@.device_uuid))
                == Some(i as int),
            s == node@.owner.user.devices[i as int].applications,
            forall|j: int| 0 <= j < k ==> !p(#[trigger] s[j]),
        decreases apps@.len() - k,
    {
        if uuid_eq(&apps[k].id, dest_app_id) && apps[k].user_approved {
            proof {
                assert(p(s[k as int]));
                model::lemma_first_at(s, p, k as int);
            }
            return Some(apps[k].host);
        }
        k += 1;
    }
    proof {
        model::lemma_first_none(s, p);
    }
    None
}

/// An application that is not approved gets no packets, whoever sends them.
pub proof fn law_unapproved_gets_nothing(n: NodeView, id: Uuid)
    requires
        forall|i: int, k: int|
            0 <= i < n.owner.user.devices.len() && 0 <= k
                < n.owner.user.devices[i].applications.len()
                && #[trigger] n.owner.user.devices[i].applications[k].id == id
                ==> !n.owner.user.devices[i].applications[k].user_approved,
    ensures
        approved_host(n, id) is None,
{
    model::lemma_first_where(n.owner.user.devices, find::device_is(n.device_uuid));
    match model::first_where(n.owner.user.devices, find::device_is(n.device_uuid)) {
        Some(i) => {
            let apps = n.owner.user.devices[i].applications;
            assert forall|k: int| 0 <= k < apps.len() implies !approved_app(id)(#[trigger] apps[k]) by {
                assert(n.owner.user.devices[i].applications[k].id == id ==> !apps[k].user_approved);
            }
            model::lemma_first_none(apps, approved_app(id));
        },
        None => {},
    }
}

/// What an application gets: who sent it, and the payload.
pub open spec fn push_packet(sender: Uuid, payload: Seq<u8>) -> Seq<u8> {
    seq![APP_PUSH_OP] + sender@ + payload
}

/// A packet for an application of this device, as it stands decrypted: for
/// whom, from whom, and the payload.
pub open spec fn delivered(n: NodeView, pt: Seq<u8>, max_payload: int) -> Seq<EffectView> {
    if pt.len() < 32 || pt.len() - 32 > max_payload {
        Seq::empty()
    } else {
        match approved_host(n, wire::uuid_of(pt.subrange(0, 16))) {
            Some(host) => seq![
                EffectView::Send {
                    dest: PeerAddr::V4(host),
                    bytes: push_packet(wire::uuid_of(pt.subrange(16, 32)), pt.skip(32)),
                },
            ],
            None => Seq::empty(),
        }
    }
}

/// The effect of handing a payload to an application.
fn push_to_app(host: HostAddr, sender: &Uuid, payload: &[u8]) -> (r: Vec<Effect>)
    ensures
        model::views(r@) == seq![
            EffectView::Send { dest: PeerAddr::V4(host), bytes: push_packet(*sender, payload@) },
        ],
{
    broadcast use model::group_views;

    let mut bytes: Vec<u8> = Vec::new();
    bytes.push(APP_PUSH_OP);
    push_uuid(&mut bytes, sender);
    push_bytes(&mut bytes, payload);
    assert(bytes@ =~= push_packet(*sender, payload@));
    let mut out: Vec<Effect> = Vec::new();
    out.push(Effect::Send { dest: PeerAddr::V4(host), bytes });
    assert(model::views(out@) =~= seq![
        EffectView::Send { dest: PeerAddr::V4(host), bytes: push_packet(*sender, payload@) },
    ]);
    out
}

/// Delivers a decrypted packet to an application of this device. One that is
/// too short, too long or for no approved application is dropped.
pub fn app_packet(node: &Node, plaintext: &[u8], max_payload: usize) -> (r: Vec<Effect>)
    ensures
        model::views(r@) == delivered(node@, plaintext@, max_payload as int),
{
    broadcast use model::group_views;

    if plaintext.len() < 32 || plaintext.len() - 32 > max_payload {
        return Vec::new();
    }
    let dest = match slice_uuid(plaintext, 0) {
        Some(u) => u,
        None => {
            return Vec::new();
        },
    };
    let sender = match slice_uuid(plaintext, 16) {
        Some(u) => u,
        None => {
            return Vec::new();
        },
    };
    match local_approved_app_host(node, &dest) {
        Some(host) => {
            let payload = &plaintext[32..plaintext.len()];
            assert(payload@ =~= plaintext@.skip(32));
            push_to_app(host, &sender, payload)
        },
        None => Vec::new(),
    }
}

/// A tunnel between the two devices, in either direction.
pub open spec fn joins(n: NodeView, a: Uuid, b: Uuid) -> spec_fn(ActiveTunnel) -> bool {
    |t: ActiveTunnel|
        {
            let x = device_on(n, t.connection_a_id);
            let y = device_on(n, t.connection_b_id);
            ||| x == Some(a) && y == Some(b)
            ||| x == Some(b) && y == Some(a)
        }
}

/// The device at the other end of a session.
pub open spec fn device_on(n: NodeView, id: u16) -> Option<Uuid> {
    match sync::session(n, id) {
        Some(c) => Some(c.device_uuid),
        None => None,
    }
}

pub open spec fn proposed_between(a: Uuid, b: Uuid) -> spec_fn(PendingTunnel) -> bool {
    |p: PendingTunnel| p.sender_device_uuid == a && p.dest_device_uuid == b
}

pub open spec fn counts(a: Uuid, b: Uuid) -> spec_fn(TunnelCounter) -> bool {
    |c: TunnelCounter| c.sender_uuid == a && c.dest_uuid == b
}

/// The counters after one more packet from `a` to `b`, and whether it is time
/// for a tunnel. A window that has passed starts again; reaching the threshold
/// within the window calls for a tunnel and drops the counter.
pub open spec fn counted(
    list: Seq<TunnelCounter>,
    a: Uuid,
    b: Uuid,
    now: u64,
    limits: RelayLimits,
) -> (Seq<TunnelCounter>, bool) {
    let (l, i) = match model::first_where(list, counts(a, b)) {
        Some(i) => (list, i),
        None => (
            list.push(TunnelCounter { sender_uuid: a, dest_uuid: b, count: 0, window_start: now }),
            list.len() as int,
        ),
    };
    let passed = if now >= l[i].window_start {
        now - l[i].window_start
    } else {
        0
    };
    if passed >= limits.counter_window_ms {
        (l.update(i, TunnelCounter { count: 1, window_start: now, ..l[i] }), false)
    } else if l[i].count + 1 >= limits.tunnel_threshold {
        (l.remove(i), true)
    } else {
        (l.update(i, TunnelCounter { count: (l[i].count + 1) as u32, ..l[i] }), false)
    }
}

/// A tunnel between the devices is there or under way.
pub open spec fn has_tunnel(n: NodeView, a: Uuid, b: Uuid) -> bool {
    model::any_where(n.owner.active_tunnels, joins(n, a, b)) || model::any_where(
        n.owner.pending_tunnels,
        proposed_between(a, b),
    )
}

/// No counter is at its largest value.
pub open spec fn counters_fit(list: Seq<TunnelCounter>) -> bool {
    forall|i: int| 0 <= i < list.len() ==> (#[trigger] list[i]).count < u32::MAX
}

fn tunnel_known(node: &Node, a: &Uuid, b: &Uuid) -> (r: bool)
    ensures
        r == has_tunnel(node@, *a, *b),
{
    let tunnels = &node.owner.active_tunnels;
    let mut i: usize = 0;
    while i < tunnels.len()
        invariant
            i <= tunnels@.len(),
            tunnels@ == node@.owner.active_tunnels,
            forall|j: int| 0 <= j < i ==> !joins(node@, *a, *b)(#[trigger] tunnels@[j]),
        decreases tunnels@.len() - i,
    {
        let x = find_session_by_id(node, tunnels[i].connection_a_id);
        let y = find_session_by_id(node, tunnels[i].connection_b_id);
        if let Some(x) = x {
            if let Some(y) = y {
                if (uuid_eq(&x.device_uuid, a) && uuid_eq(&y.device_uuid, b)) || (uuid_eq(
                    &x.device_uuid,
                    b,
                ) && uuid_eq(&y.device_uuid, a)) {
                    assert(joins(node@, *a, *b)(tunnels@[i as int]));
                    return true;
                }
            }
        }
        assert(!joins(node@, *a, *b)(tunnels@[i as int]));
        i += 1;
    }
    let pending = &node.owner.pending_tunnels;
    let mut k: usize = 0;
    while k < pending.len()
        invariant
            k <= pending@.len(),
            pending@ == node@.owner.pending_tunnels,
            forall|j: int| 0 <= j < k ==> !proposed_between(*a, *b)(#[trigger] pending@[j]),
        decreases pending@.len() - k,
    {
        if uuid_eq(&pending[k].sender_device_uuid, a) && uuid_eq(&pending[k].dest_device_uuid, b) {
            assert(proposed_between(*a, *b)(pending@[k as int]));
            return true;
        }
        k += 1;
    }
    false
}

fn find_counter(v: &Vec<TunnelCounter>, a: &Uuid, b: &Uuid) -> (r: Option<usize>)
    ensures
        match model::first_where(v@, counts(*a, *b)) {
            Some(i) => r == Some(i as usize) && 0 <= i < v@.len() && i == r->0,
            None => r is None,
        },
{
    let mut i: usize = 0;
    while i < v.len()
        invariant
            i <= v@.len(),
            forall|j: int| 0 <= j < i ==> !counts(*a, *b)(#[trigger] v@[j]),
        decreases v@.len() - i,
    {
        if uuid_eq(&v[i].sender_uuid, a) && uuid_eq(&v[i].dest_uuid, b) {
            proof {
                assert(counts(*a, *b)(v@[i as int]));
                model::lemma_first_at(v@, counts(*a, *b), i as int);
            }
            return Some(i);
        }
        i += 1;
    }
    proof {
        model::lemma_first_none(v@, counts(*a, *b));
    }
    None
}

/// Counts one more packet; see [`counted`].
pub fn count_relayed(
    list: &mut Vec<TunnelCounter>,
    a: Uuid,
    b: Uuid,
    now: u64,
    limits: RelayLimits,
) -> (r: bool)
    requires
        counters_fit(old(list)@),
    ensures
        (final(list)@, r) == counted(old(list)@, a, b, now, limits),
{
    let i: usize = match find_counter(list, &a, &b) {
        Some(i) => i,
        None => {
            list.push(TunnelCounter { sender_uuid: a, dest_uuid: b, count: 0, window_start: now });
            list.len() - 1
        },
    };
    let c = list[i];
    let passed: u64 = if now >= c.window_start {
        now - c.window_start
    } else {
        0
    };
    if passed >= limits.counter_window_ms {
        list.set(i, TunnelCounter { count: 1, window_start: now, ..c });
        false
    } else if c.count + 1 >= limits.tunnel_threshold {
        list.remove(i);
        true
    } else {
        list.set(i, TunnelCounter { count: c.count + 1, ..c });
        false
    }
}

/// Counting keeps every counter below its largest value.
pub proof fn law_counters_fit(
    list: Seq<TunnelCounter>,
    a: Uuid,
    b: Uuid,
    now: u64,
    limits: RelayLimits,
)
    requires
        counters_fit(list),
    ensures
        counters_fit(counted(list, a, b, now, limits).0),
{
    model::lemma_first_where(list, counts(a, b));
    let (l, i) = match model::first_where(list, counts(a, b)) {
        Some(i) => (list, i),
        None => (
            list.push(TunnelCounter { sender_uuid: a, dest_uuid: b, count: 0, window_start: now }),
            list.len() as int,
        ),
    };
    let r = counted(list, a, b, now, limits).0;
    assert forall|k: int| 0 <= k < r.len() implies (#[trigger] r[k]).count < u32::MAX by {
        if r.len() < l.len() {
            assert(r[k] == if k < i {
                l[k]
            } else {
                l[k + 1]
            });
        } else if k != i {
            assert(r[k] == l[k]);
        }
    }
}

/// What a packet to be relayed leads to.
pub open spec fn relayed(
    n: NodeView,
    conn_id: u16,
    pt: Seq<u8>,
    now: u64,
    limits: RelayLimits,
) -> (NodeView, Seq<EffectView>) {
    let dest = wire::uuid_of(pt.subrange(0, 16));
    if pt.len() < 48 || pt.len() - 48 > limits.max_payload {
        (n, Seq::empty())
    } else if dest == n.device_uuid {
        (n, delivered(n, pt.skip(16), limits.max_payload as int))
    } else {
        match routing::session_with(n, dest) {
            None => (n, Seq::empty()),
            Some(conn) => {
                let sent = seq![EffectView::Seal { conn, op: APP_PACKET_OP, body: pt.skip(16) }];
                match device_on(n, conn_id) {
                    None => (n, sent),
                    Some(sender) => if has_tunnel(n, sender, dest) {
                        (n, sent)
                    } else {
                        let (list, due) = counted(
                            n.owner.tunnel_counters,
                            sender,
                            dest,
                            now,
                            limits,
                        );
                        (
                            NodeView {
                                owner: OwnerView { tunnel_counters: list, ..n.owner },
                                ..n
                            },
                            if due {
                                sent.push(
                                    EffectView::Schedule {
                                        task: Task::SetupTunnel {
                                            sender_uuid: sender,
                                            dest_uuid: dest,
                                        },
                                        delay_ms: 0,
                                    },
                                )
                            } else {
                                sent
                            },
                        )
                    },
                }
            },
        }
    }
}

/// Relays a packet that arrived over the session `conn_id` and was decrypted:
/// hands it to a local application, or encrypts it again for the device it is
/// for, and counts it towards a tunnel between the two devices. `now` is in
/// milliseconds of a monotonic clock.
pub fn relay_packet(
    node: &mut Node,
    conn_id: u16,
    plaintext: &[u8],
    now: u64,
    limits: RelayLimits,
) -> (r: Vec<Effect>)
    requires
        counters_fit(old(node).owner.tunnel_counters@),
    ensures
        (final(node)@, model::views(r@)) == relayed(old(node)@, conn_id, plaintext@, now, limits),
        keys::keyed(old(node)@) ==> keys::keyed(final(node)@),
{
    broadcast use model::group_views;

    proof {
        if keys::keyed(node@) {
            keys::lemma_relayed(node@, conn_id, plaintext@, now, limits);
        }
    }
    let mut out: Vec<Effect> = Vec::new();
    assert(model::views(out@) =~= Seq::empty());
    if plaintext.len() < 48 || plaintext.len() - 48 > limits.max_payload {
        return out;
    }
    let dest = match slice_uuid(plaintext, 0) {
        Some(u) => u,
        None => {
            return out;
        },
    };
    let inner = &plaintext[16..plaintext.len()];
    assert(inner@ =~= plaintext@.skip(16));
    if uuid_eq(&dest, &node.device_uuid) {
        return app_packet(node, inner, limits.max_payload);
    }
    let conn = match find_session(node, &dest) {
        Some(c) => c,
        None => {
            return out;
        },
    };
    let mut body: Vec<u8> = Vec::new();
    push_bytes(&mut body, inner);
    assert(body@ =~= plaintext@.skip(16));
    out.push(Effect::Seal { conn, op: APP_PACKET_OP, body });
    assert(model::views(out@) =~= seq![
        EffectView::Seal { conn, op: APP_PACKET_OP, body: plaintext@.skip(16) },
    ]);
    let sender = match find_session_by_id(node, conn_id) {
        Some(c) => c.device_uuid,
        None => {
            return out;
        },
    };
    if tunnel_known(node, &sender, &dest) {
        return out;
    }
    if count_relayed(&mut node.owner.tunnel_counters, sender, dest, now, limits) {
        out.push(
            Effect::Schedule {
                task: Task::SetupTunnel { sender_uuid: sender, dest_uuid: dest },
                delay_ms: 0,
            },
        );
    }
    out
}

/// A payload that fits reaches an approved application whole, with the
/// sender's identifier before it.
pub proof fn law_delivered_whole(
    n: NodeView,
    dest_app: Uuid,
    sender_app: Uuid,
    payload: Seq<u8>,
    max_payload: int,
    host: HostAddr,
)
    requires
        payload.len() <= max_payload,
        approved_host(n, dest_app) == Some(host),
    ensures
        delivered(n, dest_app@ + sender_app@ + payload, max_payload) == seq![
            EffectView::Send {
                dest: PeerAddr::V4(host),
                bytes: push_packet(sender_app, payload),
            },
        ],
{
    let pt = dest_app@ + sender_app@ + payload;
    assert(pt.subrange(0, 16) =~= dest_app@);
    assert(pt.subrange(16, 32) =~= sender_app@);
    assert(pt.skip(32) =~= payload);
    wire::lemma_uuid_of(dest_app);
    wire::lemma_uuid_of(sender_app);
}

/// A packet that fits leaves the relay for the device it is for, unchanged but
/// for the device at its head.
pub proof fn law_relayed_whole(
    n: NodeView,
    conn_id: u16,
    dest: Uuid,
    inner: Seq<u8>,
    now: u64,
    limits: RelayLimits,
)
    requires
        dest != n.device_uuid,
        32 <= inner.len(),
        inner.len() - 32 <= limits.max_payload,
        routing::session_with(n, dest) is Some,
    ensures
        relayed(n, conn_id, dest@ + inner, now, limits).1.len() > 0,
        relayed(n, conn_id, dest@ + inner, now, limits).1[0] == (EffectView::Seal {
            conn: routing::session_with(n, dest).unwrap(),
            op: APP_PACKET_OP,
            body: inner,
        }),
{
    let pt = dest@ + inner;
    assert(pt.subrange(0, 16) =~= dest@);
    assert(pt.skip(16) =~= inner);
    wire::lemma_uuid_of(dest);
}

} // verus!
