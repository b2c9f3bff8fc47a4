//! Choosing servers: who writes, whom to pull from, and who carries a packet.
use crate::find;
use crate::find::{find_conn_to, find_contact_of_device, find_device};
use crate::hosts;
use crate::hosts::parse_host_entry;
use crate::model;
use crate::order;
use crate::types::{
    uuid_eq, ActiveConnection, Device, DeviceGrade, DeviceView, HostAddr, Ipv4, Node, NodeView,
    PeerAddr, SgHostStatus, SgHostStatusView, SyncVersion, Uuid,
};
use vstd::prelude::*;

verus! {

/// Who takes writes, as this node sees it.
#[derive(Clone, Copy, PartialEq, Eq, Debug)]
pub enum WriterTarget {
    /// This node does.
    Local,
    /// Another server of the user does.
    Remote(Uuid),
    /// None that can be reached does.
    Unreachable,
}

/// The version 4 address in `addr`, also where it is mapped into version 6.
pub open spec fn ipv4_of(addr: PeerAddr) -> Option<Ipv4> {
    match addr {
        PeerAddr::V4(h) => Some(h.ip),
        PeerAddr::V6 { high, low, .. } => if high == 0 && low / 0x1_0000_0000 == 0xffff {
            Some(
                Ipv4 {
                    a: (low / 0x100_0000 % 0x100) as u8,
                    b: (low / 0x1_0000 % 0x100) as u8,
                    c: (low / 0x100 % 0x100) as u8,
                    d: (low % 0x100) as u8,
                },
            )
        } else {
            None
        },
    }
}

/// The version 4 address in `addr`, also where it is mapped into version 6.
pub fn ipv4_from(addr: PeerAddr) -> (r: Option<Ipv4>)
    ensures
        r == ipv4_of(addr),
{
    match addr {
        PeerAddr::V4(h) => Some(h.ip),
        PeerAddr::V6 { high, low, .. } => {
            if high == 0 && low / 0x1_0000_0000 == 0xffff {
                Some(
                    Ipv4 {
                        a: (low / 0x100_0000 % 0x100) as u8,
                        b: (low / 0x1_0000 % 0x100) as u8,
                        c: (low / 0x100 % 0x100) as u8,
                        d: (low % 0x100) as u8,
                    },
                )
            } else {
                None
            }
        },
    }
}

pub open spec fn status_of(u: Uuid) -> spec_fn(SgHostStatusView) -> bool {
    |s: SgHostStatusView| s.device_uuid == u
}

pub open spec fn up_status_of(u: Uuid) -> spec_fn(SgHostStatusView) -> bool {
    |s: SgHostStatusView| s.device_uuid == u && s.status.up
}

/// The server was polled, and no host of it was up.
pub open spec fn polled_down(n: NodeView, u: Uuid) -> bool {
    model::any_where(n.sg_statuses, status_of(u)) && !model::any_where(
        n.sg_statuses,
        up_status_of(u),
    )
}

/// There is a session with the server, and polling does not say it is down.
pub open spec fn reachable(n: NodeView, u: Uuid) -> bool {
    model::any_where(n.owner.active_connections, find::conn_to(u)) && !polled_down(n, u)
}

pub open spec fn is_sg() -> spec_fn(DeviceView) -> bool {
    |d: DeviceView| d.grade == DeviceGrade::SG
}

/// The rank of a server; one without a rank comes last.
pub open spec fn rank_key() -> spec_fn(DeviceView) -> int {
    |d: DeviceView|
        match d.sg_rank {
            Some(k) => k as int,
            None => u32::MAX as int,
        }
}

/// The servers among `devices`, best rank first.
pub open spec fn servers(devices: Seq<DeviceView>) -> Seq<DeviceView> {
    order::ranked(model::keep(devices, is_sg()), rank_key())
}

/// Where the search for a writer ends: at this node, or at a server that
/// polling does not say is down.
pub open spec fn writer_stop(n: NodeView) -> spec_fn(DeviceView) -> bool {
    |d: DeviceView| d.uuid == n.device_uuid || !polled_down(n, d.uuid)
}

/// The writer by rank: the best server that is not known to be down, if it is
/// this node or can be reached. A better server that can neither be reached nor
/// is known to be down leaves no writer.
pub open spec fn elected(n: NodeView) -> WriterTarget {
    let s = servers(n.owner.user.devices);
    match model::first_where(s, writer_stop(n)) {
        Some(i) => if s[i].uuid == n.device_uuid {
            WriterTarget::Local
        } else if reachable(n, s[i].uuid) {
            WriterTarget::Remote(s[i].uuid)
        } else {
            WriterTarget::Unreachable
        },
        None => WriterTarget::Unreachable,
    }
}

/// The writer: the one that the current version names, if it is this node or
/// can be reached; otherwise the one elected by rank.
pub open spec fn writer(n: NodeView) -> WriterTarget {
    let v = n.owner.public_version;
    if v != SyncVersion::spec_zero() && v.writer_sg_uuid == n.device_uuid {
        WriterTarget::Local
    } else if v != SyncVersion::spec_zero() && reachable(n, v.writer_sg_uuid) {
        WriterTarget::Remote(v.writer_sg_uuid)
    } else {
        elected(n)
    }
}

/// Where the search for a pull source ends: at this node, or at a server that
/// can be reached.
pub open spec fn pull_stop(n: NodeView) -> spec_fn(DeviceView) -> bool {
    |d: DeviceView| d.uuid == n.device_uuid || reachable(n, d.uuid)
}

/// The best server that is this node or can be reached.
pub open spec fn pull_source(n: NodeView) -> WriterTarget {
    let s = servers(n.owner.user.devices);
    match model::first_where(s, pull_stop(n)) {
        Some(i) => if s[i].uuid == n.device_uuid {
            WriterTarget::Local
        } else {
            WriterTarget::Remote(s[i].uuid)
        },
        None => WriterTarget::Unreachable,
    }
}

/// Whether the server was polled and no host of it was up.
pub fn is_polled_down(node: &Node, uuid: &Uuid) -> (r: bool)
    ensures
        r == polled_down(node@, *uuid),
{
    broadcast use model::group_views;

    let ghost s = node@.sg_statuses;
    let mut any_entry = false;
    let mut any_up = false;
    let mut i: usize = 0;
    while i < node.sg_statuses.len()
        invariant
            i <= node.sg_statuses@.len(),
            s == node@.sg_statuses,
            any_entry == model::any_where(s.take(i as int), status_of(*uuid)),
            any_up == model::any_where(s.take(i as int), up_status_of(*uuid)),
        decreases node.sg_statuses@.len() - i,
    {
        proof {
            model::lemma_any_step(s, status_of(*uuid), i as int);
            model::lemma_any_step(s, up_status_of(*uuid), i as int);
        }
        let e = &node.sg_statuses[i];
        if uuid_eq(&e.device_uuid, uuid) {
            any_entry = true;
            if e.status.up {
                any_up = true;
            }
        }
        i += 1;
    }
    assert(s.take(s.len() as int) =~= s);
    any_entry && !any_up
}

/// The server as a target, if it can be reached.
pub fn remote_if_reachable(node: &Node, uuid: &Uuid) -> (r: Option<WriterTarget>)
    ensures
        r == if reachable(node@, *uuid) {
            Some(WriterTarget::Remote(*uuid))
        } else {
            None::<WriterTarget>
        },
{
    let conn = find_conn_to(&node.owner.active_connections, uuid);
    if conn.is_some() && !is_polled_down(node, uuid) {
        Some(WriterTarget::Remote(*uuid))
    } else {
        None
    }
}

/// The devices at the positions `idx`.
pub open spec fn picked(devices: Seq<DeviceView>, idx: Seq<usize>) -> Seq<DeviceView> {
    Seq::new(idx.len(), |i: int| devices[idx[i] as int])
}

fn rank_number(d: &Device) -> (r: u32)
    ensures
        r == rank_key()(d@),
{
    match d.sg_rank {
        Some(k) => k,
        None => u32::MAX,
    }
}

/// The position at which a device goes among those at `idx`, by rank.
fn rank_position(devices: &Vec<Device>, idx: &Vec<usize>, d: usize) -> (r: usize)
    requires
        d < devices@.len(),
        forall|i: int| 0 <= i < idx@.len() ==> (#[trigger] idx@[i]) < devices@.len(),
    ensures
        r <= idx@.len(),
        r == order::rank_at(
            picked(model::views(devices@), idx@),
            model::views(devices@)[d as int],
            rank_key(),
        ),
{
    broadcast use model::group_views;

    let ghost s = picked(model::views(devices@), idx@);
    let ghost x = model::views(devices@)[d as int];
    let own: u32 = rank_number(&devices[d]);
    let mut k: usize = 0;
    while k < idx.len() && rank_number(&devices[idx[k]]) <= own
        invariant
            k <= idx@.len(),
            own == rank_key()(x),
            s == picked(model::views(devices@), idx@),
            forall|i: int| 0 <= i < idx@.len() ==> (#[trigger] idx@[i]) < devices@.len(),
            forall|j: int| 0 <= j < k ==> !order::above(x, rank_key())(#[trigger] s[j]),
        decreases idx@.len() - k,
    {
        k += 1;
    }
    proof {
        if k < idx@.len() {
            assert(order::above(x, rank_key())(s[k as int]));
            model::lemma_first_at(s, order::above(x, rank_key()), k as int);
        } else {
            model::lemma_first_none(s, order::above(x, rank_key()));
        }
    }
    k
}

/// The positions of the servers among `devices`, best rank first.
pub fn ranked_servers(devices: &Vec<Device>) -> (r: Vec<usize>)
    ensures
        picked(model::views(devices@), r@) == servers(model::views(devices@)),
        forall|i: int| 0 <= i < r@.len() ==> (#[trigger] r@[i]) < devices@.len(),
{
    broadcast use model::group_views;

    let ghost s = model::views(devices@);
    let mut out: Vec<usize> = Vec::new();
    let mut i: usize = 0;
    assert(picked(s, out@) =~= servers(s.take(0)));
    while i < devices.len()
        invariant
            i <= devices@.len(),
            s == model::views(devices@),
            picked(s, out@) == servers(s.take(i as int)),
            forall|j: int| 0 <= j < out@.len() ==> (#[trigger] out@[j]) < devices@.len(),
        decreases devices@.len() - i,
    {
        proof {
            model::lemma_keep_step(s, is_sg(), i as int);
        }
        if devices[i].grade == DeviceGrade::SG {
            let k: usize = rank_position(devices, &out, i);
            let ghost before = out@;
            proof {
                let kept = model::keep(s.take(i as int), is_sg());
                assert(kept.push(s[i as int]).drop_last() =~= kept);
            }
            out.insert(k, i);
            assert(picked(s, out@) =~= picked(s, before).insert(k as int, s[i as int]));
        }
        i += 1;
    }
    assert(s.take(s.len() as int) =~= s);
    out
}

/// The writer, as this node sees it.
pub fn find_writer_sg(node: &Node) -> (r: WriterTarget)
    ensures
        r == writer(node@),
{
    broadcast use model::group_views;

    if !node.owner.public_version.is_initial() {
        let known = node.owner.public_version.writer_sg_uuid;
        if uuid_eq(&known, &node.device_uuid) {
            return WriterTarget::Local;
        }
        if let Some(t) = remote_if_reachable(node, &known) {
            return t;
        }
    }
    let idx = ranked_servers(&node.owner.user.devices);
    let ghost devs = node@.owner.user.devices;
    let ghost s = servers(devs);
    let mut i: usize = 0;
    while i < idx.len()
        invariant
            i <= idx@.len(),
            devs == node@.owner.user.devices,
            s == servers(devs),
            s == picked(devs, idx@),
            forall|j: int|
                0 <= j < idx@.len() ==> (#[trigger] idx@[j]) < node.owner.user.devices@.len(),
            forall|j: int| 0 <= j < i ==> !writer_stop(node@)(#[trigger] s[j]),
            writer(node@) == elected(node@),
        decreases idx@.len() - i,
    {
        let d = &node.owner.user.devices[idx[i]];
        assert(s[i as int] == d@);
        if uuid_eq(&d.uuid, &node.device_uuid) {
            proof {
                assert(writer_stop(node@)(s[i as int]));
                model::lemma_first_at(s, writer_stop(node@), i as int);
            }
            return WriterTarget::Local;
        }
        if !is_polled_down(node, &d.uuid) {
            proof {
                assert(writer_stop(node@)(s[i as int]));
                model::lemma_first_at(s, writer_stop(node@), i as int);
            }
            return match remote_if_reachable(node, &d.uuid) {
                Some(t) => t,
                None => WriterTarget::Unreachable,
            };
        }
        i += 1;
    }
    proof {
        model::lemma_first_none(s, writer_stop(node@));
    }
    WriterTarget::Unreachable
}

/// A server makes itself the writer by rank only once every better server is
/// known to be down: a server that merely cannot be reached may still be writing.
pub proof fn law_no_early_takeover(n: NodeView, i: int)
    requires
        elected(n) == WriterTarget::Local,
        0 <= i < servers(n.owner.user.devices).len(),
        forall|k: int|
            0 <= k <= i ==> (#[trigger] servers(n.owner.user.devices)[k]).uuid != n.device_uuid,
    ensures
        polled_down(n, servers(n.owner.user.devices)[i].uuid),
{
    let s = servers(n.owner.user.devices);
    model::lemma_first_where(s, writer_stop(n));
    assert(!writer_stop(n)(s[i]));
}

/// A server that is sent changes has a session with this node, is not known to
/// be down, and is one of the user's own or the one that the version names.
pub proof fn law_writer_is_reachable(n: NodeView, u: Uuid)
    requires
        writer(n) == WriterTarget::Remote(u),
    ensures
        reachable(n, u),
        u != n.device_uuid,
        u == n.owner.public_version.writer_sg_uuid || exists|i: int|
            0 <= i < n.owner.user.devices.len() && is_sg()(
                #[trigger] n.owner.user.devices[i],
            ) && n.owner.user.devices[i].uuid == u,
{
    let s = servers(n.owner.user.devices);
    model::lemma_first_where(s, writer_stop(n));
    if elected(n) == WriterTarget::Remote(u) {
        let f = model::first_where(s, writer_stop(n))->0;
        lemma_server_is_device(n.owner.user.devices, f);
    }
}

/// A client that never heard of a writer takes none but the best server that is
/// not known to be down.
pub proof fn law_first_writer_is_best(n: NodeView, u: Uuid, i: int)
    requires
        n.owner.public_version == SyncVersion::spec_zero(),
        writer(n) == WriterTarget::Remote(u),
        0 <= i < servers(n.owner.user.devices).len(),
        !polled_down(n, servers(n.owner.user.devices)[i].uuid),
    ensures
        exists|k: int|
            0 <= k <= i && (#[trigger] servers(n.owner.user.devices)[k]).uuid == u,
{
    let s = servers(n.owner.user.devices);
    assert(writer_stop(n)(s[i]));
    model::lemma_first_some(s, writer_stop(n), i);
    let k = model::first_where(s, writer_stop(n))->0;
    assert(0 <= k <= i && s[k].uuid == u);
}

/// The ranked servers are servers among the devices.
proof fn lemma_server_is_device(devices: Seq<DeviceView>, f: int)
    requires
        0 <= f < servers(devices).len(),
    ensures
        exists|i: int|
            0 <= i < devices.len() && is_sg()(#[trigger] devices[i]) && devices[i]
                == servers(devices)[f],
{
    broadcast use vstd::seq_lib::group_to_multiset_ensures;

    let kept = model::keep(devices, is_sg());
    let s = servers(devices);
    order::lemma_ranked(kept, rank_key());
    assert(s.contains(s[f]));
    assert(s.to_multiset().count(s[f]) > 0);
    assert(kept.to_multiset().count(s[f]) > 0);
    assert(kept.contains(s[f]));
    model::lemma_keep_contains(devices, is_sg(), s[f]);
    let i = choose|i: int| 0 <= i < devices.len() && devices[i] == s[f];
    assert(is_sg()(devices[i]));
}

/// The best server to pull state from.
pub fn find_pull_source(node: &Node) -> (r: WriterTarget)
    ensures
        r == pull_source(node@),
{
    broadcast use model::group_views;

    let idx = ranked_servers(&node.owner.user.devices);
    let ghost devs = node@.owner.user.devices;
    let ghost s = servers(devs);
    let mut i: usize = 0;
    while i < idx.len()
        invariant
            i <= idx@.len(),
            devs == node@.owner.user.devices,
            s == servers(devs),
            s == picked(devs, idx@),
            forall|j: int|
                0 <= j < idx@.len() ==> (#[trigger] idx@[j]) < node.owner.user.devices@.len(),
            forall|j: int| 0 <= j < i ==> !pull_stop(node@)(#[trigger] s[j]),
        decreases idx@.len() - i,
    {
        let d = &node.owner.user.devices[idx[i]];
        assert(s[i as int] == d@);
        if uuid_eq(&d.uuid, &node.device_uuid) {
            proof {
                assert(pull_stop(node@)(s[i as int]));
                model::lemma_first_at(s, pull_stop(node@), i as int);
            }
            return WriterTarget::Local;
        }
        if let Some(t) = remote_if_reachable(node, &d.uuid) {
            proof {
                assert(pull_stop(node@)(s[i as int]));
                model::lemma_first_at(s, pull_stop(node@), i as int);
            }
            return t;
        }
        i += 1;
    }
    proof {
        model::lemma_first_none(s, pull_stop(node@));
    }
    WriterTarget::Unreachable
}

/// The identifiers of devices.
pub open spec fn ids_of(s: Seq<DeviceView>) -> Seq<Uuid> {
    Seq::new(s.len(), |i: int| s[i].uuid)
}

/// The identifiers of the servers among devices, in order.
pub open spec fn server_ids(devices: Seq<DeviceView>) -> Seq<Uuid> {
    ids_of(model::keep(devices, is_sg()))
}

/// The servers that may carry a packet to `dest`: the user's own, and those of
/// the contact who runs the device.
pub open spec fn candidates(n: NodeView, dest: Uuid) -> Seq<Uuid> {
    server_ids(n.owner.user.devices) + match model::first_where(
        n.owner.contact_users,
        find::contact_has_device(dest),
    ) {
        Some(i) => server_ids(n.owner.contact_users[i].user.devices),
        None => Seq::empty(),
    }
}

/// Appends the identifiers of the servers among `devices`.
fn push_server_ids(out: &mut Vec<Uuid>, devices: &Vec<Device>)
    ensures
        final(out)@ == old(out)@ + server_ids(model::views(devices@)),
{
    broadcast use model::group_views;

    let ghost s = model::views(devices@);
    let mut i: usize = 0;
    assert(out@ =~= old(out)@ + server_ids(s.take(0)));
    while i < devices.len()
        invariant
            i <= devices@.len(),
            s == model::views(devices@),
            out@ == old(out)@ + server_ids(s.take(i as int)),
        decreases devices@.len() - i,
    {
        proof {
            model::lemma_keep_step(s, is_sg(), i as int);
        }
        if devices[i].grade == DeviceGrade::SG {
            let ghost before = out@;
            out.push(devices[i].uuid);
            assert(server_ids(s.take(i + 1)) =~= server_ids(s.take(i as int)).push(
                s[i as int].uuid,
            ));
            assert(out@ =~= old(out)@ + server_ids(s.take(i + 1)));
        }
        i += 1;
    }
    assert(s.take(s.len() as int) =~= s);
}

/// The servers that may carry a packet to `dest_device_uuid`.
pub fn sg_candidates_for_dest(node: &Node, dest_device_uuid: &Uuid) -> (r: Vec<Uuid>)
    ensures
        r@ == candidates(node@, *dest_device_uuid),
{
    broadcast use model::group_views;

    let mut out: Vec<Uuid> = Vec::new();
    push_server_ids(&mut out, &node.owner.user.devices);
    match find_contact_of_device(&node.owner.contact_users, dest_device_uuid) {
        Some(i) => push_server_ids(&mut out, &node.owner.contact_users[i].user.devices),
        None => {},
    }
    assert(out@ =~= candidates(node@, *dest_device_uuid));
    out
}

/// A server with which there is a session and that polling does not say is
/// down.
pub open spec fn usable(n: NodeView) -> spec_fn(DeviceView) -> bool {
    |d: DeviceView| d.grade == DeviceGrade::SG && reachable(n, d.uuid)
}

/// The devices of the user, own or contact, who runs the device `u`.
pub open spec fn siblings(n: NodeView, u: Uuid) -> Option<Seq<DeviceView>> {
    if model::any_where(n.owner.user.devices, find::device_is(u)) {
        Some(n.owner.user.devices)
    } else {
        match model::first_where(n.owner.contact_users, find::contact_has_device(u)) {
            Some(i) => Some(n.owner.contact_users[i].user.devices),
            None => None,
        }
    }
}

/// The session with the device `u`.
pub open spec fn session_with(n: NodeView, u: Uuid) -> Option<ActiveConnection> {
    match model::first_where(n.owner.active_connections, find::conn_to(u)) {
        Some(i) => Some(n.owner.active_connections[i]),
        None => None,
    }
}

/// The session with the best ranked usable server among `devices`.
pub open spec fn best_ranked(n: NodeView, devices: Seq<DeviceView>) -> Option<ActiveConnection> {
    let s = servers(devices);
    match model::first_where(s, usable(n)) {
        Some(i) => session_with(n, s[i].uuid),
        None => None,
    }
}

/// The session with the best ranked usable server of whoever runs `dest`.
pub open spec fn top_ranked(n: NodeView, dest: Uuid) -> Option<ActiveConnection> {
    match siblings(n, dest) {
        Some(devices) => best_ranked(n, devices),
        None => None,
    }
}

/// The session with the device `u`.
pub fn find_session(node: &Node, u: &Uuid) -> (r: Option<ActiveConnection>)
    ensures
        r == session_with(node@, *u),
{
    match find_conn_to(&node.owner.active_connections, u) {
        Some(i) => Some(node.owner.active_connections[i]),
        None => None,
    }
}

/// The session with the best ranked usable server among `devices`.
fn best_ranked_session(node: &Node, devices: &Vec<Device>) -> (r: Option<ActiveConnection>)
    ensures
        r == best_ranked(node@, model::views(devices@)),
{
    broadcast use model::group_views;

    let idx = ranked_servers(devices);
    let ghost devs = model::views(devices@);
    let ghost s = servers(devs);
    let mut i: usize = 0;
    while i < idx.len()
        invariant
            i <= idx@.len(),
            devs == model::views(devices@),
            s == servers(devs),
            s == picked(devs, idx@),
            forall|j: int| 0 <= j < idx@.len() ==> (#[trigger] idx@[j]) < devices@.len(),
            forall|j: int| 0 <= j < i ==> !usable(node@)(#[trigger] s[j]),
        decreases idx@.len() - i,
    {
        let d = &devices[idx[i]];
        assert(s[i as int] == d@);
        if d.grade == DeviceGrade::SG {
            if let Some(_) = remote_if_reachable(node, &d.uuid) {
                proof {
                    assert(usable(node@)(s[i as int]));
                    model::lemma_first_at(s, usable(node@), i as int);
                }
                return find_session(node, &d.uuid);
            }
        }
        i += 1;
    }
    proof {
        model::lemma_first_none(s, usable(node@));
    }
    None
}

/// The session with the best ranked usable server of whoever runs the device.
pub fn top_ranked_sg_for_device(node: &Node, dest_device_uuid: &Uuid) -> (r: Option<
    ActiveConnection,
>)
    ensures
        r == top_ranked(node@, *dest_device_uuid),
{
    broadcast use model::group_views;

    proof {
        model::lemma_first_where(node@.owner.user.devices, find::device_is(*dest_device_uuid));
    }
    if find_device(&node.owner.user.devices, dest_device_uuid).is_some() {
        return best_ranked_session(node, &node.owner.user.devices);
    }
    match find_contact_of_device(&node.owner.contact_users, dest_device_uuid) {
        Some(i) => best_ranked_session(node, &node.owner.contact_users[i].user.devices),
        None => None,
    }
}

/// The round trip that a status tells of the device `u`, if it is up.
pub open spec fn rtt_in(s: SgHostStatusView, u: Uuid) -> Option<u64> {
    if s.device_uuid == u && s.status.up {
        s.status.last_rtt
    } else {
        None
    }
}

/// The position of the shortest round trip to `u`; of equal ones, the first.
pub open spec fn fastest(s: Seq<SgHostStatusView>, u: Uuid) -> Option<int>
    decreases s.len(),
{
    if s.len() == 0 {
        None
    } else {
        let before = fastest(s.drop_last(), u);
        match (rtt_in(s.last(), u), before) {
            (None, _) => before,
            (Some(_), None) => Some(s.len() - 1),
            (Some(x), Some(i)) => if x < rtt_in(s[i], u)->0 {
                Some(s.len() - 1)
            } else {
                before
            },
        }
    }
}

/// The shortest round trip to `u`.
pub open spec fn best_rtt(n: NodeView, u: Uuid) -> Option<u64> {
    match fastest(n.sg_statuses, u) {
        Some(i) => rtt_in(n.sg_statuses[i], u),
        None => None,
    }
}

pub proof fn lemma_fastest(s: Seq<SgHostStatusView>, u: Uuid)
    ensures
        match fastest(s, u) {
            Some(i) => {
                &&& 0 <= i < s.len()
                &&& rtt_in(s[i], u) is Some
                &&& forall|j: int|
                    0 <= j < s.len() && rtt_in(#[trigger] s[j], u) is Some ==> rtt_in(s[i], u)->0
                        <= rtt_in(s[j], u)->0
            },
            None => forall|j: int| 0 <= j < s.len() ==> rtt_in(#[trigger] s[j], u) is None,
        },
    decreases s.len(),
{
    if s.len() > 0 {
        let t = s.drop_last();
        lemma_fastest(t, u);
        assert forall|j: int| 0 <= j < s.len() - 1 implies #[trigger] s[j] == t[j] by {}
    }
}

/// The position of the shortest round trip to `u`.
fn find_fastest(v: &Vec<SgHostStatus>, u: &Uuid) -> (r: Option<usize>)
    ensures
        r == find::as_index(fastest(model::views(v@), *u)),
        r is Some ==> fastest(model::views(v@), *u) == Some(r->0 as int) && r->0 < v@.len(),
{
    broadcast use model::group_views;

    let ghost s = model::views(v@);
    let mut best: Option<usize> = None;
    let mut rtt: u64 = 0;
    let mut i: usize = 0;
    while i < v.len()
        invariant
            i <= v@.len(),
            s == model::views(v@),
            match best {
                Some(k) => {
                    &&& fastest(s.take(i as int), *u) == Some(k as int)
                    &&& k < i
                    &&& rtt_in(s[k as int], *u) == Some(rtt)
                },
                None => fastest(s.take(i as int), *u) is None,
            },
        decreases v@.len() - i,
    {
        proof {
            assert(s.take(i + 1).drop_last() =~= s.take(i as int));
            assert(s.take(i + 1).last() == s[i as int]);
        }
        let e = &v[i];
        if uuid_eq(&e.device_uuid, u) && e.status.up {
            if let Some(x) = e.status.last_rtt {
                if best.is_none() || x < rtt {
                    best = Some(i);
                    rtt = x;
                }
            }
        }
        i += 1;
    }
    assert(s.take(s.len() as int) =~= s);
    best
}

/// A server with a session and a known round trip.
pub open spec fn timed(n: NodeView, u: Uuid) -> Option<u64> {
    if session_with(n, u) is Some {
        best_rtt(n, u)
    } else {
        None
    }
}

/// The position of the nearest server with a session; of equally near ones, the
/// first.
pub open spec fn nearest(n: NodeView, c: Seq<Uuid>) -> Option<int>
    decreases c.len(),
{
    if c.len() == 0 {
        None
    } else {
        let before = nearest(n, c.drop_last());
        match (timed(n, c.last()), before) {
            (None, _) => before,
            (Some(_), None) => Some(c.len() - 1),
            (Some(x), Some(i)) => if x < timed(n, c[i])->0 {
                Some(c.len() - 1)
            } else {
                before
            },
        }
    }
}

pub open spec fn has_session(n: NodeView) -> spec_fn(Uuid) -> bool {
    |u: Uuid| session_with(n, u) is Some
}

/// The session that serves best: with the nearest server, or, if no round trip
/// is known, with the first there is.
pub open spec fn best_session(n: NodeView, c: Seq<Uuid>) -> Option<ActiveConnection> {
    match nearest(n, c) {
        Some(i) => session_with(n, c[i]),
        None => match model::first_where(c, has_session(n)) {
            Some(i) => session_with(n, c[i]),
            None => None,
        },
    }
}

/// The best of the sessions with `candidates`.
pub fn best_sg_connection(node: &Node, candidates: &[Uuid]) -> (r: Option<ActiveConnection>)
    ensures
        r == best_session(node@, candidates@),
{
    broadcast use model::group_views;

    let mut best: Option<usize> = None;
    let mut rtt: u64 = 0;
    let mut i: usize = 0;
    while i < candidates.len()
        invariant
            i <= candidates@.len(),
            match best {
                Some(k) => {
                    &&& nearest(node@, candidates@.take(i as int)) == Some(k as int)
                    &&& k < i
                    &&& timed(node@, candidates@[k as int]) == Some(rtt)
                },
                None => nearest(node@, candidates@.take(i as int)) is None,
            },
        decreases candidates@.len() - i,
    {
        proof {
            assert(candidates@.take(i + 1).drop_last() =~= candidates@.take(i as int));
            assert(candidates@.take(i + 1).last() == candidates@[i as int]);
            lemma_fastest(node@.sg_statuses, candidates@[i as int]);
        }
        if find_session(node, &candidates[i]).is_some() {
            if let Some(k) = find_fastest(&node.sg_statuses, &candidates[i]) {
                if let Some(x) = node.sg_statuses[k].status.last_rtt {
                    if best.is_none() || x < rtt {
                        best = Some(i);
                        rtt = x;
                    }
                }
            }
        }
        i += 1;
    }
    assert(candidates@.take(candidates@.len() as int) =~= candidates@);
    if let Some(k) = best {
        return find_session(node, &candidates[k]);
    }
    let mut j: usize = 0;
    while j < candidates.len()
        invariant
            j <= candidates@.len(),
            nearest(node@, candidates@) is None,
            forall|k: int| 0 <= k < j ==> !has_session(node@)(#[trigger] candidates@[k]),
        decreases candidates@.len() - j,
    {
        let found = find_session(node, &candidates[j]);
        if found.is_some() {
            proof {
                assert(has_session(node@)(candidates@[j as int]));
                model::lemma_first_at(candidates@, has_session(node@), j as int);
            }
            return found;
        }
        j += 1;
    }
    proof {
        model::lemma_first_none(candidates@, has_session(node@));
    }
    None
}

/// The session over which a packet to `dest` leaves: the best ranked server of
/// whoever runs it, or else the best of all candidates.
pub open spec fn carrier(n: NodeView, dest: Uuid) -> Option<ActiveConnection> {
    match top_ranked(n, dest) {
        Some(c) => Some(c),
        None => best_session(n, candidates(n, dest)),
    }
}

/// The session over which a packet to `dest` leaves.
pub fn find_carrier(node: &Node, dest: &Uuid) -> (r: Option<ActiveConnection>)
    ensures
        r == carrier(node@, *dest),
{
    match top_ranked_sg_for_device(node, dest) {
        Some(c) => Some(c),
        None => {
            let c = sg_candidates_for_dest(node, dest);
            best_sg_connection(node, c.as_slice())
        },
    }
}

/// A resolved host name.
#[derive(Debug, PartialEq, Eq)]
pub struct ResolvedHost {
    pub host: String,
    pub addr: HostAddr,
}

#[verifier::ext_equal]
pub struct ResolvedHostView {
    pub host: Seq<char>,
    pub addr: HostAddr,
}

impl View for ResolvedHost {
    type V = ResolvedHostView;

    open spec fn view(&self) -> ResolvedHostView {
        ResolvedHostView { host: self.host@, addr: self.addr }
    }
}

pub open spec fn resolves(host: Seq<char>) -> spec_fn(ResolvedHostView) -> bool {
    |h: ResolvedHostView| h.host == host
}

/// What a host resolves to, as far as is known: an address stands for itself, a
/// name for what was found for it.
pub open spec fn resolved(cache: Seq<ResolvedHostView>, host: Seq<char>) -> Option<HostAddr> {
    match hosts::literal_host(host) {
        Some(a) => Some(a),
        None => match model::first_where(cache, resolves(host)) {
            Some(i) => Some(cache[i].addr),
            None => None,
        },
    }
}

/// What a host resolves to, as far as is known.
pub fn resolve_host_cached(cache: &Vec<ResolvedHost>, entry: &String) -> (r: Option<HostAddr>)
    ensures
        r == resolved(model::views(cache@), entry@),
{
    broadcast use model::group_views;

    let literal = parse_host_entry(entry.as_str());
    if literal.is_some() {
        return literal;
    }
    let ghost s = model::views(cache@);
    let mut i: usize = 0;
    while i < cache.len()
        invariant
            i <= cache@.len(),
            s == model::views(cache@),
            hosts::literal_host(entry@) is None,
            forall|j: int| 0 <= j < i ==> !resolves(entry@)(#[trigger] s[j]),
        decreases cache@.len() - i,
    {
        if cache[i].host == *entry {
            proof {
                assert(resolves(entry@)(s[i as int]));
                model::lemma_first_at(s, resolves(entry@), i as int);
            }
            return Some(cache[i].addr);
        }
        i += 1;
    }
    proof {
        model::lemma_first_none(s, resolves(entry@));
    }
    None
}

pub open spec fn is_resolved(cache: Seq<ResolvedHostView>) -> spec_fn(Seq<char>) -> bool {
    |h: Seq<char>| resolved(cache, h) is Some
}

/// The first host that resolves.
pub open spec fn first_resolved(cache: Seq<ResolvedHostView>, hosts: Seq<Seq<char>>) -> Option<
    HostAddr,
> {
    match model::first_where(hosts, is_resolved(cache)) {
        Some(i) => resolved(cache, hosts[i]),
        None => None,
    }
}

/// The first host that resolves.
pub fn first_resolved_host(cache: &Vec<ResolvedHost>, hosts: &Vec<String>) -> (r: Option<HostAddr>)
    ensures
        r == first_resolved(model::views(cache@), model::views(hosts@)),
{
    broadcast use model::group_views;

    let ghost h = model::views(hosts@);
    let ghost c = model::views(cache@);
    let mut i: usize = 0;
    while i < hosts.len()
        invariant
            i <= hosts@.len(),
            h == model::views(hosts@),
            c == model::views(cache@),
            forall|j: int| 0 <= j < i ==> !is_resolved(c)(#[trigger] h[j]),
        decreases hosts@.len() - i,
    {
        let a = resolve_host_cached(cache, &hosts[i]);
        if a.is_some() {
            proof {
                assert(is_resolved(c)(h[i as int]));
                model::lemma_first_at(h, is_resolved(c), i as int);
            }
            return a;
        }
        i += 1;
    }
    proof {
        model::lemma_first_none(h, is_resolved(c));
    }
    None
}

/// The hosts of the device `u`, own or of a contact.
pub open spec fn hosts_of(n: NodeView, u: Uuid) -> Option<Seq<Seq<char>>> {
    match siblings(n, u) {
        Some(devices) => match model::first_where(devices, find::device_is(u)) {
            Some(i) => Some(devices[i].hosts),
            None => None,
        },
        None => None,
    }
}

/// Where to reach a device: at the host with the shortest round trip, if that
/// resolves; otherwise at the first of its hosts that resolves.
pub open spec fn best_address(
    n: NodeView,
    cache: Seq<ResolvedHostView>,
    u: Uuid,
) -> Option<HostAddr> {
    let polled = match fastest(n.sg_statuses, u) {
        Some(i) => resolved(cache, n.sg_statuses[i].host),
        None => None,
    };
    if polled is Some {
        polled
    } else {
        match hosts_of(n, u) {
            Some(hosts) => first_resolved(cache, hosts),
            None => None,
        }
    }
}

/// Where to reach a device.
pub fn best_address_for_device(
    node: &Node,
    cache: &Vec<ResolvedHost>,
    device_uuid: &Uuid,
) -> (r: Option<HostAddr>)
    ensures
        r == best_address(node@, model::views(cache@), *device_uuid),
{
    broadcast use model::group_views;

    if let Some(i) = find_fastest(&node.sg_statuses, device_uuid) {
        let a = resolve_host_cached(cache, &node.sg_statuses[i].host);
        if a.is_some() {
            return a;
        }
    }
    proof {
        model::lemma_first_where(node@.owner.user.devices, find::device_is(*device_uuid));
    }
    match find_device(&node.owner.user.devices, device_uuid) {
        Some(i) => first_resolved_host(cache, &node.owner.user.devices[i].hosts),
        None => match find_contact_of_device(&node.owner.contact_users, device_uuid) {
            Some(k) => {
                let devices = &node.owner.contact_users[k].user.devices;
                match find_device(devices, device_uuid) {
                    Some(i) => first_resolved_host(cache, &devices[i].hosts),
                    None => None,
                }
            },
            None => None,
        },
    }
}

} // verus!
