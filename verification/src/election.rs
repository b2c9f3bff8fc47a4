//! Who is chosen, told by devices, sessions and poll results alone: the writer,
//! the source of a pull, the server that carries a packet, and the address of a
//! device.
use crate::find;
use crate::model;
use crate::order;
use crate::routing;
use crate::routing::WriterTarget;
use crate::types::{DeviceGrade, DeviceView, NodeView, SyncVersion, Uuid};
use vstd::prelude::*;

verus! {

/// There is a session with a device.
pub open spec fn connected(n: NodeView, u: Uuid) -> bool {
    exists|i: int|
        0 <= i < n.owner.active_connections.len() && (
        #[trigger] n.owner.active_connections[i]).device_uuid == u
}

/// A device was polled, and none of its hosts was up.
pub open spec fn found_down(n: NodeView, u: Uuid) -> bool {
    &&& exists|i: int|
        0 <= i < n.sg_statuses.len() && (#[trigger] n.sg_statuses[i]).device_uuid == u
    &&& forall|i: int|
        0 <= i < n.sg_statuses.len() && (#[trigger] n.sg_statuses[i]).device_uuid == u
            ==> !n.sg_statuses[i].status.up
}

/// A version that somebody wrote.
pub open spec fn written(v: SyncVersion) -> bool {
    v.epoch != 0 || v.seq != 0 || exists|k: int| 0 <= k < 16 && #[trigger] v.writer_sg_uuid@[k] != 0
}

/// The number by which a server is ranked; one without a rank comes last.
pub open spec fn place(d: DeviceView) -> int {
    match d.sg_rank {
        Some(r) => r as int,
        None => u32::MAX as int,
    }
}

/// The `i`-th device comes before the `j`-th: it has the smaller rank, or the
/// same and stands before it.
pub open spec fn ahead(devices: Seq<DeviceView>, i: int, j: int) -> bool {
    place(devices[i]) < place(devices[j]) || place(devices[i]) == place(devices[j]) && i < j
}

/// The `i`-th device is a server.
pub open spec fn serves(devices: Seq<DeviceView>, i: int) -> bool {
    0 <= i < devices.len() && devices[i].grade == DeviceGrade::SG
}

/// The `i`-th device is the first server, by rank, for which `p` holds.
pub open spec fn first_by_rank(
    devices: Seq<DeviceView>,
    p: spec_fn(DeviceView) -> bool,
    i: int,
) -> bool {
    &&& serves(devices, i)
    &&& p(devices[i])
    &&& forall|j: int| #[trigger] serves(devices, j) && p(devices[j]) ==> j == i || ahead(
        devices,
        i,
        j,
    )
}

/// The positions of the servers, in the order of their ranks.
pub open spec fn in_places(devices: Seq<DeviceView>, at: Seq<int>) -> bool {
    &&& at.len() == routing::servers(devices).len()
    &&& forall|k: int|
        0 <= k < at.len() ==> serves(devices, #[trigger] at[k]) && devices[at[k]]
            == routing::servers(devices)[k]
    &&& forall|k: int, l: int|
        0 <= k < l < at.len() ==> ahead(devices, #[trigger] at[k], #[trigger] at[l])
    &&& forall|i: int| #[trigger] serves(devices, i) ==> at.contains(i)
}

proof fn lemma_places(devices: Seq<DeviceView>) -> (at: Seq<int>)
    ensures
        in_places(devices, at),
    decreases devices.len(),
{
    let key = routing::rank_key();
    if devices.len() == 0 {
        let at = Seq::<int>::empty();
        assert(model::keep(devices, routing::is_sg()) =~= Seq::empty());
        at
    } else {
        let t = devices.drop_last();
        let n = devices.len() - 1;
        let x = devices.last();
        let b = lemma_places(t);
        let s = routing::servers(t);
        if x.grade != DeviceGrade::SG {
            assert(routing::servers(devices) == s);
            assert forall|k: int| 0 <= k < b.len() implies serves(devices, #[trigger] b[k])
                && devices[b[k]] == s[k] by {
                assert(serves(t, b[k]));
            }
            assert forall|k: int, l: int| 0 <= k < l < b.len() implies ahead(
                devices,
                #[trigger] b[k],
                #[trigger] b[l],
            ) by {
                assert(serves(t, b[k]) && serves(t, b[l]));
                assert(ahead(t, b[k], b[l]));
            }
            assert forall|i: int| #[trigger] serves(devices, i) implies b.contains(i) by {
                assert(serves(t, i));
            }
            b
        } else {
            let kept = model::keep(t, routing::is_sg());
            assert(model::keep(devices, routing::is_sg()) == kept.push(x));
            assert(kept.push(x).drop_last() =~= kept);
            let p = order::rank_at(s, x, key);
            model::lemma_first_where(s, order::above(x, key));
            let all = routing::servers(devices);
            assert(all == s.insert(p, x));
            let at = b.insert(p, n);
            order::lemma_ranked(kept, key);
            assert forall|k: int| 0 <= k < at.len() implies serves(devices, #[trigger] at[k])
                && devices[at[k]] == all[k] by {
                if k < p {
                    assert(at[k] == b[k]);
                    assert(serves(t, b[k]));
                } else if k > p {
                    assert(at[k] == b[k - 1]);
                    assert(serves(t, b[k - 1]));
                }
            }
            assert forall|k: int, l: int| 0 <= k < l < at.len() implies ahead(
                devices,
                #[trigger] at[k],
                #[trigger] at[l],
            ) by {
                let k0 = if k < p {
                    k
                } else {
                    k - 1
                };
                let l0 = if l < p {
                    l
                } else {
                    l - 1
                };
                if k != p && l != p {
                    assert(at[k] == b[k0] && at[l] == b[l0]);
                    assert(serves(t, b[k0]) && serves(t, b[l0]));
                    assert(ahead(t, b[k0], b[l0]));
                } else if l == p {
                    assert(at[k] == b[k]);
                    assert(serves(t, b[k]));
                    assert(!order::above(x, key)(s[k]));
                } else {
                    assert(at[l] == b[l0]);
                    assert(serves(t, b[l0]));
                    assert(order::above(x, key)(s[p]));
                    if p < l0 {
                        assert(key(s[p]) <= key(s[l0]));
                    }
                }
            }
            assert forall|i: int| #[trigger] serves(devices, i) implies at.contains(i) by {
                if i == n {
                    assert(at[p] == n);
                } else {
                    assert(serves(t, i));
                    let k = choose|k: int| 0 <= k < b.len() && b[k] == i;
                    if k < p {
                        assert(at[k] == i);
                    } else {
                        assert(at[k + 1] == i);
                    }
                }
            }
            at
        }
    }
}

/// The first of the ranked servers for which `p` holds is the first by rank.
pub proof fn lemma_first_by_rank(devices: Seq<DeviceView>, p: spec_fn(DeviceView) -> bool, i: int)
    requires
        first_by_rank(devices, p, i),
    ensures
        model::first_where(routing::servers(devices), p) matches Some(k) && routing::servers(
            devices,
        )[k] == devices[i],
{
    let s = routing::servers(devices);
    let at = lemma_places(devices);
    assert(at.contains(i));
    let k = choose|k: int| 0 <= k < at.len() && at[k] == i;
    assert(s[k] == devices[i]);
    model::lemma_first_some(s, p, k);
    model::lemma_first_where(s, p);
    let f = model::first_where(s, p)->0;
    assert(p(s[f]));
    assert(serves(devices, at[f]));
    assert(p(devices[at[f]]));
    if f < k {
        assert(ahead(devices, at[f], at[k]));
    } else if k < f {
        assert(!p(s[k]));
    }
}

/// Where no server satisfies `p`, none is found.
pub proof fn lemma_none_by_rank(devices: Seq<DeviceView>, p: spec_fn(DeviceView) -> bool)
    requires
        forall|j: int| #[trigger] serves(devices, j) ==> !p(devices[j]),
    ensures
        model::first_where(routing::servers(devices), p) is None,
{
    let s = routing::servers(devices);
    let at = lemma_places(devices);
    assert forall|k: int| 0 <= k < s.len() implies !p(#[trigger] s[k]) by {
        assert(serves(devices, at[k]));
    }
    model::lemma_first_none(s, p);
}

/// Of the servers for which `p` holds there is a first.
pub proof fn lemma_some_by_rank(devices: Seq<DeviceView>, p: spec_fn(DeviceView) -> bool) -> (i: int)
    requires
        model::first_where(routing::servers(devices), p) is Some,
    ensures
        first_by_rank(devices, p, i),
        devices[i] == routing::servers(devices)[model::first_where(
            routing::servers(devices),
            p,
        )->0],
{
    let s = routing::servers(devices);
    let at = lemma_places(devices);
    model::lemma_first_where(s, p);
    let f = model::first_where(s, p)->0;
    assert(p(s[f]));
    assert(serves(devices, at[f]));
    assert forall|j: int| #[trigger] serves(devices, j) && p(devices[j]) implies j == at[f]
        || ahead(devices, at[f], j) by {
        assert(at.contains(j));
        let k = choose|k: int| 0 <= k < at.len() && at[k] == j;
        assert(s[k] == devices[j]);
        if k < f {
            assert(!p(s[k]));
        } else if f < k {
            assert(ahead(devices, at[f], at[k]));
        }
    }
    at[f]
}

pub proof fn lemma_down(n: NodeView, u: Uuid)
    ensures
        routing::polled_down(n, u) <==> found_down(n, u),
{
    let s = n.sg_statuses;
    let p = routing::status_of(u);
    let q = routing::up_status_of(u);
    if model::any_where(s, p) {
        let i = choose|i: int| 0 <= i < s.len() && p(#[trigger] s[i]);
        assert(s[i].device_uuid == u);
    } else {
        assert forall|i: int| 0 <= i < s.len() implies (#[trigger] s[i]).device_uuid != u by {
            assert(!p(s[i]));
        }
    }
    if model::any_where(s, q) {
        let i = choose|i: int| 0 <= i < s.len() && q(#[trigger] s[i]);
        assert(s[i].device_uuid == u && s[i].status.up);
    } else {
        assert forall|i: int|
            0 <= i < s.len() && (#[trigger] s[i]).device_uuid == u implies !s[i].status.up by {
            assert(!q(s[i]));
        }
    }
}

pub proof fn lemma_connected(n: NodeView, u: Uuid)
    ensures
        routing::reachable(n, u) <==> connected(n, u) && !found_down(n, u),
        routing::session_with(n, u) is Some <==> connected(n, u),
        routing::session_with(n, u) matches Some(c) ==> c.device_uuid == u
            && n.owner.active_connections.contains(c),
{
    let s = n.owner.active_connections;
    let p = find::conn_to(u);
    lemma_down(n, u);
    model::lemma_first_where(s, p);
    if model::any_where(s, p) {
        let i = choose|i: int| 0 <= i < s.len() && p(#[trigger] s[i]);
        assert(s[i].device_uuid == u);
        assert(p(s[model::first_where(s, p)->0]));
    } else {
        assert forall|i: int| 0 <= i < s.len() implies (#[trigger] s[i]).device_uuid != u by {
            assert(!p(s[i]));
        }
    }
}

proof fn lemma_written(v: SyncVersion)
    ensures
        written(v) <==> v != SyncVersion::spec_zero(),
{
    let z = SyncVersion::spec_zero();
    if !written(v) {
        assert forall|k: int| 0 <= k < 16 implies v.writer_sg_uuid@[k] == z.writer_sg_uuid@[k] by {}
        assert(v.writer_sg_uuid@ =~= z.writer_sg_uuid@);
        assert(v.writer_sg_uuid =~= z.writer_sg_uuid);
    }
}

/// The servers at which the search for a writer ends: this device, and those
/// that were not found down.
pub open spec fn may_write(n: NodeView) -> spec_fn(DeviceView) -> bool {
    |d: DeviceView| d.uuid == n.device_uuid || !found_down(n, d.uuid)
}

proof fn lemma_stop(n: NodeView)
    ensures
        forall|d: DeviceView| #[trigger]
            may_write(n)(d) <==> routing::writer_stop(n)(d),
{
    assert forall|d: DeviceView| #[trigger] may_write(n)(d) <==> routing::writer_stop(n)(d) by {
        lemma_down(n, d.uuid);
    }
}

pub proof fn lemma_same_first(devices: Seq<DeviceView>, p: spec_fn(DeviceView) -> bool, q: spec_fn(DeviceView) -> bool)
    requires
        forall|d: DeviceView| #[trigger] p(d) <==> q(d),
    ensures
        model::first_where(devices, p) == model::first_where(devices, q),
{
    model::lemma_first_where(devices, p);
    match model::first_where(devices, p) {
        Some(i) => {
            assert(p(devices[i]));
            assert forall|j: int| 0 <= j < i implies !q(#[trigger] devices[j]) by {
                assert(!p(devices[j]));
            }
            model::lemma_first_at(devices, q, i);
        },
        None => {
            assert forall|j: int| 0 <= j < devices.len() implies !q(#[trigger] devices[j]) by {
                assert(!p(devices[j]));
            }
            model::lemma_first_none(devices, q);
        },
    }
}

/// The writer that the version names stays the writer: this device if it is
/// named, or another that has a session and was not found down.
pub proof fn law_named_writer_stays(n: NodeView)
    requires
        written(n.owner.public_version),
    ensures
        ({
            let w = n.owner.public_version.writer_sg_uuid;
            &&& w == n.device_uuid ==> routing::writer(n) == WriterTarget::Local
            &&& w != n.device_uuid && connected(n, w) && !found_down(n, w) ==> routing::writer(n)
                == WriterTarget::Remote(w)
        }),
{
    lemma_written(n.owner.public_version);
    lemma_connected(n, n.owner.public_version.writer_sg_uuid);
}

/// The version names no writer that can be used: nobody wrote yet, or the one
/// who did is another device and has no session or was found down.
pub open spec fn leaderless(n: NodeView) -> bool {
    let w = n.owner.public_version.writer_sg_uuid;
    written(n.owner.public_version) ==> w != n.device_uuid && !(connected(n, w) && !found_down(
        n,
        w,
    ))
}

/// Without a usable named writer the user's servers are gone through by rank, and
/// the first decides that is this device or was not found down: this device
/// writes itself, another gets what is written if it has a session, and else
/// there is no writer.
pub proof fn law_writer_by_rank(n: NodeView, i: int)
    requires
        leaderless(n),
        first_by_rank(n.owner.user.devices, may_write(n), i),
    ensures
        ({
            let d = n.owner.user.devices[i];
            routing::writer(n) == if d.uuid == n.device_uuid {
                WriterTarget::Local
            } else if connected(n, d.uuid) {
                WriterTarget::Remote(d.uuid)
            } else {
                WriterTarget::Unreachable
            }
        }),
{
    let devices = n.owner.user.devices;
    lemma_written(n.owner.public_version);
    lemma_connected(n, n.owner.public_version.writer_sg_uuid);
    lemma_stop(n);
    lemma_same_first(routing::servers(devices), may_write(n), routing::writer_stop(n));
    lemma_first_by_rank(devices, may_write(n), i);
    lemma_connected(n, devices[i].uuid);
}

/// Without a usable named writer there is none at all where every server of the
/// user is another device and was found down.
pub proof fn law_no_server_no_writer(n: NodeView)
    requires
        leaderless(n),
        forall|j: int| #[trigger]
            serves(n.owner.user.devices, j) ==> !may_write(n)(n.owner.user.devices[j]),
    ensures
        routing::writer(n) == WriterTarget::Unreachable,
{
    let devices = n.owner.user.devices;
    lemma_written(n.owner.public_version);
    lemma_connected(n, n.owner.public_version.writer_sg_uuid);
    lemma_stop(n);
    lemma_same_first(routing::servers(devices), may_write(n), routing::writer_stop(n));
    lemma_none_by_rank(devices, may_write(n));
}

/// Whatever the version: a device that takes writes itself is named by the
/// version, or is one of the user's servers and every server before it by rank
/// was found down. A client never makes itself the writer.
pub proof fn law_only_servers_take_over(n: NodeView)
    requires
        routing::writer(n) == WriterTarget::Local,
    ensures
        (written(n.owner.public_version) && n.owner.public_version.writer_sg_uuid == n.device_uuid)
            || exists|i: int| #[trigger]
            serves(n.owner.user.devices, i) && n.owner.user.devices[i].uuid == n.device_uuid && (
            forall|j: int| #[trigger]
                serves(n.owner.user.devices, j) && ahead(n.owner.user.devices, j, i) ==> found_down(
                    n,
                    n.owner.user.devices[j].uuid,
                )),
{
    let devices = n.owner.user.devices;
    lemma_written(n.owner.public_version);
    if !(written(n.owner.public_version) && n.owner.public_version.writer_sg_uuid
        == n.device_uuid) {
        lemma_stop(n);
        lemma_same_first(routing::servers(devices), may_write(n), routing::writer_stop(n));
        let i = lemma_some_by_rank(devices, may_write(n));
        assert forall|j: int| #[trigger]
            serves(devices, j) && ahead(devices, j, i) implies found_down(n, devices[j].uuid) by {
            if may_write(n)(devices[j]) {
                assert(j == i || ahead(devices, i, j));
            }
        }
        assert(serves(devices, i));
    }
}

/// A server that state may be pulled from: this device, or one that has a session
/// and was not found down.
pub open spec fn may_tell(n: NodeView) -> spec_fn(DeviceView) -> bool {
    |d: DeviceView| d.uuid == n.device_uuid || connected(n, d.uuid) && !found_down(n, d.uuid)
}

/// State is pulled from the first server of the user by rank that is this device
/// or can be reached; where there is none, from nobody.
pub proof fn law_pull_source_by_rank(n: NodeView, i: int)
    ensures
        first_by_rank(n.owner.user.devices, may_tell(n), i) ==> routing::pull_source(n) == if n
            .owner.user.devices[i].uuid == n.device_uuid {
            WriterTarget::Local
        } else {
            WriterTarget::Remote(n.owner.user.devices[i].uuid)
        },
        (forall|j: int| #[trigger]
            serves(n.owner.user.devices, j) ==> !may_tell(n)(n.owner.user.devices[j]))
            ==> routing::pull_source(n) == WriterTarget::Unreachable,
{
    let devices = n.owner.user.devices;
    assert forall|d: DeviceView| #[trigger] may_tell(n)(d) <==> routing::pull_stop(n)(d) by {
        lemma_connected(n, d.uuid);
    }
    lemma_same_first(routing::servers(devices), may_tell(n), routing::pull_stop(n));
    if first_by_rank(devices, may_tell(n), i) {
        lemma_first_by_rank(devices, may_tell(n), i);
    }
    if forall|j: int| #[trigger] serves(devices, j) ==> !may_tell(n)(devices[j]) {
        lemma_none_by_rank(devices, may_tell(n));
    }
}

/// A host of a device was up when it was polled, and answered after `t`.
pub open spec fn answered_after(n: NodeView, u: Uuid, t: u64) -> bool {
    exists|i: int|
        0 <= i < n.sg_statuses.len() && (#[trigger] n.sg_statuses[i]).device_uuid == u
            && n.sg_statuses[i].status.up && n.sg_statuses[i].status.last_rtt == Some(t)
}

proof fn lemma_best_rtt(n: NodeView, u: Uuid)
    ensures
        match routing::best_rtt(n, u) {
            Some(t) => answered_after(n, u, t) && forall|x: u64| #[trigger]
                answered_after(n, u, x) ==> t <= x,
            None => forall|x: u64| !#[trigger] answered_after(n, u, x),
        },
{
    let s = n.sg_statuses;
    routing::lemma_fastest(s, u);
    match routing::fastest(s, u) {
        Some(i) => {
            assert(s[i].device_uuid == u && s[i].status.up);
            let t = s[i].status.last_rtt->0;
            assert forall|x: u64| #[trigger] answered_after(n, u, x) implies t <= x by {
                let j = choose|j: int|
                    0 <= j < s.len() && (#[trigger] s[j]).device_uuid == u && s[j].status.up
                        && s[j].status.last_rtt == Some(x);
                assert(routing::rtt_in(s[j], u) == Some(x));
            }
        },
        None => {
            assert forall|x: u64| !#[trigger] answered_after(n, u, x) by {
                if answered_after(n, u, x) {
                    let j = choose|j: int|
                        0 <= j < s.len() && (#[trigger] s[j]).device_uuid == u && s[j].status.up
                            && s[j].status.last_rtt == Some(x);
                    assert(routing::rtt_in(s[j], u) == Some(x));
                }
            }
        },
    }
}

/// The nearest of the candidates, by what is known of each.
proof fn lemma_nearest(n: NodeView, c: Seq<Uuid>)
    ensures
        match routing::nearest(n, c) {
            Some(i) => {
                &&& 0 <= i < c.len()
                &&& routing::timed(n, c[i]) is Some
                &&& forall|j: int|
                    0 <= j < c.len() ==> (routing::timed(n, #[trigger] c[j]) matches Some(x)
                        ==> routing::timed(n, c[i])->0 <= x)
            },
            None => forall|j: int| 0 <= j < c.len() ==> routing::timed(n, #[trigger] c[j]) is None,
        },
    decreases c.len(),
{
    if c.len() > 0 {
        let t = c.drop_last();
        lemma_nearest(n, t);
        assert forall|j: int| 0 <= j < c.len() - 1 implies #[trigger] c[j] == t[j] by {}
    }
}

/// The session that serves best is one with a candidate. If any candidate with a
/// session is known to answer, it is with one that answers, and no candidate with
/// a session answers sooner. If any candidate has a session, there is one.
pub proof fn law_nearest_server_serves(n: NodeView, c: Seq<Uuid>)
    ensures
        routing::best_session(n, c) matches Some(s) ==> c.contains(s.device_uuid)
            && n.owner.active_connections.contains(s),
        (exists|j: int| 0 <= j < c.len() && connected(n, #[trigger] c[j])) <==> routing::best_session(
            n,
            c,
        ) is Some,
        forall|j: int, x: u64|
            0 <= j < c.len() && connected(n, #[trigger] c[j]) && #[trigger] answered_after(
                n,
                c[j],
                x,
            ) ==> {
                let s = routing::best_session(n, c)->0;
                exists|t: u64| t <= x && #[trigger] answered_after(n, s.device_uuid, t)
            },
{
    lemma_nearest(n, c);
    let p = routing::has_session(n);
    model::lemma_first_where(c, p);
    assert forall|j: int| 0 <= j < c.len() implies (connected(n, #[trigger] c[j])
        <==> routing::session_with(n, c[j]) is Some) by {
        lemma_connected(n, c[j]);
    }
    match routing::nearest(n, c) {
        Some(i) => {
            lemma_connected(n, c[i]);
            lemma_best_rtt(n, c[i]);
            assert(connected(n, c[i]));
            assert forall|j: int, x: u64|
                0 <= j < c.len() && connected(n, #[trigger] c[j]) && #[trigger] answered_after(
                    n,
                    c[j],
                    x,
                ) implies {
                let s = routing::best_session(n, c)->0;
                exists|t: u64| t <= x && #[trigger] answered_after(n, s.device_uuid, t)
            } by {
                lemma_best_rtt(n, c[j]);
                let t = routing::best_rtt(n, c[i])->0;
                assert(answered_after(n, c[i], t));
            }
        },
        None => {
            assert forall|j: int, x: u64|
                0 <= j < c.len() && connected(n, #[trigger] c[j]) implies !#[trigger] answered_after(
                n,
                c[j],
                x,
            ) by {
                lemma_best_rtt(n, c[j]);
                assert(routing::timed(n, c[j]) is None);
            }
            match model::first_where(c, p) {
                Some(i) => {
                    lemma_connected(n, c[i]);
                    assert(p(c[i]));
                    assert(connected(n, c[i]));
                },
                None => {
                    assert forall|j: int| 0 <= j < c.len() implies !connected(n, #[trigger] c[j]) by {
                        assert(!p(c[j]));
                    }
                },
            }
        },
    }
}

/// A server over which a packet may leave: one that has a session and was not
/// found down.
pub open spec fn may_carry(n: NodeView) -> spec_fn(DeviceView) -> bool {
    |d: DeviceView| connected(n, d.uuid) && !found_down(n, d.uuid)
}

/// One of some devices has the identifier.
pub open spec fn among(devices: Seq<DeviceView>, u: Uuid) -> bool {
    exists|i: int| 0 <= i < devices.len() && (#[trigger] devices[i]).uuid == u
}

/// The devices of the user who runs a device: the own user, or else the first
/// contact who has it.
pub open spec fn household(n: NodeView, u: Uuid, devices: Seq<DeviceView>) -> bool {
    if among(n.owner.user.devices, u) {
        devices == n.owner.user.devices
    } else {
        exists|k: int|
            0 <= k < n.owner.contact_users.len() && devices == (
            #[trigger] n.owner.contact_users[k]).user.devices && among(devices, u) && forall|l: int|
                0 <= l < k ==> !among((#[trigger] n.owner.contact_users[l]).user.devices, u)
    }
}

/// Nobody who is known runs a device.
pub open spec fn homeless(n: NodeView, u: Uuid) -> bool {
    &&& !among(n.owner.user.devices, u)
    &&& forall|k: int|
        0 <= k < n.owner.contact_users.len() ==> !among(
            (#[trigger] n.owner.contact_users[k]).user.devices,
            u,
        )
}

proof fn lemma_among(devices: Seq<DeviceView>, u: Uuid)
    ensures
        model::any_where(devices, find::device_is(u)) <==> among(devices, u),
{
    let p = find::device_is(u);
    if among(devices, u) {
        let i = choose|i: int| 0 <= i < devices.len() && (#[trigger] devices[i]).uuid == u;
        assert(p(devices[i]));
    }
    if model::any_where(devices, p) {
        let i = choose|i: int| 0 <= i < devices.len() && p(#[trigger] devices[i]);
        assert(devices[i].uuid == u);
    }
}

proof fn lemma_household(n: NodeView, u: Uuid, devices: Seq<DeviceView>)
    ensures
        household(n, u, devices) ==> routing::siblings(n, u) == Some(devices),
        homeless(n, u) ==> routing::siblings(n, u) is None,
        !among(n.owner.user.devices, u) && household(n, u, devices) ==> exists|k: int|
            0 <= k < n.owner.contact_users.len() && model::first_where(
                n.owner.contact_users,
                find::contact_has_device(u),
            ) == Some(k) && devices == (#[trigger] n.owner.contact_users[k]).user.devices,
        homeless(n, u) ==> model::first_where(n.owner.contact_users, find::contact_has_device(u))
            is None,
{
    let s = n.owner.contact_users;
    let p = find::contact_has_device(u);
    lemma_among(n.owner.user.devices, u);
    if !among(n.owner.user.devices, u) {
        if household(n, u, devices) {
            let k = choose|k: int|
                0 <= k < s.len() && devices == (#[trigger] s[k]).user.devices && among(devices, u)
                    && forall|l: int| 0 <= l < k ==> !among((#[trigger] s[l]).user.devices, u);
            lemma_among(devices, u);
            assert(p(s[k]));
            assert forall|l: int| 0 <= l < k implies !p(#[trigger] s[l]) by {
                lemma_among(s[l].user.devices, u);
            }
            model::lemma_first_at(s, p, k);
        }
        if homeless(n, u) {
            assert forall|l: int| 0 <= l < s.len() implies !p(#[trigger] s[l]) by {
                lemma_among(s[l].user.devices, u);
            }
            model::lemma_first_none(s, p);
        }
    }
}

/// A packet to a device leaves over the session with the best ranked usable
/// server of the user who runs the device.
pub proof fn law_ranked_server_carries(n: NodeView, dest: Uuid, devices: Seq<DeviceView>, i: int)
    requires
        household(n, dest, devices),
        first_by_rank(devices, may_carry(n), i),
    ensures
        routing::top_ranked(n, dest) matches Some(s) && s.device_uuid == devices[i].uuid
            && n.owner.active_connections.contains(s),
        routing::carrier(n, dest) == routing::top_ranked(n, dest),
{
    lemma_household(n, dest, devices);
    let s = routing::servers(devices);
    lemma_first_by_rank(devices, may_carry(n), i);
    let at = lemma_places(devices);
    let f = model::first_where(s, may_carry(n))->0;
    model::lemma_first_where(s, may_carry(n));
    assert forall|k: int| 0 <= k < s.len() implies (may_carry(n)(#[trigger] s[k])
        <==> routing::usable(n)(s[k])) by {
        lemma_connected(n, s[k].uuid);
        assert(serves(devices, at[k]));
    }
    assert(may_carry(n)(s[f]));
    assert forall|k: int| 0 <= k < f implies !routing::usable(n)(#[trigger] s[k]) by {
        assert(!may_carry(n)(s[k]));
    }
    model::lemma_first_at(s, routing::usable(n), f);
    lemma_connected(n, devices[i].uuid);
}

/// Where no server of the user who runs a device can be used, or nobody known
/// runs it, a packet to it leaves over the session that serves best among the own
/// servers and those of that user.
pub proof fn law_others_carry(n: NodeView, dest: Uuid, devices: Seq<DeviceView>)
    requires
        homeless(n, dest) || household(n, dest, devices) && forall|j: int| #[trigger]
            serves(devices, j) ==> !may_carry(n)(devices[j]),
    ensures
        routing::top_ranked(n, dest) is None,
        routing::carrier(n, dest) == routing::best_session(n, routing::candidates(n, dest)),
{
    lemma_household(n, dest, devices);
    if !homeless(n, dest) {
        let s = routing::servers(devices);
        let at = lemma_places(devices);
        assert forall|k: int| 0 <= k < s.len() implies !routing::usable(n)(#[trigger] s[k]) by {
            lemma_connected(n, s[k].uuid);
            assert(serves(devices, at[k]));
        }
        model::lemma_first_none(s, routing::usable(n));
    }
}

proof fn lemma_server_ids(devices: Seq<DeviceView>, u: Uuid)
    ensures
        routing::server_ids(devices).contains(u) <==> exists|i: int| #[trigger]
            serves(devices, i) && devices[i].uuid == u,
{
    let k = model::keep(devices, routing::is_sg());
    let s = routing::server_ids(devices);
    if s.contains(u) {
        let j = choose|j: int| 0 <= j < s.len() && s[j] == u;
        model::lemma_keep_contains(devices, routing::is_sg(), k[j]);
        assert(k.contains(k[j]));
        let i = choose|i: int| 0 <= i < devices.len() && devices[i] == k[j];
        assert(serves(devices, i));
    }
    if exists|i: int| #[trigger] serves(devices, i) && devices[i].uuid == u {
        let i = choose|i: int| #[trigger] serves(devices, i) && devices[i].uuid == u;
        model::lemma_keep_contains(devices, routing::is_sg(), devices[i]);
        assert(devices.contains(devices[i]));
        let j = choose|j: int| 0 <= j < k.len() && k[j] == devices[i];
        assert(s[j] == u);
    }
}

/// The candidates to carry a packet to a device are the user's own servers and
/// those of the first contact who has the device.
pub proof fn law_candidates_are_servers(n: NodeView, dest: Uuid, u: Uuid)
    ensures
        routing::candidates(n, dest).contains(u) <==> (exists|i: int| #[trigger]
            serves(n.owner.user.devices, i) && n.owner.user.devices[i].uuid == u) || exists|k: int|
            0 <= k < n.owner.contact_users.len() && among(
                (#[trigger] n.owner.contact_users[k]).user.devices,
                dest,
            ) && (forall|l: int|
                0 <= l < k ==> !among((#[trigger] n.owner.contact_users[l]).user.devices, dest))
                && exists|i: int| #[trigger]
                serves(n.owner.contact_users[k].user.devices, i)
                    && n.owner.contact_users[k].user.devices[i].uuid == u,
{
    let s = n.owner.contact_users;
    let p = find::contact_has_device(dest);
    let own = routing::server_ids(n.owner.user.devices);
    let all = routing::candidates(n, dest);
    lemma_server_ids(n.owner.user.devices, u);
    model::lemma_first_where(s, p);
    assert forall|l: int| 0 <= l < s.len() implies (p(#[trigger] s[l]) <==> among(
        s[l].user.devices,
        dest,
    )) by {
        lemma_among(s[l].user.devices, dest);
    }
    let more = match model::first_where(s, p) {
        Some(i) => routing::server_ids(s[i].user.devices),
        None => Seq::empty(),
    };
    assert(all == own + more);
    assert(all.contains(u) <==> own.contains(u) || more.contains(u)) by {
        if own.contains(u) {
            let i = choose|i: int| 0 <= i < own.len() && own[i] == u;
            assert(all[i] == u);
        }
        if more.contains(u) {
            let i = choose|i: int| 0 <= i < more.len() && more[i] == u;
            assert(all[own.len() + i] == u);
        }
    }
    if let Some(k) = model::first_where(s, p) {
        assert(p(s[k]));
        lemma_server_ids(s[k].user.devices, u);
        assert forall|l: int| 0 <= l < k implies !among((#[trigger] s[l]).user.devices, dest) by {
            assert(!p(s[l]));
        }
    } else {
        assert forall|l: int| 0 <= l < s.len() implies !among(
            (#[trigger] s[l]).user.devices,
            dest,
        ) by {
            assert(!p(s[l]));
        }
    }
}

/// A device is reached at a host of it that answered soonest, if the address of
/// that host is known: no other host of it that was up answered sooner.
pub proof fn law_address_of_the_nearest_host(
    n: NodeView,
    cache: Seq<routing::ResolvedHostView>,
    u: Uuid,
    i: int,
)
    requires
        0 <= i < n.sg_statuses.len(),
        n.sg_statuses[i].device_uuid == u,
        n.sg_statuses[i].status.up,
        n.sg_statuses[i].status.last_rtt is Some,
        forall|j: int|
            0 <= j < n.sg_statuses.len() && j != i && (#[trigger] n.sg_statuses[j]).device_uuid == u
                && n.sg_statuses[j].status.up ==> (n.sg_statuses[j].status.last_rtt matches Some(x)
                ==> n.sg_statuses[i].status.last_rtt->0 < x),
        routing::resolved(cache, n.sg_statuses[i].host) is Some,
    ensures
        routing::best_address(n, cache, u) == routing::resolved(cache, n.sg_statuses[i].host),
{
    let s = n.sg_statuses;
    routing::lemma_fastest(s, u);
    assert(routing::rtt_in(s[i], u) is Some);
    let k = routing::fastest(s, u)->0;
    if k != i {
        assert(s[k].device_uuid == u && s[k].status.up);
    }
}

/// A device of which no host is known to answer is reached at the first of its
/// advertised hosts whose address is known.
pub proof fn law_address_without_polls(
    n: NodeView,
    cache: Seq<routing::ResolvedHostView>,
    u: Uuid,
    devices: Seq<DeviceView>,
    d: int,
    h: int,
)
    requires
        forall|x: u64| !#[trigger] answered_after(n, u, x),
        household(n, u, devices),
        0 <= d < devices.len(),
        devices[d].uuid == u,
        forall|j: int| 0 <= j < d ==> (#[trigger] devices[j]).uuid != u,
        0 <= h < devices[d].hosts.len(),
        routing::resolved(cache, devices[d].hosts[h]) is Some,
        forall|j: int|
            0 <= j < h ==> routing::resolved(cache, #[trigger] devices[d].hosts[j]) is None,
    ensures
        routing::best_address(n, cache, u) == routing::resolved(cache, devices[d].hosts[h]),
{
    lemma_best_rtt(n, u);
    routing::lemma_fastest(n.sg_statuses, u);
    lemma_household(n, u, devices);
    assert(find::device_is(u)(devices[d]));
    assert forall|j: int| 0 <= j < d implies !find::device_is(u)(#[trigger] devices[j]) by {}
    model::lemma_first_at(devices, find::device_is(u), d);
    let hosts = devices[d].hosts;
    assert(routing::is_resolved(cache)(hosts[h]));
    assert forall|j: int| 0 <= j < h implies !routing::is_resolved(cache)(#[trigger] hosts[j]) by {}
    model::lemma_first_at(hosts, routing::is_resolved(cache), h);
}

} // verus!
