//! What the owner's decisions and the tidying up come to, told by applications,
//! tunnels and sessions alone.
use crate::admin_apps;
use crate::app_edge;
use crate::apply;
use crate::change;
use crate::change::ChangeView;
use crate::effects::EffectView;
use crate::election;
use crate::find;
use crate::following;
use crate::merge;
use crate::messages;
use crate::model;
use crate::outcomes;
use crate::passage;
use crate::reconcile;
use crate::routing;
use crate::routing::WriterTarget;
use crate::sync;
use crate::tunnels;
use crate::types::{
    ActiveConnection, ActiveTunnel, ApplicationView, DeviceView, NodeView, OwnerView,
    PendingTunnel, PendingTunnelConnection, Scope, SyncVersion, TunnelCounter, TunnelLeg, Uuid,
    WriteLogEntryView,
};
use crate::wire::SYNC_WRITE_REQUEST_OP;
use vstd::prelude::*;

verus! {

/// The session of a leg is there and has not run out.
pub open spec fn alive(n: NodeView, l: TunnelLeg, now: u64) -> bool {
    exists|c: ActiveConnection| #[trigger]
        following::session_under(n, l.conn_id, c) && c.timeout > now
}

proof fn lemma_alive(n: NodeView, l: TunnelLeg, now: u64)
    ensures
        alive(n, l, now) <==> tunnels::live_leg(n, now)(l),
{
    if alive(n, l, now) {
        let c = choose|c: ActiveConnection| #[trigger]
            following::session_under(n, l.conn_id, c) && c.timeout > now;
        following::lemma_session_under(n, l.conn_id, c);
    }
    messages::lemma_session_is_under(n, l.conn_id);
}

/// A tunnel was used not too long ago.
pub open spec fn in_use(t: ActiveTunnel, now_ms: u64) -> bool {
    t.last_used_at + tunnels::TUNNEL_IDLE_TIMEOUT_MS > now_ms
}

/// Tidying up leaves the tunnels that were in use, and no others.
pub proof fn law_idle_tunnels_go(
    n: NodeView,
    now_ms: u64,
    now: u64,
    window_ms: u64,
    t: ActiveTunnel,
)
    ensures
        tunnels::tidied(n, now_ms, now, window_ms).owner.active_tunnels.contains(t)
            <==> n.owner.active_tunnels.contains(t) && in_use(t, now_ms),
{
    model::lemma_keep_contains(n.owner.active_tunnels, tunnels::busy(now_ms), t);
}

/// It leaves the proposals between devices with which there are sessions, and no
/// others.
pub proof fn law_lost_proposals_go(
    n: NodeView,
    now_ms: u64,
    now: u64,
    window_ms: u64,
    p: PendingTunnel,
)
    ensures
        tunnels::tidied(n, now_ms, now, window_ms).owner.pending_tunnels.contains(p)
            <==> n.owner.pending_tunnels.contains(p) && election::connected(
            n,
            p.sender_device_uuid,
        ) && election::connected(n, p.dest_device_uuid),
{
    let s = n.owner.active_connections;
    model::lemma_keep_contains(n.owner.pending_tunnels, tunnels::both_ends(s), p);
    election::lemma_connected(n, p.sender_device_uuid);
    election::lemma_connected(n, p.dest_device_uuid);
    model::lemma_first_where(s, find::conn_to(p.sender_device_uuid));
    model::lemma_first_where(s, find::conn_to(p.dest_device_uuid));
}

/// It leaves the counters whose window has not passed, and no others.
pub proof fn law_passed_counters_go(
    n: NodeView,
    now_ms: u64,
    now: u64,
    window_ms: u64,
    c: TunnelCounter,
)
    ensures
        tunnels::tidied(n, now_ms, now, window_ms).owner.tunnel_counters.contains(c)
            <==> n.owner.tunnel_counters.contains(c) && window_ms > 0 && c.window_start + window_ms
            > now_ms,
{
    model::lemma_keep_contains(
        n.owner.tunnel_counters,
        tunnels::counting(now_ms, window_ms),
        c,
    );
}

/// It leaves the legs whose sessions are alive, and of the ends that were started
/// those of whose tunnel no leg is dead; no others.
pub proof fn law_dead_legs_go(
    n: NodeView,
    now_ms: u64,
    now: u64,
    window_ms: u64,
    l: TunnelLeg,
    p: PendingTunnelConnection,
)
    ensures
        ({
            let m = tunnels::tidied(n, now_ms, now, window_ms);
            &&& m.owner.dg_tunnel_map.contains(l) <==> n.owner.dg_tunnel_map.contains(l) && alive(
                n,
                l,
                now,
            )
            &&& m.owner.pending_tunnel_connections.contains(p)
                <==> n.owner.pending_tunnel_connections.contains(p) && forall|i: int|
                0 <= i < n.owner.dg_tunnel_map.len() && (
                #[trigger] n.owner.dg_tunnel_map[i]).tunnel_id == p.tunnel_id ==> alive(
                    n,
                    n.owner.dg_tunnel_map[i],
                    now,
                )
        }),
{
    let legs = n.owner.dg_tunnel_map;
    model::lemma_keep_contains(legs, tunnels::live_leg(n, now), l);
    model::lemma_keep_contains(
        n.owner.pending_tunnel_connections,
        tunnels::no_dead_leg(n, now),
        p,
    );
    lemma_alive(n, l, now);
    let dead = tunnels::dead_leg_of(n, now, p.tunnel_id);
    if model::any_where(legs, dead) {
        let i = choose|i: int| 0 <= i < legs.len() && dead(#[trigger] legs[i]);
        lemma_alive(n, legs[i], now);
        assert(legs[i].tunnel_id == p.tunnel_id && !alive(n, legs[i], now));
    } else {
        assert forall|i: int|
            0 <= i < legs.len() && (#[trigger] legs[i]).tunnel_id == p.tunnel_id implies alive(
            n,
            legs[i],
            now,
        ) by {
            assert(!dead(legs[i]));
            lemma_alive(n, legs[i], now);
        }
    }
}

/// An application of this device: the device, the application, and that no other
/// application of it has the same identifier.
pub open spec fn own_app(n: NodeView, i: int, id: Uuid, k: int) -> bool {
    &&& outcomes::device_at(n.owner, n.device_uuid, i)
    &&& 0 <= k < n.owner.user.devices[i].applications.len()
    &&& n.owner.user.devices[i].applications[k].id == id
    &&& forall|j: int|
        0 <= j < n.owner.user.devices[i].applications.len() && j != k ==> (
        #[trigger] n.owner.user.devices[i].applications[j]).id != id
}

proof fn lemma_own_app(n: NodeView, i: int, id: Uuid, k: int)
    requires
        own_app(n, i, id, k),
    ensures
        app_edge::own_index(n) == Some(i),
        app_edge::own_apps(n) == n.owner.user.devices[i].applications,
        model::first_where(app_edge::own_apps(n), find::app_is(id)) == Some(k),
{
    outcomes::lemma_device_at(n.owner, n.device_uuid, i);
    assert(outcomes::app_at(n.owner.user.devices[i].applications, id, k));
    outcomes::lemma_app_at(n.owner.user.devices[i].applications, id, k);
}

/// An application that the owner approves is approved, whatever it was, and is
/// made public by the writer: over the session with it where it is another node,
/// with a new version where it is this one. Where nobody can write, the owner is
/// told so and nothing has changed.
pub proof fn law_approved_is_approved(
    n: NodeView,
    i: int,
    id: Uuid,
    k: int,
    target: WriterTarget,
    now: u64,
    retention: u64,
    c: ActiveConnection,
)
    requires
        n.owner.public_version.room(2),
        own_app(n, i, id, k),
        target matches WriterTarget::Remote(w) ==> passage::session_to(n, w, c),
        change::plain_change(
            ChangeView::AddApplication {
                device_uuid: n.device_uuid,
                app_id: id,
                app_alias: n.owner.user.devices[i].applications[k].alias,
            },
        ),
    ensures
        ({
            let r = admin_apps::approval(n, id, target, now, retention);
            let before = n.owner.user.devices[i].applications;
            let after = r.node.owner.user.devices[i].applications;
            let add = ChangeView::AddApplication {
                device_uuid: n.device_uuid,
                app_id: id,
                app_alias: before[k].alias,
            };
            let done = {
                &&& !r.failed
                &&& after.len() == before.len()
                &&& forall|j: int|
                    0 <= j < before.len() && j != k ==> #[trigger] after[j] == before[j]
                &&& after[k].user_approved
                &&& after[k].id == id
                &&& after[k].alias == before[k].alias
                &&& after[k].token == before[k].token
                &&& after[k].host == before[k].host
                &&& after[k].protocol == before[k].protocol
                &&& r.effects.len() > 0 && r.effects[0] == EffectView::Save
            };
            match target {
                WriterTarget::Remote(_) => done && r.effects.len() == 2 && messages::asks_for(
                    r.effects,
                    1,
                    c,
                    add,
                ) && r.node.owner.public_version == n.owner.public_version,
                WriterTarget::Local => done && outcomes::succeeds(
                    n.owner.public_version,
                    r.node.owner.public_version,
                    n.device_uuid,
                ),
                WriterTarget::Unreachable => r.failed && r.node == n,
            }
        }),
{
    lemma_own_app(n, i, id, k);
    let before = n.owner.user.devices[i].applications;
    let more = before.update(k, ApplicationView { user_approved: true, ..before[k] });
    app_edge::lemma_same_index(n, more);
    let m = admin_apps::with_approval(n, k, true);
    let add = ChangeView::AddApplication {
        device_uuid: n.device_uuid,
        app_id: id,
        app_alias: before[k].alias,
    };
    assert(outcomes::app_at(more, id, k));
    outcomes::lemma_app_at(more, id, k);
    assert(apply::applied(m.owner, add) == Some((false, m.owner)));
    let r = admin_apps::approval(n, id, target, now, retention);
    match target {
        WriterTarget::Remote(w) => {
            passage::lemma_session_to(n, w, c);
            assert(routing::session_with(m, w) == Some(c));
            change::law_change_roundtrip(add);
            assert(following::packet_at(
                r.effects,
                1,
                c,
                SYNC_WRITE_REQUEST_OP,
                change::enc_change(add),
            ));
        },
        WriterTarget::Local => {
            assert(r.node.owner.user == m.owner.user);
        },
        WriterTarget::Unreachable => {
            admin_apps::law_failed_approval_leaves_nothing(n, id, target, now, retention);
        },
    }
}

/// An application that the owner rejects is gone from this device, and the others
/// are not; the writer takes it out of what is public. Where nobody can write, the
/// owner is told so, and the application is still there.
pub proof fn law_rejected_is_gone(
    n: NodeView,
    i: int,
    id: Uuid,
    k: int,
    target: WriterTarget,
    now: u64,
    retention: u64,
    c: ActiveConnection,
)
    requires
        n.owner.public_version.room(2),
        own_app(n, i, id, k),
        target matches WriterTarget::Remote(w) ==> passage::session_to(n, w, c),
        change::plain_change(
            ChangeView::RemoveApplication { device_uuid: n.device_uuid, app_id: id },
        ),
    ensures
        ({
            let r = admin_apps::removal(n, id, target, now, retention);
            let before = n.owner.user.devices[i].applications;
            let after = r.node.owner.user.devices[i].applications;
            let remove = ChangeView::RemoveApplication { device_uuid: n.device_uuid, app_id: id };
            let done = {
                &&& !r.failed
                &&& after == before.remove(k)
                &&& outcomes::no_app(after, id)
                &&& r.effects.len() > 0 && r.effects[0] == EffectView::Save
            };
            match target {
                WriterTarget::Remote(_) => done && r.effects.len() == 2 && messages::asks_for(
                    r.effects,
                    1,
                    c,
                    remove,
                ),
                WriterTarget::Local => done && outcomes::succeeds(
                    n.owner.public_version,
                    r.node.owner.public_version,
                    n.device_uuid,
                ),
                WriterTarget::Unreachable => r.failed && after.contains(before[k])
                    && r.node.owner.public_version == n.owner.public_version,
            }
        }),
{
    lemma_own_app(n, i, id, k);
    let before = n.owner.user.devices[i].applications;
    let rest = before.remove(k);
    app_edge::lemma_same_index(n, rest);
    let m = app_edge::with_own_apps(n, rest);
    let remove = ChangeView::RemoveApplication { device_uuid: n.device_uuid, app_id: id };
    assert forall|j: int| 0 <= j < rest.len() implies (#[trigger] rest[j]).id != id by {
        assert(rest[j] == if j < k {
            before[j]
        } else {
            before[j + 1]
        });
    }
    let f = find::app_is_not(id);
    assert forall|j: int| 0 <= j < rest.len() implies f(#[trigger] rest[j]) by {}
    model::lemma_keep_all(rest, f);
    assert(m.owner.with_apps(i, rest) =~= m.owner);
    assert(apply::applied(m.owner, remove) == Some((false, m.owner)));
    let r = admin_apps::removal(n, id, target, now, retention);
    match target {
        WriterTarget::Remote(w) => {
            passage::lemma_session_to(n, w, c);
            assert(routing::session_with(m, w) == Some(c));
            change::law_change_roundtrip(remove);
            assert(following::packet_at(
                r.effects,
                1,
                c,
                SYNC_WRITE_REQUEST_OP,
                change::enc_change(remove),
            ));
        },
        WriterTarget::Local => {
            assert(r.node.owner.user == m.owner.user);
        },
        WriterTarget::Unreachable => {
            let back = rest.push(before[k]);
            app_edge::lemma_same_index(m, back);
            assert(back[rest.len() as int] == before[k]);
        },
    }
}

/// The first of the user's devices that has an application.
pub open spec fn app_on(n: NodeView, id: Uuid, i: int, k: int) -> bool {
    &&& 0 <= i < n.owner.user.devices.len()
    &&& outcomes::app_at(n.owner.user.devices[i].applications, id, k)
    &&& forall|j: int|
        0 <= j < i ==> outcomes::no_app((#[trigger] n.owner.user.devices[j]).applications, id)
    &&& forall|j: int|
        0 <= j < i ==> (#[trigger] n.owner.user.devices[j]).uuid != n.owner.user.devices[i].uuid
}

/// An application of any of the user's devices that the owner renames has the new
/// name, and the writer makes it public. Where nobody can write, the owner is told
/// so, and it has its old name.
pub proof fn law_renamed_has_the_name(
    n: NodeView,
    id: Uuid,
    i: int,
    k: int,
    alias: Seq<char>,
    target: WriterTarget,
    now: u64,
    retention: u64,
    c: ActiveConnection,
)
    requires
        n.owner.public_version.room(2),
        app_on(n, id, i, k),
        n.owner.user.devices[i].applications[k].alias != alias,
        target matches WriterTarget::Remote(w) ==> passage::session_to(n, w, c),
        change::plain_change(
            ChangeView::UpdateApplicationAlias {
                device_uuid: n.owner.user.devices[i].uuid,
                app_id: id,
                new_alias: alias,
            },
        ),
    ensures
        ({
            let r = admin_apps::renaming(n, id, alias, target, now, retention);
            let before = n.owner.user.devices[i].applications;
            let after = r.node.owner.user.devices[i].applications;
            let rename = ChangeView::UpdateApplicationAlias {
                device_uuid: n.owner.user.devices[i].uuid,
                app_id: id,
                new_alias: alias,
            };
            &&& after.len() == before.len()
            &&& forall|j: int|
                0 <= j < before.len() && j != k ==> #[trigger] after[j] == before[j]
            &&& after[k].id == id
            &&& after[k].user_approved == before[k].user_approved
            &&& after[k].token == before[k].token
            &&& match target {
                WriterTarget::Remote(_) => !r.failed && after[k].alias == alias && r.effects.len()
                    == 2 && messages::asks_for(r.effects, 1, c, rename),
                WriterTarget::Local => !r.failed && after[k].alias == alias && outcomes::succeeds(
                    n.owner.public_version,
                    r.node.owner.public_version,
                    n.device_uuid,
                ),
                WriterTarget::Unreachable => r.failed && after[k].alias == before[k].alias,
            }
        }),
{
    let devices = n.owner.user.devices;
    let before = devices[i].applications;
    let u = devices[i].uuid;
    let owns = admin_apps::device_has_app(id);
    outcomes::lemma_app_at(before, id, k);
    assert(owns(devices[i]));
    assert forall|j: int| 0 <= j < i implies !owns(#[trigger] devices[j]) by {
        outcomes::lemma_no_app(devices[j].applications, id);
    }
    model::lemma_first_at(devices, owns, i);
    let more = before.update(k, ApplicationView { alias, ..before[k] });
    let m = admin_apps::with_alias_at(n, i, k, alias);
    assert(outcomes::device_at(m.owner, u, i)) by {
        assert forall|j: int| 0 <= j < i implies (#[trigger] m.owner.user.devices[j]).uuid != u by {
            assert(m.owner.user.devices[j] == devices[j]);
        }
    }
    outcomes::lemma_device_at(m.owner, u, i);
    assert(outcomes::app_at(more, id, k)) by {
        assert forall|j: int| 0 <= j < k implies (#[trigger] more[j]).id != id by {
            assert(more[j] == before[j]);
        }
    }
    outcomes::lemma_app_at(more, id, k);
    let rename = ChangeView::UpdateApplicationAlias {
        device_uuid: u,
        app_id: id,
        new_alias: alias,
    };
    assert(apply::applied(m.owner, rename) == Some((false, m.owner)));
    let r = admin_apps::renaming(n, id, alias, target, now, retention);
    match target {
        WriterTarget::Remote(w) => {
            passage::lemma_session_to(n, w, c);
            assert(routing::session_with(m, w) == Some(c));
            change::law_change_roundtrip(rename);
            assert(following::packet_at(
                r.effects,
                1,
                c,
                SYNC_WRITE_REQUEST_OP,
                change::enc_change(rename),
            ));
        },
        WriterTarget::Local => {
            assert(r.node.owner.user == m.owner.user);
        },
        WriterTarget::Unreachable => {},
    }
}

/// The ranks by which writers are compared are those of the user's servers.
pub proof fn law_ranks_are_of_servers(devices: Seq<DeviceView>, u: Uuid, r: u32)
    ensures
        reconcile::ranks_of(devices).contains((u, r)) <==> exists|i: int| #[trigger]
            election::serves(devices, i) && devices[i].uuid == u && devices[i].sg_rank == Some(r),
    decreases devices.len(),
{
    let all = reconcile::ranks_of(devices);
    if devices.len() > 0 {
        let t = devices.drop_last();
        let rest = reconcile::ranks_of(t);
        let n = devices.len() - 1;
        law_ranks_are_of_servers(t, u, r);
        if rest.contains((u, r)) {
            let k = choose|k: int| 0 <= k < rest.len() && rest[k] == (u, r);
            assert(all[k] == (u, r));
            let i = choose|i: int| #[trigger]
                election::serves(t, i) && t[i].uuid == u && t[i].sg_rank == Some(r);
            assert(election::serves(devices, i));
        }
        if all.contains((u, r)) {
            let k = choose|k: int| 0 <= k < all.len() && all[k] == (u, r);
            if k < rest.len() {
                assert(rest[k] == (u, r));
            } else {
                assert(election::serves(devices, n));
            }
        }
        if exists|i: int| #[trigger]
            election::serves(devices, i) && devices[i].uuid == u && devices[i].sg_rank == Some(r) {
            let i = choose|i: int| #[trigger]
                election::serves(devices, i) && devices[i].uuid == u && devices[i].sg_rank == Some(
                    r,
                );
            if i < n {
                assert(election::serves(t, i));
            } else {
                assert(all[rest.len() as int] == (u, r));
            }
        }
    }
}

/// A merge that changes the state is stamped with the first server by rank that
/// is this one or can be reached, and moves the version of its scope by one step;
/// that of the other scope stays.
pub proof fn law_merge_is_stamped(
    n: NodeView,
    peer: Uuid,
    scope: Scope,
    entries: Seq<WriteLogEntryView>,
    now: u64,
    retention: u64,
    i: int,
)
    requires
        following::version_in(n, scope).room(1),
        reconcile::merged_in(n, peer, scope, entries, now, retention).0,
    ensures
        ({
            let m = reconcile::merged_in(n, peer, scope, entries, now, retention).1;
            let v = following::version_in(m, scope);
            &&& scope == Scope::Public ==> m.owner.private_version == n.owner.private_version
            &&& scope == Scope::Private ==> m.owner.public_version == n.owner.public_version
            &&& outcomes::succeeds(following::version_in(n, scope), v, v.writer_sg_uuid)
            &&& election::first_by_rank(m.owner.user.devices, election::may_tell(m), i)
                ==> v.writer_sg_uuid == m.owner.user.devices[i].uuid
            &&& (forall|j: int| #[trigger]
                election::serves(m.owner.user.devices, j) ==> !election::may_tell(m)(
                    m.owner.user.devices[j],
                )) ==> v.writer_sg_uuid == n.device_uuid
        }),
{
    let local = model::keep(n.owner.write_log, reconcile::in_scope(scope));
    let o = OwnerView {
        received_merge_proposals: reconcile::with_proposal(
            n.owner.received_merge_proposals,
            peer,
            entries,
        ),
        write_log: sync::pruned(
            n.owner.write_log + merge::news(local, entries),
            now,
            retention,
        ),
        ..n.owner
    };
    let cs = reconcile::merge_changes(n.owner, scope, entries);
    reconcile::lemma_applied_all_frame(o, cs);
    let q = NodeView { owner: reconcile::applied_all(o, cs).1, ..n };
    let m = reconcile::merged_in(n, peer, scope, entries, now, retention).1;
    let devices = m.owner.user.devices;
    assert(devices == q.owner.user.devices);
    assert forall|d: DeviceView| #[trigger] election::may_tell(m)(d) == election::may_tell(q)(d) by {
        election::lemma_connected(m, d.uuid);
        election::lemma_connected(q, d.uuid);
    }
    if election::first_by_rank(devices, election::may_tell(m), i) {
        assert(election::first_by_rank(devices, election::may_tell(q), i));
    }
    election::law_pull_source_by_rank(q, i);
}

/// The scopes that moved are those whose version is another one.
pub proof fn law_moved_are_those_that_moved(
    pre_priv: SyncVersion,
    pre_pub: SyncVersion,
    post_priv: SyncVersion,
    post_pub: SyncVersion,
)
    ensures
        ({
            let s = sync::moved(pre_priv, pre_pub, post_priv, post_pub);
            &&& s.contains(Scope::Private) <==> pre_priv != post_priv
            &&& s.contains(Scope::Public) <==> pre_pub != post_pub
            &&& s.len() == 2 ==> s[0] != s[1]
            &&& s.len() <= 2
        }),
{
    let s = sync::moved(pre_priv, pre_pub, post_priv, post_pub);
    if pre_priv != post_priv {
        assert(s[0] == Scope::Private);
    }
    if pre_pub != post_pub {
        assert(s[s.len() - 1] == Scope::Public);
    }
}

} // verus!
