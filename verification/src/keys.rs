//! Lists that stand for maps. Sessions, tunnels, counters, marks and the like are
//! found by a key, and no key occurs twice in a list, whatever a node does.
use crate::admin_apps;
use crate::app_edge;
use crate::apply;
use crate::bootstrap;
use crate::change::ChangeView;
use crate::cross_user;
use crate::find;
use crate::hosts;
use crate::ids;
use crate::lists;
use crate::merge;
use crate::mint;
use crate::model;
use crate::reconcile;
use crate::relay;
use crate::routing;
use crate::routing::WriterTarget;
use crate::sessions;
use crate::setup;
use crate::sync;
use crate::tunnels;
use crate::types::{
    ActiveConnection, ActiveTunnel, ApplicationView, DeviceView, Invitation, KeyPair, NodeView,
    OwnerView, PeerAddr, PeerWatermarksView, PendingConnection, PendingDeviceAcceptance,
    PendingTunnel, PendingTunnelConnection, PublicKey, ReceivedProposalView, Scope, SecretKey,
    SgHostStatusView, SgStatus, SyncVersion, TunnelCounter, TunnelLeg, UserView, Uuid,
    WriteLogEntryView,
};
use crate::ui;
use crate::watermark;
use crate::wire;
use vstd::prelude::*;

verus! {

/// No two items have the same key.
pub open spec fn distinct<T, K>(s: Seq<T>, key: spec_fn(T) -> K) -> bool {
    forall|i: int, j: int| 0 <= i < j < s.len() ==> key(#[trigger] s[i]) != key(#[trigger] s[j])
}

pub open spec fn conn_key() -> spec_fn(ActiveConnection) -> u16 {
    |c: ActiveConnection| c.id
}

pub open spec fn pending_key() -> spec_fn(PendingConnection) -> u16 {
    |p: PendingConnection| p.our_conn_id
}

pub open spec fn tunnel_key() -> spec_fn(ActiveTunnel) -> u16 {
    |t: ActiveTunnel| t.id
}

pub open spec fn pending_tunnel_key() -> spec_fn(PendingTunnel) -> u16 {
    |p: PendingTunnel| p.tunnel_id
}

pub open spec fn started_key() -> spec_fn(PendingTunnelConnection) -> u16 {
    |p: PendingTunnelConnection| p.tunnel_id
}

pub open spec fn leg_key() -> spec_fn(TunnelLeg) -> u16 {
    |l: TunnelLeg| l.tunnel_id
}

pub open spec fn counter_key() -> spec_fn(TunnelCounter) -> (Uuid, Uuid) {
    |c: TunnelCounter| (c.sender_uuid, c.dest_uuid)
}

pub open spec fn invitation_key() -> spec_fn(Invitation) -> Uuid {
    |i: Invitation| i.id
}

pub open spec fn acceptance_key() -> spec_fn(PendingDeviceAcceptance) -> Uuid {
    |a: PendingDeviceAcceptance| a.invitation_id
}

pub open spec fn marks_key() -> spec_fn(PeerWatermarksView) -> Uuid {
    |m: PeerWatermarksView| m.peer
}

pub open spec fn mark_key() -> spec_fn(SyncVersion) -> Uuid {
    |v: SyncVersion| v.writer_sg_uuid
}

pub open spec fn proposal_key() -> spec_fn(ReceivedProposalView) -> Uuid {
    |p: ReceivedProposalView| p.peer
}

pub open spec fn status_key() -> spec_fn(SgHostStatusView) -> (Uuid, Seq<char>) {
    |s: SgHostStatusView| (s.device_uuid, s.host)
}

/// The marks agreed with each peer: one list for a peer, one mark for a writer.
pub open spec fn marks_distinct(list: Seq<PeerWatermarksView>) -> bool {
    &&& distinct(list, marks_key())
    &&& forall|i: int| 0 <= i < list.len() ==> distinct(#[trigger] list[i].marks, mark_key())
}

/// No key occurs twice in any list of a node that stands for a map, and no two
/// invitations of one sort have the same identifier.
pub open spec fn keyed(n: NodeView) -> bool {
    &&& distinct(n.owner.active_connections, conn_key())
    &&& distinct(n.owner.pending_connections, pending_key())
    &&& distinct(n.owner.active_tunnels, tunnel_key())
    &&& distinct(n.owner.pending_tunnels, pending_tunnel_key())
    &&& distinct(n.owner.pending_tunnel_connections, started_key())
    &&& distinct(n.owner.dg_tunnel_map, leg_key())
    &&& distinct(n.owner.tunnel_counters, counter_key())
    &&& distinct(n.owner.device_invitations, invitation_key())
    &&& distinct(n.owner.contact_invitations, invitation_key())
    &&& distinct(n.owner.pending_device_acceptances, acceptance_key())
    &&& marks_distinct(n.owner.last_watermarks)
    &&& distinct(n.owner.received_merge_proposals, proposal_key())
    &&& distinct(n.sg_statuses, status_key())
}

/// The lists of two nodes that stand for maps are the same.
pub open spec fn same_lists(n: NodeView, m: NodeView) -> bool {
    &&& n.owner.active_connections == m.owner.active_connections
    &&& n.owner.pending_connections == m.owner.pending_connections
    &&& n.owner.active_tunnels == m.owner.active_tunnels
    &&& n.owner.pending_tunnels == m.owner.pending_tunnels
    &&& n.owner.pending_tunnel_connections == m.owner.pending_tunnel_connections
    &&& n.owner.dg_tunnel_map == m.owner.dg_tunnel_map
    &&& n.owner.tunnel_counters == m.owner.tunnel_counters
    &&& n.owner.device_invitations == m.owner.device_invitations
    &&& n.owner.contact_invitations == m.owner.contact_invitations
    &&& n.owner.pending_device_acceptances == m.owner.pending_device_acceptances
    &&& n.owner.last_watermarks == m.owner.last_watermarks
    &&& n.owner.received_merge_proposals == m.owner.received_merge_proposals
    &&& n.sg_statuses == m.sg_statuses
}

/// No invitation of a node has the identifier.
pub open spec fn unused(n: NodeView, id: Uuid) -> bool {
    &&& !model::any_where(n.owner.device_invitations, bootstrap::invitation_is(id))
    &&& !model::any_where(n.owner.contact_invitations, bootstrap::invitation_is(id))
}

proof fn lemma_keep<T, K>(s: Seq<T>, p: spec_fn(T) -> bool, key: spec_fn(T) -> K)
    requires
        distinct(s, key),
    ensures
        distinct(model::keep(s, p), key),
    decreases s.len(),
{
    if s.len() > 0 {
        let t = s.drop_last();
        assert forall|i: int, j: int| 0 <= i < j < t.len() implies key(#[trigger] t[i]) != key(
            #[trigger] t[j],
        ) by {
            assert(t[i] == s[i] && t[j] == s[j]);
        }
        lemma_keep(t, p, key);
        if p(s.last()) {
            let k = model::keep(t, p);
            assert forall|i: int| 0 <= i < k.len() implies key(#[trigger] k[i]) != key(s.last()) by {
                model::lemma_keep_contains(t, p, k[i]);
                assert(k.contains(k[i]));
                let j = choose|j: int| 0 <= j < t.len() && t[j] == k[i];
                assert(s[j] == t[j]);
                assert(s[s.len() - 1] == s.last());
            }
            lemma_push(k, s.last(), key);
        }
    }
}

proof fn lemma_push<T, K>(s: Seq<T>, x: T, key: spec_fn(T) -> K)
    requires
        distinct(s, key),
        forall|i: int| 0 <= i < s.len() ==> key(#[trigger] s[i]) != key(x),
    ensures
        distinct(s.push(x), key),
{
    let t = s.push(x);
    assert forall|i: int, j: int| 0 <= i < j < t.len() implies key(#[trigger] t[i]) != key(
        #[trigger] t[j],
    ) by {
        assert(t[i] == s[i]);
        if j < s.len() {
            assert(t[j] == s[j]);
        }
    }
}

/// An item takes the place of those with its key.
proof fn lemma_put<T, K>(s: Seq<T>, p: spec_fn(T) -> bool, x: T, key: spec_fn(T) -> K)
    requires
        distinct(s, key),
        forall|y: T| #[trigger] p(y) ==> key(y) != key(x),
    ensures
        distinct(model::keep(s, p).push(x), key),
{
    lemma_keep(s, p, key);
    model::lemma_keep_again(s, p);
    let k = model::keep(s, p);
    assert forall|i: int| 0 <= i < k.len() implies key(#[trigger] k[i]) != key(x) by {
        assert(p(k[i]));
    }
    lemma_push(k, x, key);
}

proof fn lemma_update<T, K>(s: Seq<T>, i: int, x: T, key: spec_fn(T) -> K)
    requires
        distinct(s, key),
        0 <= i < s.len(),
        key(x) == key(s[i]),
    ensures
        distinct(s.update(i, x), key),
{
    let t = s.update(i, x);
    assert forall|a: int, b: int| 0 <= a < b < t.len() implies key(#[trigger] t[a]) != key(
        #[trigger] t[b],
    ) by {
        assert(key(t[a]) == key(s[a]));
        assert(key(t[b]) == key(s[b]));
    }
}

proof fn lemma_remove<T, K>(s: Seq<T>, i: int, key: spec_fn(T) -> K)
    requires
        distinct(s, key),
        0 <= i < s.len(),
    ensures
        distinct(s.remove(i), key),
{
    let t = s.remove(i);
    assert forall|a: int, b: int| 0 <= a < b < t.len() implies key(#[trigger] t[a]) != key(
        #[trigger] t[b],
    ) by {
        let c = if a < i {
            a
        } else {
            a + 1
        };
        let d = if b < i {
            b
        } else {
            b + 1
        };
        assert(t[a] == s[c] && t[b] == s[d]);
    }
}

/// An item takes the place of the first with its key, or comes last.
proof fn lemma_set<T, K>(s: Seq<T>, p: spec_fn(T) -> bool, x: T, key: spec_fn(T) -> K)
    requires
        distinct(s, key),
        forall|y: T| #[trigger] p(y) <==> key(y) == key(x),
    ensures
        match model::first_where(s, p) {
            Some(i) => distinct(s.update(i, x), key),
            None => distinct(s.push(x), key),
        },
{
    model::lemma_first_where(s, p);
    match model::first_where(s, p) {
        Some(i) => {
            assert(p(s[i]));
            lemma_update(s, i, x, key);
        },
        None => {
            assert forall|i: int| 0 <= i < s.len() implies key(#[trigger] s[i]) != key(x) by {
                assert(!p(s[i]));
            }
            lemma_push(s, x, key);
        },
    }
}

// Changes of the shared state.

pub proof fn lemma_requested(
    n: NodeView,
    c: ChangeView,
    target: WriterTarget,
    force: bool,
    now: u64,
    retention: u64,
)
    ensures
        same_lists(n, sync::requested(n, c, target, force, now, retention).1),
        sync::written(n, c, force, now, retention) matches Some((m, _)) ==> same_lists(n, m),
{
    apply::law_apply_frame(n.owner, c);
}

pub proof fn lemma_write_requested(
    n: NodeView,
    conn_id: u16,
    c: ChangeView,
    now: u64,
    retention: u64,
)
    ensures
        same_lists(n, sync::write_requested(n, conn_id, c, now, retention).0),
{
    apply::law_apply_frame(n.owner, c);
}

pub proof fn lemma_approval(n: NodeView, id: Uuid, target: WriterTarget, now: u64, retention: u64)
    ensures
        same_lists(n, admin_apps::approval(n, id, target, now, retention).node),
{
    if let Some(i) = model::first_where(app_edge::own_apps(n), find::app_is(id)) {
        let m = admin_apps::with_approval(n, i, true);
        let c = ChangeView::AddApplication {
            device_uuid: n.device_uuid,
            app_id: id,
            app_alias: app_edge::own_apps(n)[i].alias,
        };
        lemma_requested(m, c, target, true, now, retention);
    }
}

pub proof fn lemma_renaming(
    n: NodeView,
    id: Uuid,
    alias: Seq<char>,
    target: WriterTarget,
    now: u64,
    retention: u64,
)
    ensures
        same_lists(n, admin_apps::renaming(n, id, alias, target, now, retention).node),
{
    let devices = n.owner.user.devices;
    if let Some(i) = model::first_where(devices, admin_apps::device_has_app(id)) {
        let j = model::first_where(devices[i].applications, find::app_is(id)).unwrap();
        let m = admin_apps::with_alias_at(n, i, j, alias);
        let c = ChangeView::UpdateApplicationAlias {
            device_uuid: devices[i].uuid,
            app_id: id,
            new_alias: alias,
        };
        lemma_requested(m, c, target, true, now, retention);
    }
}

pub proof fn lemma_removal(n: NodeView, id: Uuid, target: WriterTarget, now: u64, retention: u64)
    ensures
        same_lists(n, admin_apps::removal(n, id, target, now, retention).node),
{
    let apps = app_edge::own_apps(n);
    if let Some(j) = model::first_where(apps, find::app_is(id)) {
        let m = app_edge::with_own_apps(n, apps.remove(j));
        let c = ChangeView::RemoveApplication { device_uuid: n.device_uuid, app_id: id };
        lemma_requested(m, c, target, true, now, retention);
    }
}

pub proof fn lemma_registered(
    n: NodeView,
    src: PeerAddr,
    g: app_edge::RegistrationView,
    w: app_edge::RegisterWith,
)
    ensures
        same_lists(n, app_edge::registered(n, src, g, w).0),
{
    let m = app_edge::with_own_apps(
        n,
        app_edge::own_apps(n).push(
            ApplicationView {
                id: w.fresh_id,
                alias: g.alias,
                protocol: g.protocol,
                host: g.host,
                user_approved: w.auto_approve,
                token: w.fresh_token,
            },
        ),
    );
    let c = ChangeView::AddApplication {
        device_uuid: n.device_uuid,
        app_id: w.fresh_id,
        app_alias: g.alias,
    };
    lemma_requested(m, c, w.target, true, w.now, w.retention);
}

pub proof fn lemma_updated(
    n: NodeView,
    src: PeerAddr,
    u: app_edge::UpdateView,
    target: WriterTarget,
    now: u64,
    retention: u64,
)
    ensures
        same_lists(n, app_edge::updated(n, src, u, target, now, retention).0),
{
    let apps = app_edge::own_apps(n);
    if let Some(i) = model::first_where(apps, find::app_has_token(u.token)) {
        let m = app_edge::with_own_apps(
            n,
            apps.update(i, app_edge::updated_app(apps[i], u, src)),
        );
        let j = model::first_where(app_edge::own_apps(m), find::app_is(apps[i].id)).unwrap();
        let c = ChangeView::UpdateApplicationAlias {
            device_uuid: n.device_uuid,
            app_id: apps[i].id,
            new_alias: app_edge::own_apps(m)[j].alias,
        };
        lemma_requested(m, c, target, true, now, retention);
    }
}

pub proof fn lemma_device_registered(
    n: NodeView,
    d: DeviceView,
    target: WriterTarget,
    now: u64,
    retention: u64,
)
    ensures
        same_lists(n, bootstrap::device_registered(n, d, target, now, retention).0),
{
    let m = NodeView { owner: n.owner.with_devices(n.owner.user.devices.push(d)), ..n };
    lemma_requested(m, bootstrap::device_change(d), target, true, now, retention);
}

pub proof fn lemma_contact_answered(
    n: NodeView,
    conn_id: u16,
    d: Seq<u8>,
    target: WriterTarget,
    now: u64,
    retention: u64,
)
    ensures
        same_lists(n, cross_user::contact_answered(n, conn_id, d, target, now, retention).0),
{
    if let (Some((Scope::Public, _, _, p)), Some(i)) = (
        sync::parse_pull_answer(d),
        cross_user::contact_behind(n, conn_id),
    ) {
        let contact = n.owner.contact_users[i].user.uuid;
        if let Some((_, devices)) = cross_user::parse_contact_data(d.subrange(p, d.len() as int)) {
            if let Some(c) = cross_user::refresh_change(n, contact, devices) {
                lemma_requested(n, c, target, false, now, retention);
            }
        }
    }
}

pub proof fn lemma_pull_taken(n: NodeView, d: Seq<u8>)
    ensures
        sync::pull_taken(n, d) matches Some(m) ==> same_lists(n, m),
{
}

proof fn lemma_app_action(n: NodeView, route: ui::Route, body: Seq<u8>, w: ui::UiWith)
    ensures
        same_lists(n, ui::app_action(n, route, body, w).node),
{
    if let Some(id) = admin_apps::named_app(body) {
        lemma_approval(n, id, w.target, w.now, w.retention);
        lemma_removal(n, id, w.target, w.now, w.retention);
        if let Some(alias) = admin_apps::named_alias(body) {
            lemma_renaming(n, id, alias, w.target, w.now, w.retention);
        }
    }
}

pub proof fn lemma_setup_done(
    n: NodeView,
    body: Seq<u8>,
    keys: KeyPair,
    hosts: Seq<Seq<char>>,
    hash: Seq<char>,
)
    ensures
        same_lists(n, setup::setup_done(n, body, keys, hosts, hash).node),
{
}

pub proof fn lemma_join_asked(
    n: NodeView,
    body: Seq<u8>,
    cache: Seq<routing::ResolvedHostView>,
    fresh: KeyPair,
    hash: Seq<char>,
)
    ensures
        same_lists(n, setup::join_asked(n, body, cache, fresh).0),
        same_lists(n, setup::join_set_up(n, body, cache, fresh, hash).node),
{
}

pub proof fn lemma_exchange_asked(
    n: NodeView,
    body: Seq<u8>,
    cache: Seq<routing::ResolvedHostView>,
    fresh: KeyPair,
    key: SecretKey,
)
    ensures
        same_lists(n, setup::exchange_asked(n, body, cache, fresh, key).0),
{
}

proof fn lemma_answered_on(n: NodeView, route: ui::Route, q: ui::UiRequestView, w: ui::UiWith)
    ensures
        same_lists(n, ui::answered_on(n, route, q, w).node),
{
    let cache = model::views(w.cache@);
    match route {
        ui::Route::Create => {
            lemma_setup_done(n, q.body, w.identity, hosts::hosts_in(w.pnet_hosts@), w.hash@);
        },
        ui::Route::Join => {
            lemma_join_asked(n, q.body, cache, w.fresh, w.hash@);
        },
        ui::Route::Approve | ui::Route::Reject | ui::Route::Delete | ui::Route::Rename => {
            lemma_app_action(n, route, q.body, w);
        },
        ui::Route::EnterInvitation => {
            lemma_join_asked(n, q.body, cache, w.fresh, w.hash@);
        },
        ui::Route::EnterContact => {
            lemma_exchange_asked(n, q.body, cache, w.fresh, w.exchange_key);
        },
        _ => {},
    }
}

pub proof fn lemma_answered(n: NodeView, q: ui::UiRequestView, w: ui::UiWith)
    ensures
        same_lists(n, ui::answered(n, q, w).node),
{
    lemma_answered_on(n, ui::route_of(q.method, q.path), q, w);
}

// Joining.

pub proof fn lemma_redeemed(list: Seq<Invitation>, id: Uuid, now: u64)
    requires
        distinct(list, invitation_key()),
    ensures
        distinct(bootstrap::redeemed(list, id, now).1, invitation_key()),
{
    model::lemma_first_where(list, bootstrap::invitation_is(id));
    if let Some(i) = model::first_where(list, bootstrap::invitation_is(id)) {
        lemma_remove(list, i, invitation_key());
    }
}

pub proof fn lemma_with_invitation(n: NodeView, kind: u8, inv: Invitation)
    requires
        keyed(n),
        unused(n, inv.id),
    ensures
        keyed(mint::with_invitation(n, kind, inv)),
{
    let p = bootstrap::invitation_is(inv.id);
    let a = n.owner.device_invitations;
    let b = n.owner.contact_invitations;
    assert forall|i: int| 0 <= i < a.len() implies invitation_key()(#[trigger] a[i])
        != invitation_key()(inv) by {
        assert(!p(a[i]));
    }
    assert forall|i: int| 0 <= i < b.len() implies invitation_key()(#[trigger] b[i])
        != invitation_key()(inv) by {
        assert(!p(b[i]));
    }
    lemma_push(a, inv, invitation_key());
    lemma_push(b, inv, invitation_key());
}

pub proof fn lemma_bootstrapped(n: NodeView, src: PeerAddr, id: Uuid, key: SecretKey, now: u64)
    requires
        keyed(n),
    ensures
        keyed(bootstrap::bootstrapped(n, src, id, key, now).0),
{
    let a = PendingDeviceAcceptance {
        invitation_id: id,
        shared_secret: key,
        expires_at: (now + bootstrap::PENDING_ACCEPTANCE_TTL) as u64,
    };
    lemma_put(
        n.owner.pending_device_acceptances,
        bootstrap::acceptance_is_not(id),
        a,
        acceptance_key(),
    );
}

pub proof fn lemma_acceptance_taken(s: Seq<PendingDeviceAcceptance>, id: Uuid, now: u64)
    requires
        distinct(s, acceptance_key()),
    ensures
        distinct(
            model::keep(
                model::keep(s, bootstrap::acceptable(now)),
                bootstrap::acceptance_is_not(id),
            ),
            acceptance_key(),
        ),
{
    lemma_keep(s, bootstrap::acceptable(now), acceptance_key());
    lemma_keep(
        model::keep(s, bootstrap::acceptable(now)),
        bootstrap::acceptance_is_not(id),
        acceptance_key(),
    );
}

// Servers of one user.

/// The marks of a log name each writer once.
proof fn lemma_marks(log: Seq<WriteLogEntryView>, scope: Scope)
    ensures
        distinct(watermark::marks_of(log, scope), writer_key()),
    decreases log.len(),
{
    if log.len() > 0 {
        let b = watermark::marks_of(log.drop_last(), scope);
        let w = log.last().version.writer_sg_uuid;
        lemma_marks(log.drop_last(), scope);
        lemma_set(b, watermark::mark_is(w), (w, log.last().version), writer_key());
        model::lemma_first_where(b, watermark::mark_is(w));
    }
}

spec fn writer_key() -> spec_fn((Uuid, SyncVersion)) -> Uuid {
    |m: (Uuid, SyncVersion)| m.0
}

proof fn lemma_peer_only(own: Seq<(Uuid, SyncVersion)>, peer: Seq<(Uuid, SyncVersion)>)
    ensures
        distinct(watermark::peer_only(own, peer), mark_key()),
        forall|i: int|
            0 <= i < watermark::peer_only(own, peer).len() ==> !model::any_where(
                own,
                watermark::mark_is((#[trigger] watermark::peer_only(own, peer)[i]).writer_sg_uuid),
            ),
    decreases peer.len(),
{
    if peer.len() > 0 {
        let before = watermark::peer_only(own, peer.drop_last());
        let w = peer.last().0;
        lemma_peer_only(own, peer.drop_last());
        if !model::any_where(before, watermark::version_by(w)) {
            assert forall|i: int| 0 <= i < before.len() implies mark_key()(#[trigger] before[i])
                != mark_key()(watermark::origin(w)) by {
                assert(!watermark::version_by(w)(before[i]));
            }
            lemma_push(before, watermark::origin(w), mark_key());
        }
    }
}

/// What two servers agree on names each writer once.
proof fn lemma_agreed(own: Seq<(Uuid, SyncVersion)>, peer: Seq<(Uuid, SyncVersion)>)
    requires
        distinct(own, writer_key()),
        watermark::keyed(own),
        watermark::keyed(peer),
    ensures
        distinct(watermark::agreed(own, peer), mark_key()),
{
    let all = watermark::agreed(own, peer);
    lemma_peer_only(own, peer);
    assert forall|i: int| 0 <= i < own.len() implies mark_key()(#[trigger] all[i]) == own[i].0 by {
        assert(all[i] == watermark::agreed_on(own[i], peer));
        model::lemma_first_where(peer, watermark::mark_is(own[i].0));
        if let Some(j) = model::first_where(peer, watermark::mark_is(own[i].0)) {
            assert(watermark::mark_is(own[i].0)(peer[j]));
        }
    }
    let rest = watermark::peer_only(own, peer);
    assert forall|i: int, j: int| 0 <= i < j < all.len() implies mark_key()(#[trigger] all[i])
        != mark_key()(#[trigger] all[j]) by {
        if j < own.len() {
            assert(writer_key()(own[i]) != writer_key()(own[j]));
        } else {
            assert(all[j] == rest[j - own.len()]);
            if i < own.len() {
                let w = rest[j - own.len()].writer_sg_uuid;
                assert(!watermark::mark_is(w)(own[i]));
            } else {
                assert(all[i] == rest[i - own.len()]);
            }
        }
    }
}

/// Marks that were read stand under the writers of their versions.
proof fn lemma_read_keyed(d: Seq<u8>, p: int, n: nat)
    ensures
        lists::parse_many(d, p, n, watermark::mark_parser()) matches Some((map, _))
            ==> watermark::keyed(map),
    decreases n,
{
    if n > 0 {
        lemma_read_keyed(d, p, (n - 1) as nat);
    }
}

pub proof fn lemma_probed(n: NodeView, conn_id: u16, d: Seq<u8>)
    requires
        keyed(n),
    ensures
        watermark::parse_marks(d) matches Some((scope, map)) ==> keyed(
            reconcile::probed(n, conn_id, scope, map).0,
        ),
{
    if let (Some((scope, map)), Some(conn)) = (
        watermark::parse_marks(d),
        sync::session(n, conn_id),
    ) {
        let q = wire::parse_scope(d, 0).unwrap().1;
        let (k, r) = wire::parse_u16(d, q).unwrap();
        lemma_read_keyed(d, r, k as nat);
        let own = watermark::marks_of(n.owner.write_log, scope);
        lemma_marks(n.owner.write_log, scope);
        watermark::lemma_marks_keyed(n.owner.write_log, scope);
        lemma_agreed(own, map);
        let marks = watermark::agreed(own, map);
        let list = n.owner.last_watermarks;
        let x = PeerWatermarksView { peer: conn.device_uuid, marks };
        lemma_set(list, watermark::marks_for(conn.device_uuid), x, marks_key());
        model::lemma_first_where(list, watermark::marks_for(conn.device_uuid));
        let after = watermark::with_marks(list, conn.device_uuid, marks);
        assert forall|i: int| 0 <= i < after.len() implies distinct(
            #[trigger] after[i].marks,
            mark_key(),
        ) by {
            if i < list.len() {
                assert(after[i] == x || after[i] == list[i]);
                assert(distinct(list[i].marks, mark_key()));
            }
        }
    }
}

/// Changes leave the lists alone that stand for maps.
proof fn lemma_applied_all(o: OwnerView, cs: Seq<ChangeView>)
    ensures
        ({
            let p = reconcile::applied_all(o, cs).1;
            p == OwnerView {
                user: UserView { devices: p.user.devices, ..o.user },
                contact_users: p.contact_users,
                ..o
            }
        }),
    decreases cs.len(),
{
    if cs.len() > 0 {
        lemma_applied_all(o, cs.drop_last());
        apply::law_apply_frame(reconcile::applied_all(o, cs.drop_last()).1, cs.last());
    }
}

pub proof fn lemma_proposed(
    n: NodeView,
    conn_id: u16,
    scope: Scope,
    entries: Seq<WriteLogEntryView>,
    now: u64,
    retention: u64,
)
    requires
        keyed(n),
    ensures
        keyed(reconcile::proposed(n, conn_id, scope, entries, now, retention).0),
{
    if let Some(conn) = sync::session(n, conn_id) {
        let peer = conn.device_uuid;
        let list = n.owner.received_merge_proposals;
        lemma_set(
            list,
            reconcile::proposal_of(peer),
            ReceivedProposalView { peer, entries },
            proposal_key(),
        );
        let local = model::keep(n.owner.write_log, reconcile::in_scope(scope));
        let o = OwnerView {
            received_merge_proposals: reconcile::with_proposal(list, peer, entries),
            write_log: sync::pruned(
                n.owner.write_log + merge::news(local, entries),
                now,
                retention,
            ),
            ..n.owner
        };
        lemma_applied_all(o, reconcile::merge_changes(n.owner, scope, entries));
    }
}

// Sessions.

pub proof fn lemma_connect_requested(
    n: NodeView,
    src: PeerAddr,
    q: sessions::ConnectRequest,
    fresh: KeyPair,
    now: u64,
    times: sessions::SessionTimes,
)
    requires
        keyed(n),
    ensures
        keyed(sessions::connect_requested(n, src, q, fresh, now, times).0),
{
    let conn = ActiveConnection {
        id: ids::next_id(ids::used_ids(n.owner)),
        timeout: (now + times.lifetime) as u64,
        key_pair: fresh,
        peer_public_key: q.ephemeral_pk,
        peer_active_connection_id: q.conn_id,
        device_uuid: q.device_uuid,
        peer_addr: src,
    };
    lemma_put(n.owner.active_connections, ids::stays_beside(conn, true), conn, conn_key());
}

pub proof fn lemma_connect_acked(
    n: NodeView,
    src: PeerAddr,
    q: sessions::ConnectAck,
    now: u64,
    times: sessions::SessionTimes,
)
    requires
        keyed(n),
    ensures
        keyed(sessions::connect_acked(n, src, q, now, times).0),
{
    if let Some(p) = sessions::awaited(n, q.our_conn_id) {
        let conn = ActiveConnection {
            id: q.our_conn_id,
            timeout: (now + times.lifetime) as u64,
            key_pair: p.our_key_pair,
            peer_public_key: q.ephemeral_pk,
            peer_active_connection_id: q.responder_conn_id,
            device_uuid: p.peer_device_uuid,
            peer_addr: src,
        };
        lemma_put(n.owner.active_connections, ids::stays_beside(conn, true), conn, conn_key());
        lemma_keep(
            n.owner.pending_connections,
            sessions::pending_has_not_id(q.our_conn_id),
            pending_key(),
        );
    }
}

pub proof fn lemma_with_status(
    list: Seq<SgHostStatusView>,
    u: Uuid,
    host: Seq<char>,
    rtt: Option<u64>,
    now: u64,
)
    requires
        distinct(list, status_key()),
    ensures
        distinct(sessions::with_status(list, u, host, rtt, now), status_key()),
{
    let s = SgHostStatusView {
        device_uuid: u,
        host,
        status: SgStatus { up: rtt is Some, last_rtt: rtt, last_polled: now },
    };
    lemma_set(list, sessions::status_at(u, host), s, status_key());
}

pub proof fn lemma_refreshed(conns: Seq<ActiveConnection>, id: u16, src: PeerAddr, timeout: u64)
    requires
        distinct(conns, conn_key()),
    ensures
        distinct(sessions::refreshed_conns(conns, id, src, timeout), conn_key()),
{
    model::lemma_first_where(conns, find::conn_has_id(id));
    if let Some(i) = model::first_where(conns, find::conn_has_id(id)) {
        lemma_update(
            conns,
            i,
            ActiveConnection { peer_addr: src, timeout, ..conns[i] },
            conn_key(),
        );
    }
}

pub proof fn lemma_left(conns: Seq<ActiveConnection>, p: spec_fn(ActiveConnection) -> bool)
    requires
        distinct(conns, conn_key()),
    ensures
        distinct(model::keep(conns, p), conn_key()),
{
    lemma_keep(conns, p, conn_key());
}

proof fn lemma_asked_for(n: NodeView, w: sessions::WantedPeer, fresh: KeyPair, now: u64)
    requires
        keyed(n),
        n.owner.active_connections.len() + n.owner.pending_connections.len() < 65536,
    ensures
        keyed(sessions::asked_for(n, w, fresh, now).0),
{
    let used = ids::used_ids(n.owner);
    let id = ids::next_id(used);
    ids::law_next_id_is_free(used);
    let pending = n.owner.pending_connections;
    let p = PendingConnection {
        our_conn_id: id,
        our_key_pair: fresh,
        peer_device_uuid: w.device_uuid,
        peer_longterm_pk: w.longterm_pk,
        created_at: now,
    };
    assert forall|i: int| 0 <= i < pending.len() implies pending_key()(#[trigger] pending[i])
        != pending_key()(p) by {
        assert(used[n.owner.active_connections.len() + i] == pending[i].our_conn_id);
    }
    lemma_push(pending, p, pending_key());
}

proof fn lemma_asked_all(
    n: NodeView,
    need: Seq<sessions::WantedPeer>,
    keys: Seq<KeyPair>,
    now: u64,
    threshold: u64,
)
    requires
        keyed(n),
        n.owner.active_connections.len() + n.owner.pending_connections.len() + keys.len() < 65536,
    ensures
        ({
            let (m, e) = sessions::asked_all(n, need, keys, now, threshold);
            &&& keyed(m)
            &&& e.len() <= keys.len()
            &&& m.owner.active_connections == n.owner.active_connections
            &&& m.owner.pending_connections.len() == n.owner.pending_connections.len() + e.len()
        }),
    decreases need.len(),
{
    if need.len() > 0 {
        lemma_asked_all(n, need.drop_last(), keys, now, threshold);
        let (m, e) = sessions::asked_all(n, need.drop_last(), keys, now, threshold);
        if e.len() < keys.len() {
            lemma_asked_for(m, need.last(), keys[e.len() as int], now);
        }
    }
}

pub proof fn lemma_maintained(
    n: NodeView,
    cache: Seq<routing::ResolvedHostView>,
    keys: Seq<KeyPair>,
    now: u64,
    times: sessions::SessionTimes,
)
    requires
        keyed(n),
        n.owner.active_connections.len() + n.owner.pending_connections.len() + keys.len() < 65536,
    ensures
        keyed(sessions::maintained(n, cache, keys, now, times).0),
{
    let p = sessions::still_waiting(now, times.pending_timeout);
    lemma_keep(n.owner.pending_connections, p, pending_key());
    if n.owner.pending_connections.len() > 0 {
        model::lemma_keep_contains(n.owner.pending_connections, p, n.owner.pending_connections[0]);
    }
    let c = sessions::without_stale(n, now, times.pending_timeout);
    lemma_asked_all(
        c,
        sessions::needed(c, cache, now, times),
        keys,
        now,
        times.renew_threshold,
    );
}

// Relays and tunnels.

pub proof fn lemma_relayed(
    n: NodeView,
    conn_id: u16,
    pt: Seq<u8>,
    now: u64,
    limits: relay::RelayLimits,
)
    requires
        keyed(n),
    ensures
        keyed(relay::relayed(n, conn_id, pt, now, limits).0),
{
    if let Some(a) = relay::device_on(n, conn_id) {
        let b = wire::uuid_of(pt.subrange(0, 16));
        let list = n.owner.tunnel_counters;
        let x = TunnelCounter { sender_uuid: a, dest_uuid: b, count: 0, window_start: now };
        lemma_set(list, relay::counts(a, b), x, counter_key());
        model::lemma_first_where(list, relay::counts(a, b));
        let (l, i) = match model::first_where(list, relay::counts(a, b)) {
            Some(i) => (list, i),
            None => (list.push(x), list.len() as int),
        };
        assert(distinct(l, counter_key()));
        lemma_update(
            l,
            i,
            TunnelCounter { count: 1, window_start: now, ..l[i] },
            counter_key(),
        );
        lemma_update(
            l,
            i,
            TunnelCounter { count: (l[i].count + 1) as u32, ..l[i] },
            counter_key(),
        );
        lemma_remove(l, i, counter_key());
    }
}

pub proof fn lemma_tunnel_begun(n: NodeView, sender: Uuid, dest: Uuid)
    requires
        keyed(n),
    ensures
        keyed(tunnels::tunnel_begun(n, sender, dest).0),
{
    let id = tunnels::next_tunnel_id(n.owner);
    let p = PendingTunnel {
        tunnel_id: id,
        sender_device_uuid: sender,
        dest_device_uuid: dest,
        sender_ephem_pk: None,
    };
    lemma_put(
        n.owner.pending_tunnels,
        tunnels::pending_tunnel_is_not(id),
        p,
        pending_tunnel_key(),
    );
}

pub proof fn lemma_tunnel_inited(n: NodeView, src: PeerAddr, d: Seq<u8>, fresh: KeyPair)
    requires
        keyed(n),
    ensures
        keyed(tunnels::tunnel_inited(n, src, d, fresh).0),
{
    let id = tunnels::tunnel_at(d, 0);
    let p = PendingTunnelConnection {
        tunnel_id: id,
        our_conn_id: ids::next_id(ids::used_ids(n.owner)),
        our_key_pair: fresh,
        dest_device_uuid: wire::uuid_of(d.subrange(2, 18)),
    };
    lemma_put(
        n.owner.pending_tunnel_connections,
        tunnels::started_is_not(id),
        p,
        started_key(),
    );
}

proof fn lemma_with_tunnel_session(
    n: NodeView,
    id: u16,
    conn_id: u16,
    keys: KeyPair,
    peer_pk: PublicKey,
    peer: Uuid,
    src: PeerAddr,
    timeout: u64,
)
    requires
        keyed(n),
    ensures
        keyed(tunnels::with_tunnel_session(n, id, conn_id, keys, peer_pk, peer, src, timeout)),
{
    let conn = ActiveConnection {
        id: conn_id,
        timeout,
        key_pair: keys,
        peer_public_key: peer_pk,
        peer_active_connection_id: 0,
        device_uuid: peer,
        peer_addr: src,
    };
    lemma_put(n.owner.active_connections, ids::stays_beside(conn, false), conn, conn_key());
    lemma_put(
        n.owner.dg_tunnel_map,
        tunnels::leg_is_not(id),
        TunnelLeg { tunnel_id: id, conn_id },
        leg_key(),
    );
}

pub proof fn lemma_tunnel_requested(
    n: NodeView,
    src: PeerAddr,
    d: Seq<u8>,
    fresh: KeyPair,
    timeout: u64,
)
    requires
        keyed(n),
    ensures
        keyed(tunnels::tunnel_requested(n, src, d, fresh, timeout).0),
{
    let id = tunnels::tunnel_at(d, 0);
    let pk = wire::key_of(d.subrange(2, 34));
    let list = n.owner.pending_tunnels;
    model::lemma_first_where(list, tunnels::pending_tunnel_is(id));
    match model::first_where(list, tunnels::pending_tunnel_is(id)) {
        Some(i) => {
            lemma_update(
                list,
                i,
                PendingTunnel { sender_ephem_pk: Some(pk), ..list[i] },
                pending_tunnel_key(),
            );
        },
        None => {
            lemma_with_tunnel_session(
                n,
                id,
                ids::next_id(ids::used_ids(n.owner)),
                fresh,
                pk,
                wire::uuid_of(d.subrange(34, 50)),
                src,
                timeout,
            );
        },
    }
}

pub proof fn lemma_tunnel_acked(
    n: NodeView,
    src: PeerAddr,
    d: Seq<u8>,
    now_ms: u64,
    timeout: u64,
)
    requires
        keyed(n),
    ensures
        keyed(tunnels::tunnel_acked(n, src, d, now_ms, timeout).0),
{
    let id = tunnels::tunnel_at(d, 0);
    let pk = wire::key_of(d.subrange(2, 34));
    match model::first_where(n.owner.pending_tunnels, tunnels::pending_tunnel_is(id)) {
        Some(i) => {
            let p = n.owner.pending_tunnels[i];
            lemma_keep(
                n.owner.pending_tunnels,
                tunnels::pending_tunnel_is_not(id),
                pending_tunnel_key(),
            );
            if let (Some(x), Some(y)) = (
                routing::session_with(n, p.sender_device_uuid),
                routing::session_with(n, p.dest_device_uuid),
            ) {
                let t = ActiveTunnel {
                    id,
                    connection_a_id: x.id,
                    connection_b_id: y.id,
                    last_used_at: now_ms,
                };
                lemma_put(n.owner.active_tunnels, tunnels::tunnel_is_not(id), t, tunnel_key());
            }
        },
        None => {
            let list = n.owner.pending_tunnel_connections;
            if let Some(k) = model::first_where(list, tunnels::started_is(id)) {
                let p = list[k];
                lemma_keep(list, tunnels::started_is_not(id), started_key());
                let m = NodeView {
                    owner: OwnerView {
                        pending_tunnel_connections: model::keep(list, tunnels::started_is_not(id)),
                        ..n.owner
                    },
                    ..n
                };
                lemma_with_tunnel_session(
                    m,
                    id,
                    p.our_conn_id,
                    p.our_key_pair,
                    pk,
                    p.dest_device_uuid,
                    src,
                    timeout,
                );
            }
        },
    }
}

pub proof fn lemma_forwarded(n: NodeView, d: Seq<u8>, now_ms: u64, max_blob: int)
    requires
        keyed(n),
    ensures
        keyed(tunnels::forwarded(n, d, now_ms, max_blob).0),
{
    let id = tunnels::tunnel_at(d, 2);
    let list = n.owner.active_tunnels;
    model::lemma_first_where(list, tunnels::tunnel_is(id));
    if let Some(i) = model::first_where(list, tunnels::tunnel_is(id)) {
        lemma_update(list, i, ActiveTunnel { last_used_at: now_ms, ..list[i] }, tunnel_key());
    }
}

pub proof fn lemma_tidied(n: NodeView, now_ms: u64, now: u64, window_ms: u64)
    requires
        keyed(n),
    ensures
        keyed(tunnels::tidied(n, now_ms, now, window_ms)),
{
    lemma_keep(n.owner.active_tunnels, tunnels::busy(now_ms), tunnel_key());
    lemma_keep(
        n.owner.pending_tunnels,
        tunnels::both_ends(n.owner.active_connections),
        pending_tunnel_key(),
    );
    lemma_keep(n.owner.tunnel_counters, tunnels::counting(now_ms, window_ms), counter_key());
    lemma_keep(n.owner.dg_tunnel_map, tunnels::live_leg(n, now), leg_key());
    lemma_keep(
        n.owner.pending_tunnel_connections,
        tunnels::no_dead_leg(n, now),
        started_key(),
    );
}

} // verus!
