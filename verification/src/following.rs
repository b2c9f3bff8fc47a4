//! How devices follow each other: what one sends is what the next one acts on,
//! from the notice of a change to the state that was changed.
use crate::apply;
use crate::bootstrap;
use crate::cards;
use crate::cross_user;
use crate::device_wire;
use crate::effects::EffectView;
use crate::election;
use crate::find;
use crate::model;
use crate::order;
use crate::outcomes;
use crate::public_state;
use crate::routing;
use crate::routing::WriterTarget;
use crate::sync;
use crate::types::{
    ActiveConnection, ApplicationView, ContactView, DeviceGrade, DeviceView, NodeView, Scope,
    SyncVersion, Uuid,
};
use crate::wire::{
    CROSS_USER_PULL_REQUEST_OP, CROSS_USER_PULL_RESPONSE_OP, SYNC_PULL_REQUEST_OP,
    SYNC_PULL_RESPONSE_OP,
};
use vstd::prelude::*;

verus! {

/// The session under an identifier: the first that has it.
pub open spec fn session_under(n: NodeView, id: u16, c: ActiveConnection) -> bool {
    exists|i: int|
        0 <= i < n.owner.active_connections.len() && #[trigger] n.owner.active_connections[i] == c
            && c.id == id && forall|j: int|
            0 <= j < i ==> (#[trigger] n.owner.active_connections[j]).id != id
}

pub proof fn lemma_session_under(n: NodeView, id: u16, c: ActiveConnection)
    requires
        session_under(n, id, c),
    ensures
        sync::session(n, id) == Some(c),
{
    let s = n.owner.active_connections;
    let i = choose|i: int|
        0 <= i < s.len() && #[trigger] s[i] == c && c.id == id && forall|j: int|
            0 <= j < i ==> (#[trigger] s[j]).id != id;
    let p = find::conn_has_id(id);
    assert(p(s[i]));
    assert forall|j: int| 0 <= j < i implies !p(#[trigger] s[j]) by {}
    model::lemma_first_at(s, p, i);
}

/// One of the user's devices with an identifier is a server.
pub open spec fn own_server(n: NodeView, u: Uuid) -> bool {
    exists|i: int| #[trigger]
        election::serves(n.owner.user.devices, i) && n.owner.user.devices[i].uuid == u
}

pub proof fn lemma_own_server(n: NodeView, u: Uuid)
    ensures
        sync::is_own_sg(n.owner, u) <==> own_server(n, u),
{
    let s = n.owner.user.devices;
    let p = sync::own_sg(u);
    if own_server(n, u) {
        let i = choose|i: int| #[trigger] election::serves(s, i) && s[i].uuid == u;
        assert(p(s[i]));
    }
    if model::any_where(s, p) {
        let i = choose|i: int| 0 <= i < s.len() && p(#[trigger] s[i]);
        assert(election::serves(s, i));
    }
}

/// `v` is news to someone who knows `known`: it is of another writer, or later
/// in the history of the same one.
pub open spec fn news_to(known: SyncVersion, v: SyncVersion) -> bool {
    v.writer_sg_uuid != known.writer_sg_uuid || v.epoch > known.epoch || v.epoch == known.epoch
        && v.seq > known.seq
}

/// The version that a node has of a scope.
pub open spec fn version_in(n: NodeView, scope: Scope) -> SyncVersion {
    match scope {
        Scope::Public => n.owner.public_version,
        Scope::Private => n.owner.private_version,
    }
}

/// One packet over one session, and nothing else.
pub open spec fn one_packet(e: Seq<EffectView>, c: ActiveConnection, op: u8, body: Seq<u8>) -> bool {
    e.len() == 1 && e[0] == (EffectView::Seal { conn: c, op, body })
}

/// The packet at a place among others.
pub open spec fn packet_at(
    e: Seq<EffectView>,
    k: int,
    c: ActiveConnection,
    op: u8,
    body: Seq<u8>,
) -> bool {
    0 <= k < e.len() && e[k] == (EffectView::Seal { conn: c, op, body })
}

/// A state has a device as another state has it, in public: under the same name,
/// with the same grade, rank and hosts, and with its applications, and, unless it
/// is this device, with no others.
pub open spec fn has_device_of(m: NodeView, d: DeviceView) -> bool {
    exists|i: int|
        0 <= i < m.owner.user.devices.len() && (#[trigger] m.owner.user.devices[i]).uuid == d.uuid
            && m.owner.user.devices[i].alias == d.alias && m.owner.user.devices[i].grade == d.grade
            && m.owner.user.devices[i].sg_rank == d.sg_rank && m.owner.user.devices[i].hosts
            == d.hosts && has_apps_of(
            m.owner.user.devices[i].applications,
            d.applications,
            d.uuid == m.device_uuid,
        )
}

/// Every application of a list is among others, under its name unless these are
/// this device's own; and there are no more, unless they are.
pub open spec fn has_apps_of(
    apps: Seq<ApplicationView>,
    told: Seq<ApplicationView>,
    own: bool,
) -> bool {
    &&& forall|k: int|
        0 <= k < told.len() && last_named(told, k) ==> public_state::app_there(
            apps,
            (#[trigger] told[k]).id,
            told[k].alias,
            !own,
        )
    &&& !own ==> forall|y: int|
        0 <= y < apps.len() ==> app_among(told, (#[trigger] apps[y]).id)
}

/// No later application of a list has the identifier of the `k`-th.
pub open spec fn last_named(apps: Seq<ApplicationView>, k: int) -> bool {
    forall|j: int| k < j < apps.len() ==> (#[trigger] apps[j]).id != apps[k].id
}

/// One of some applications has an identifier.
pub open spec fn app_among(apps: Seq<ApplicationView>, id: Uuid) -> bool {
    exists|k: int| 0 <= k < apps.len() && (#[trigger] apps[k]).id == id
}

/// A state has a contact as another state has it, in public.
pub open spec fn has_contact_of(m: NodeView, c: ContactView) -> bool {
    exists|i: int|
        0 <= i < m.owner.contact_users.len() && (#[trigger] m.owner.contact_users[i]).user.uuid
            == c.user.uuid && m.owner.contact_users[i].user.alias == c.user.alias
            && m.owner.contact_users[i].public_key == c.public_key && outcomes::described(
            m.owner.contact_users[i].user.devices,
            cards::device_cards(c.user.devices),
        )
}

/// The state `m` holds the public state of `n` for a scope.
pub open spec fn caught_up(m: NodeView, n: NodeView, scope: Scope) -> bool {
    &&& version_in(m, scope) == version_in(n, scope)
    &&& scope == Scope::Public ==> {
        &&& m.owner.user.alias == n.owner.user.alias
        &&& m.owner.user.uuid == n.owner.user.uuid
        &&& forall|k: int|
            0 <= k < n.owner.user.devices.len() && (forall|j: int|
                k < j < n.owner.user.devices.len() ==> (#[trigger] n.owner.user.devices[j]).uuid
                    != n.owner.user.devices[k].uuid) ==> has_device_of(
                m,
                #[trigger] n.owner.user.devices[k],
            )
        &&& forall|k: int|
            0 <= k < n.owner.contact_users.len() && (forall|j: int|
                k < j < n.owner.contact_users.len() ==> (
                #[trigger] n.owner.contact_users[j]).user.uuid
                    != n.owner.contact_users[k].user.uuid) ==> has_contact_of(
                m,
                #[trigger] n.owner.contact_users[k],
            )
    }
}

proof fn lemma_has_apps(apps: Seq<ApplicationView>, d: DeviceView, own: bool)
    requires
        public_state::apps_after(apps, cards::device_card(d), own),
    ensures
        has_apps_of(apps, d.applications, own),
{
    let c = cards::device_card(d);
    let told = d.applications;
    assert forall|k: int|
        0 <= k < told.len() && last_named(told, k) implies public_state::app_there(
        apps,
        (#[trigger] told[k]).id,
        told[k].alias,
        !own,
    ) by {
        assert forall|j: int| k < j < c.apps.len() implies (#[trigger] c.apps[j]).0
            != c.apps[k].0 by {
            assert(told[j].id != told[k].id);
        }
        public_state::law_pull_brings_apps(apps, c, own, k);
    }
    if !own {
        assert forall|y: int| 0 <= y < apps.len() implies app_among(
            told,
            (#[trigger] apps[y]).id,
        ) by {
            public_state::law_pull_brings_no_others(apps, c, y);
            let k = choose|k: int| 0 <= k < c.apps.len() && (#[trigger] c.apps[k]).0 == apps[y].id;
            assert(told[k].id == apps[y].id);
        }
    }
}

proof fn lemma_pull(a: NodeView, n: NodeView, scope: Scope)
    requires
        scope == Scope::Public ==> public_state::plain_state(public_state::public_part(n)),
        a.owner.version(scope) != n.owner.version(scope),
    ensures
        sync::pull_taken(
            a,
            sync::pull_answer(
                scope,
                n.owner.version(scope),
                a.owner.version(scope),
                sync::scope_state(n, scope),
            ),
        ) matches Some(m) && caught_up(m, n, scope),
{
    sync::law_pull_catches_up(a, n, scope);
    let cards = cards::device_cards(n.owner.user.devices);
    let devs = n.owner.user.devices;
    if scope == Scope::Public {
        let m = public_state::pulled(a, public_state::public_part(n));
        let after = NodeView {
            owner: m.owner.with_version(scope, n.owner.version(scope)),
            ..a
        };
        assert forall|k: int|
            0 <= k < devs.len() && (forall|j: int|
                k < j < devs.len() ==> (#[trigger] devs[j]).uuid != devs[k].uuid) implies has_device_of(
            after,
            #[trigger] devs[k],
        ) by {
            assert forall|j: int| k < j < cards.len() implies (#[trigger] cards[j]).uuid
                != cards[k].uuid by {
                assert(devs[j].uuid != devs[k].uuid);
            }
            public_state::law_pull_brings_device(a.owner.user.devices, cards, a.device_uuid, k);
            let r = public_state::merge_devices(a.owner.user.devices, cards, a.device_uuid);
            model::lemma_first_where(r, find::device_is(cards[k].uuid));
            let i = model::first_where(r, find::device_is(cards[k].uuid))->0;
            assert(find::device_is(cards[k].uuid)(r[i]));
            assert(after.owner.user.devices[i].uuid == devs[k].uuid);
            lemma_has_apps(r[i].applications, devs[k], devs[k].uuid == a.device_uuid);
        }
        let cs = n.owner.contact_users;
        let told = public_state::contact_cards(cs);
        assert forall|k: int|
            0 <= k < cs.len() && (forall|j: int|
                k < j < cs.len() ==> (#[trigger] cs[j]).user.uuid
                    != cs[k].user.uuid) implies has_contact_of(after, #[trigger] cs[k]) by {
            assert forall|j: int| k < j < told.len() implies (#[trigger] told[j]).uuid
                != told[k].uuid by {
                assert(cs[j].user.uuid != cs[k].user.uuid);
            }
            public_state::law_pull_brings_contact(a.owner.contact_users, told, k);
            let r = public_state::merge_contacts(a.owner.contact_users, told);
            let p = find::contact_is(told[k].uuid);
            model::lemma_first_where(r, p);
            let i = model::first_where(r, p)->0;
            assert(p(r[i]));
            assert(after.owner.contact_users[i].user.uuid == cs[k].user.uuid);
        }
    }
}

/// A notice leads to catching up. Whoever is told of a version that is news to it
/// asks for the state over the session the notice came from, unless both ends are
/// servers of the user. The node that gets exactly this request answers over its
/// own session, and whoever takes over exactly this answer holds the public state
/// of that node, at the version that was announced.
pub proof fn law_notice_leads_to_the_state(
    a: NodeView,
    n: NodeView,
    scope: Scope,
    notice: Seq<u8>,
    ca: ActiveConnection,
    cn: ActiveConnection,
)
    requires
        notice == sync::scope_and_version(scope, version_in(n, scope)),
        session_under(a, ca.id, ca),
        session_under(n, cn.id, cn),
        news_to(version_in(a, scope), version_in(n, scope)),
        a.owner.device_index(a.device_uuid) matches Some(i)
            ==> a.owner.user.devices[i].grade == DeviceGrade::DG || !own_server(a, ca.device_uuid),
        scope == Scope::Public ==> public_state::plain_state(public_state::public_part(n)),
    ensures
        exists|ask: Seq<u8>, answer: Seq<u8>, m: NodeView| #[trigger]
            one_packet(sync::notice_followed(a, ca.id, notice), ca, SYNC_PULL_REQUEST_OP, ask)
                && #[trigger] one_packet(
                sync::pull_replied(n, cn.id, ask),
                cn,
                SYNC_PULL_RESPONSE_OP,
                answer,
            ) && sync::pull_taken(a, answer) == Some(m) && #[trigger] caught_up(m, n, scope)
                && sync::parse_scope_version(ask) == Some((scope, version_in(a, scope))),
{
    let known = version_in(a, scope);
    let v = version_in(n, scope);
    lemma_session_under(a, ca.id, ca);
    lemma_session_under(n, cn.id, cn);
    lemma_own_server(a, ca.device_uuid);
    sync::law_scope_version_roundtrip(scope, v);
    sync::law_scope_version_roundtrip(scope, known);
    let ask = sync::scope_and_version(scope, known);
    let answer = sync::pull_answer(scope, v, known, sync::scope_state(n, scope));
    lemma_pull(a, n, scope);
    let m = sync::pull_taken(a, answer)->0;
    assert(one_packet(sync::notice_followed(a, ca.id, notice), ca, SYNC_PULL_REQUEST_OP, ask));
    assert(one_packet(sync::pull_replied(n, cn.id, ask), cn, SYNC_PULL_RESPONSE_OP, answer));
    assert(caught_up(m, n, scope));
}

/// A notice of what is known, or between two servers of the user, leads to
/// nothing.
pub proof fn law_idle_notice(
    a: NodeView,
    scope: Scope,
    v: SyncVersion,
    ca: ActiveConnection,
    i: int,
)
    requires
        session_under(a, ca.id, ca),
        !news_to(version_in(a, scope), v) || a.owner.device_index(a.device_uuid) == Some(i)
            && a.owner.user.devices[i].grade == DeviceGrade::SG && own_server(a, ca.device_uuid),
    ensures
        sync::notice_followed(a, ca.id, sync::scope_and_version(scope, v)).len() == 0,
{
    lemma_session_under(a, ca.id, ca);
    lemma_own_server(a, ca.device_uuid);
    sync::law_scope_version_roundtrip(scope, v);
}

/// A node that pulls of its own accord asks the first server by rank that it can
/// reach for both scopes, each from the version it has; taking over the answers
/// it holds what that server holds.
pub proof fn law_pull_leads_to_the_state(
    a: NodeView,
    n: NodeView,
    i: int,
    scope: Scope,
    cn: ActiveConnection,
)
    requires
        election::first_by_rank(a.owner.user.devices, election::may_tell(a), i),
        a.owner.user.devices[i].uuid != a.device_uuid,
        session_under(n, cn.id, cn),
        version_in(a, scope) != version_in(n, scope),
        scope == Scope::Public ==> public_state::plain_state(public_state::public_part(n)),
    ensures
        sync::pulls(a).len() == 2,
        exists|k: int, c: ActiveConnection, ask: Seq<u8>, answer: Seq<u8>, m: NodeView|
            #[trigger] packet_at(sync::pulls(a), k, c, SYNC_PULL_REQUEST_OP, ask) && c.device_uuid == a.owner.user.devices[i].uuid && #[trigger] one_packet(
                sync::pull_replied(n, cn.id, ask),
                cn,
                SYNC_PULL_RESPONSE_OP,
                answer,
            ) && sync::pull_taken(a, answer) == Some(m) && #[trigger] caught_up(m, n, scope),
{
    let u = a.owner.user.devices[i].uuid;
    election::law_pull_source_by_rank(a, i);
    election::lemma_connected(a, u);
    let c = routing::session_with(a, u)->0;
    lemma_session_under(n, cn.id, cn);
    let known = version_in(a, scope);
    sync::law_scope_version_roundtrip(scope, known);
    let ask = sync::scope_and_version(scope, known);
    let answer = sync::pull_answer(
        scope,
        version_in(n, scope),
        known,
        sync::scope_state(n, scope),
    );
    lemma_pull(a, n, scope);
    let m = sync::pull_taken(a, answer)->0;
    let k: int = if scope == Scope::Public {
        0
    } else {
        1
    };
    assert(packet_at(sync::pulls(a), k, c, SYNC_PULL_REQUEST_OP, ask));
    assert(one_packet(sync::pull_replied(n, cn.id, ask), cn, SYNC_PULL_RESPONSE_OP, answer));
    assert(caught_up(m, n, scope));
}

/// A device shows an application with a name.
pub open spec fn shows(d: DeviceView, id: Uuid, alias: Seq<char>) -> bool {
    exists|j: int|
        0 <= j < d.applications.len() && (#[trigger] d.applications[j]).id == id
            && d.applications[j].alias == alias
}

/// A device has an approved application with a name.
pub open spec fn offers(d: DeviceView, id: Uuid, alias: Seq<char>) -> bool {
    exists|j: int|
        0 <= j < d.applications.len() && (#[trigger] d.applications[j]).user_approved
            && d.applications[j].id == id && d.applications[j].alias == alias
}

/// What is known of a device is what its user lets others know: all of it, with
/// the approved applications and no others.
pub open spec fn known_as(known: DeviceView, d: DeviceView) -> bool {
    &&& known.uuid == d.uuid
    &&& known.alias == d.alias
    &&& known.grade == d.grade
    &&& known.sg_rank == d.sg_rank
    &&& known.hosts == d.hosts
    &&& forall|id: Uuid, alias: Seq<char>| #[trigger]
        shows(known, id, alias) <==> offers(d, id, alias)
}

/// Of a user's devices each is known, and nothing else is.
pub open spec fn all_known(known: Seq<DeviceView>, devices: Seq<DeviceView>) -> bool {
    &&& known.len() == devices.len()
    &&& forall|k: int|
        0 <= k < devices.len() ==> exists|i: int|
            0 <= i < known.len() && known_as(#[trigger] known[i], #[trigger] devices[k])
    &&& forall|i: int|
        0 <= i < known.len() ==> exists|k: int|
            0 <= k < devices.len() && known_as(#[trigger] known[i], #[trigger] devices[k])
}

proof fn lemma_approved(d: DeviceView, id: Uuid, alias: Seq<char>)
    ensures
        cross_user::approved(d).contains((id, alias)) <==> offers(d, id, alias),
{
    let p = cross_user::is_approved();
    let kept = model::keep(d.applications, p);
    let told = cross_user::approved(d);
    if told.contains((id, alias)) {
        let k = choose|k: int| 0 <= k < told.len() && told[k] == (id, alias);
        cross_user::law_only_approved_told(d, k);
    }
    if offers(d, id, alias) {
        let j = choose|j: int|
            0 <= j < d.applications.len() && (#[trigger] d.applications[j]).user_approved
                && d.applications[j].id == id && d.applications[j].alias == alias;
        let x = d.applications[j];
        assert(d.applications.contains(x));
        model::lemma_keep_contains(d.applications, p, x);
        let k = choose|k: int| 0 <= k < kept.len() && kept[k] == x;
        assert(told[k] == (id, alias));
    }
}

proof fn lemma_same_elements<T>(a: Seq<T>, b: Seq<T>, x: T)
    requires
        a.to_multiset() == b.to_multiset(),
    ensures
        a.contains(x) <==> b.contains(x),
        a.len() == b.len(),
{
    broadcast use vstd::seq_lib::group_to_multiset_ensures;

    vstd::seq_lib::to_multiset_len(a);
    vstd::seq_lib::to_multiset_len(b);
    assert(a.contains(x) <==> a.to_multiset().count(x) > 0);
    assert(b.contains(x) <==> b.to_multiset().count(x) > 0);
}

/// A device that has the same normal card as another one with its approved
/// applications is known as it.
proof fn lemma_known_as(x: DeviceView, d: DeviceView)
    requires
        cards::normal_card(cards::device_card(x)) == cards::normal_card(
            cross_user::approved_card(d),
        ),
    ensures
        known_as(x, d),
{
    let a = cards::device_card(x).apps;
    let b = cross_user::approved(d);
    order::lemma_sorted(a, cards::pair_key());
    order::lemma_sorted(b, cards::pair_key());
    assert forall|id: Uuid, alias: Seq<char>| #[trigger]
        shows(x, id, alias) <==> offers(d, id, alias) by {
        lemma_same_elements(a, b, (id, alias));
        lemma_approved(d, id, alias);
        if shows(x, id, alias) {
            let j = choose|j: int|
                0 <= j < x.applications.len() && (#[trigger] x.applications[j]).id == id
                    && x.applications[j].alias == alias;
            assert(a[j] == (id, alias));
        }
        if a.contains((id, alias)) {
            let j = choose|j: int| 0 <= j < a.len() && a[j] == (id, alias);
            assert(x.applications[j].id == id && x.applications[j].alias == alias);
        }
    }
}

proof fn lemma_all_known(known: Seq<DeviceView>, devices: Seq<DeviceView>)
    requires
        cards::cards_of(known) == cards::normal_cards(cross_user::approved_cards(devices)),
    ensures
        all_known(known, devices),
{
    let told = cross_user::approved_cards(devices);
    let mine = cards::device_cards(known);
    let a = Seq::new(mine.len(), |i: int| cards::normal_card(mine[i]));
    let b = Seq::new(told.len(), |i: int| cards::normal_card(told[i]));
    order::lemma_sorted(a, cards::card_key());
    order::lemma_sorted(b, cards::card_key());
    if a.len() > 0 {
        lemma_same_elements(a, b, a[0]);
    } else if b.len() > 0 {
        lemma_same_elements(a, b, b[0]);
    }
    assert forall|k: int| 0 <= k < devices.len() implies exists|i: int|
        0 <= i < known.len() && known_as(#[trigger] known[i], #[trigger] devices[k]) by {
        lemma_same_elements(a, b, b[k]);
        assert(b.contains(b[k]));
        let i = choose|i: int| 0 <= i < a.len() && a[i] == b[k];
        lemma_known_as(known[i], devices[k]);
    }
    assert forall|i: int| 0 <= i < known.len() implies exists|k: int|
        0 <= k < devices.len() && known_as(#[trigger] known[i], #[trigger] devices[k]) by {
        lemma_same_elements(a, b, a[i]);
        assert(a.contains(a[i]));
        let k = choose|k: int| 0 <= k < b.len() && b[k] == a[i];
        lemma_known_as(known[i], devices[k]);
    }
}

/// One of the devices of a contact has an identifier.
pub open spec fn belongs(c: ContactView, u: Uuid) -> bool {
    exists|j: int|
        0 <= j < c.user.devices.len() && (#[trigger] c.user.devices[j]).uuid == u
}

/// The `i`-th contact is the one whose device is at the other end of a session:
/// the first to which it belongs.
pub open spec fn contact_over(n: NodeView, c: ActiveConnection, i: int) -> bool {
    &&& 0 <= i < n.owner.contact_users.len()
    &&& belongs(n.owner.contact_users[i], c.device_uuid)
    &&& forall|j: int| 0 <= j < i ==> !belongs(#[trigger] n.owner.contact_users[j], c.device_uuid)
}

pub proof fn lemma_belongs(c: ContactView, u: Uuid)
    ensures
        belongs(c, u) <==> find::contact_has_device(u)(c),
{
    let s = c.user.devices;
    let p = find::device_is(u);
    if belongs(c, u) {
        let j = choose|j: int| 0 <= j < s.len() && (#[trigger] s[j]).uuid == u;
        assert(p(s[j]));
    }
    if model::any_where(s, p) {
        let j = choose|j: int| 0 <= j < s.len() && p(#[trigger] s[j]);
        assert(s[j].uuid == u);
    }
}

pub proof fn lemma_contact_over(n: NodeView, c: ActiveConnection, i: int)
    requires
        session_under(n, c.id, c),
        contact_over(n, c, i),
    ensures
        cross_user::contact_behind(n, c.id) == Some(i),
{
    lemma_session_under(n, c.id, c);
    let s = n.owner.contact_users;
    let p = find::contact_has_device(c.device_uuid);
    lemma_belongs(s[i], c.device_uuid);
    assert forall|j: int| 0 <= j < i implies !p(#[trigger] s[j]) by {
        lemma_belongs(s[j], c.device_uuid);
    }
    model::lemma_first_at(s, p, i);
}

/// What `m` holds of a contact is the public state of that contact's node.
pub open spec fn contact_caught_up(m: NodeView, n: NodeView, i: int) -> bool {
    &&& 0 <= i < m.owner.contact_users.len()
    &&& m.owner.contact_users[i].user.uuid == n.owner.user.uuid
    &&& m.owner.contact_users[i].last_seen_public_version == n.owner.public_version
    &&& all_known(m.owner.contact_users[i].user.devices, n.owner.user.devices)
}

/// A contact's notice leads to catching up. A writer that is told of a version
/// that is news to it asks over the session the notice came from, from the version
/// of that contact that it has seen. The contact's node that gets exactly this
/// request answers over its own session, and the writer that takes over exactly
/// this answer knows the contact's devices, with the approved applications and no
/// others, at the version that was announced; its name and key stay.
pub proof fn law_contact_notice_leads_to_the_state(
    a: NodeView,
    n: NodeView,
    i: int,
    notice: Seq<u8>,
    ca: ActiveConnection,
    cn: ActiveConnection,
    now: u64,
    retention: u64,
)
    requires
        a.owner.public_version.room(2),
        notice == sync::scope_and_version(Scope::Public, n.owner.public_version),
        session_under(a, ca.id, ca),
        session_under(n, cn.id, cn),
        contact_over(a, ca, i),
        outcomes::contact_at(a.owner, n.owner.user.uuid, i),
        news_to(a.owner.contact_users[i].last_seen_public_version, n.owner.public_version),
        n.owner.user.devices.len() <= 255,
        forall|k: int|
            0 <= k < n.owner.user.devices.len() ==> device_wire::plain_card(
                cross_user::approved_card(#[trigger] n.owner.user.devices[k]),
            ),
    ensures
        exists|ask: Seq<u8>, answer: Seq<u8>, m: NodeView| #[trigger]
            one_packet(
                cross_user::contact_notice_followed(a, ca.id, notice),
                ca,
                CROSS_USER_PULL_REQUEST_OP,
                ask,
            ) && #[trigger] one_packet(
                cross_user::contact_replied(n, cn.id, ask),
                cn,
                CROSS_USER_PULL_RESPONSE_OP,
                answer,
            ) && cross_user::contact_answered(
                a,
                ca.id,
                answer,
                WriterTarget::Local,
                now,
                retention,
            ).0 == m && #[trigger] contact_caught_up(m, n, i) && m.owner.contact_users[i].public_key
                == a.owner.contact_users[i].public_key && m.owner.contact_users[i].user.alias
                == a.owner.contact_users[i].user.alias && sync::parse_scope_version(ask) == Some(
                (Scope::Public, a.owner.contact_users[i].last_seen_public_version),
            ),
{
    let u = n.owner.user.uuid;
    let v = n.owner.public_version;
    let seen = a.owner.contact_users[i].last_seen_public_version;
    let told = cross_user::approved_cards(n.owner.user.devices);
    lemma_contact_over(a, ca, i);
    lemma_session_under(a, ca.id, ca);
    lemma_session_under(n, cn.id, cn);
    outcomes::lemma_contact_at(a.owner, u, i);
    sync::law_scope_version_roundtrip(Scope::Public, v);
    sync::law_scope_version_roundtrip(Scope::Public, seen);
    let ask = sync::scope_and_version(Scope::Public, seen);
    let state = cross_user::enc_contact_data(u, told);
    let answer = sync::pull_answer(Scope::Public, v, seen, state);
    assert(one_packet(
        cross_user::contact_notice_followed(a, ca.id, notice),
        ca,
        CROSS_USER_PULL_REQUEST_OP,
        ask,
    ));
    assert(one_packet(
        cross_user::contact_replied(n, cn.id, ask),
        cn,
        CROSS_USER_PULL_RESPONSE_OP,
        answer,
    ));
    assert forall|k: int| 0 <= k < told.len() implies device_wire::plain_card(#[trigger] told[k]) by {
        assert(told[k] == cross_user::approved_card(n.owner.user.devices[k]));
    }
    cross_user::law_contact_catches_up(a, n, ca.id, i, now, retention);
    cross_user::law_contact_data_roundtrip(u, told);
    sync::lemma_pull_answer_read(Scope::Public, v, seen, state);
    sync::lemma_pull_answer_state(Scope::Public, v, seen, state);
    let m = cross_user::contact_answered(
        a,
        ca.id,
        answer,
        WriterTarget::Local,
        now,
        retention,
    ).0;
    let alias = a.owner.contact_users[i].user.alias;
    let key = a.owner.contact_users[i].public_key;
    outcomes::law_contact_is_described(a.owner, u, i, alias, key, told);
    let c = cross_user::refresh_change(a, u, told)->0;
    let w = sync::requested(a, c, WriterTarget::Local, false, now, retention).1;
    let p = apply::applied(a.owner, c)->0;
    assert(w.owner.contact_users == p.1.contact_users);
    assert(outcomes::contact_at(w.owner, u, i)) by {
        assert forall|j: int| 0 <= j < i implies (#[trigger] w.owner.contact_users[j]).user.uuid
            != u by {
            assert(p.1.contact_users[j] == a.owner.contact_users[j]);
        }
    }
    outcomes::lemma_contact_at(w.owner, u, i);
    assert(m == cross_user::pinned(w, u, v));
    lemma_all_known(m.owner.contact_users[i].user.devices, n.owner.user.devices);
    assert(contact_caught_up(m, n, i));
}

/// A notice of a contact that says nothing new, and one from somebody who is no
/// contact, lead to nothing.
pub proof fn law_idle_contact_notice(a: NodeView, v: SyncVersion, ca: ActiveConnection)
    requires
        session_under(a, ca.id, ca),
        forall|i: int|
            contact_over(a, ca, i) ==> !news_to(
                (#[trigger] a.owner.contact_users[i]).last_seen_public_version,
                v,
            ),
    ensures
        cross_user::contact_notice_followed(
            a,
            ca.id,
            sync::scope_and_version(Scope::Public, v),
        ).len() == 0,
{
    lemma_session_under(a, ca.id, ca);
    sync::law_scope_version_roundtrip(Scope::Public, v);
    let s = a.owner.contact_users;
    let p = find::contact_has_device(ca.device_uuid);
    model::lemma_first_where(s, p);
    match model::first_where(s, p) {
        Some(i) => {
            assert(p(s[i]));
            lemma_belongs(s[i], ca.device_uuid);
            assert forall|j: int| 0 <= j < i implies !belongs(#[trigger] s[j], ca.device_uuid) by {
                lemma_belongs(s[j], ca.device_uuid);
                assert(!p(s[j]));
            }
            assert(contact_over(a, ca, i));
            assert(!news_to(s[i].last_seen_public_version, v));
        },
        None => {},
    }
}

proof fn lemma_pulled_over(
    n: NodeView,
    conns: Seq<ActiveConnection>,
    devices: Seq<DeviceView>,
    k: int,
    i: int,
)
    requires
        0 <= k < conns.len(),
        session_under(n, conns[k].id, conns[k]),
        contact_over(n, conns[k], i),
        exists|j: int|
            0 <= j < devices.len() && (#[trigger] devices[j]).uuid == conns[k].device_uuid,
    ensures
        exists|l: int, body: Seq<u8>| #[trigger]
            packet_at(
                cross_user::pulls_over(n, conns, devices),
                l,
                conns[k],
                CROSS_USER_PULL_REQUEST_OP,
                body,
            ) && sync::parse_scope_version(body) == Some(
                (Scope::Public, n.owner.contact_users[i].last_seen_public_version),
            ),
    decreases conns.len(),
{
    let c = conns[k];
    let all = cross_user::pulls_over(n, conns, devices);
    let rest = cross_user::pulls_over(n, conns.drop_last(), devices);
    let op = CROSS_USER_PULL_REQUEST_OP;
    let seen = n.owner.contact_users[i].last_seen_public_version;
    if k == conns.len() - 1 {
        lemma_session_under(n, c.id, c);
        lemma_contact_over(n, c, i);
        sync::law_scope_version_roundtrip(Scope::Public, seen);
        let j = choose|j: int|
            0 <= j < devices.len() && (#[trigger] devices[j]).uuid == c.device_uuid;
        assert(find::device_is(c.device_uuid)(devices[j]));
        let body = sync::scope_and_version(Scope::Public, seen);
        assert(packet_at(all, rest.len() as int, c, op, body));
    } else {
        assert(conns.drop_last()[k] == c);
        lemma_pulled_over(n, conns.drop_last(), devices, k, i);
        let (l, body) = choose|l: int, body: Seq<u8>| #[trigger]
            packet_at(rest, l, c, op, body) && sync::parse_scope_version(body) == Some(
                (Scope::Public, seen),
            );
        assert(packet_at(all, l, c, op, body));
    }
}

/// A contact is asked for its public state over every session with one of its
/// devices, from the version of it that was seen last.
pub proof fn law_contact_is_asked_over_every_session(
    n: NodeView,
    u: Uuid,
    i: int,
    c: ActiveConnection,
)
    requires
        outcomes::contact_at(n.owner, u, i),
        session_under(n, c.id, c),
        contact_over(n, c, i),
    ensures
        exists|l: int, body: Seq<u8>| #[trigger]
            packet_at(
                bootstrap::contact_pulls(n, u),
                l,
                c,
                CROSS_USER_PULL_REQUEST_OP,
                body,
            ) && sync::parse_scope_version(body) == Some(
                (Scope::Public, n.owner.contact_users[i].last_seen_public_version),
            ),
{
    outcomes::lemma_contact_at(n.owner, u, i);
    let s = n.owner.active_connections;
    let k = choose|k: int|
        0 <= k < s.len() && #[trigger] s[k] == c && c.id == c.id && forall|j: int|
            0 <= j < k ==> (#[trigger] s[j]).id != c.id;
    let devices = n.owner.contact_users[i].user.devices;
    lemma_pulled_over(n, s, devices, k, i);
    let all = cross_user::pulls_over(n, s, devices);
    assert(bootstrap::contact_pulls(n, u) == all);
    let (l, body) = choose|l: int, body: Seq<u8>| #[trigger]
        packet_at(all, l, c, CROSS_USER_PULL_REQUEST_OP, body) && sync::parse_scope_version(body)
            == Some((Scope::Public, n.owner.contact_users[i].last_seen_public_version));
    assert(packet_at(bootstrap::contact_pulls(n, u), l, c, CROSS_USER_PULL_REQUEST_OP, body));
}

} // verus!
