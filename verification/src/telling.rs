//! Who hears of a change: the writer, the one who asked for it, the user's other
//! devices and the contacts.
use crate::apply;
use crate::change;
use crate::change::ChangeView;
use crate::effects::EffectView;
use crate::election;
use crate::following;
use crate::model;
use crate::outcomes;
use crate::passage;
use crate::routing;
use crate::routing::WriterTarget;
use crate::sync;
use crate::types::{
    ActiveConnection, ContactView, DeviceView, NodeView, Scope, SyncVersion, Uuid,
};
use crate::wire::{
    CROSS_USER_UPDATE_AVAILABLE_OP, SYNC_UPDATE_AVAILABLE_OP, SYNC_WRITE_ACK_OP,
    SYNC_WRITE_REQUEST_OP, WRITE_ACK_NOT_WRITER, WRITE_ACK_OK, WRITE_ACK_VALIDATION_ERROR,
};
use vstd::prelude::*;

verus! {

/// A body is read as a scope and a version.
pub open spec fn names_version(body: Seq<u8>, scope: Scope, v: SyncVersion) -> bool {
    sync::parse_scope_version(body) == Some((scope, v))
}

/// Among the effects is the notice of a version over a session.
pub open spec fn told(
    e: Seq<EffectView>,
    c: ActiveConnection,
    op: u8,
    scope: Scope,
    v: SyncVersion,
) -> bool {
    exists|k: int, body: Seq<u8>| #[trigger]
        following::packet_at(e, k, c, op, body) && names_version(body, scope, v)
}

/// The user has a device with an identifier, other than this one.
pub open spec fn own_other(n: NodeView, u: Uuid) -> bool {
    u != n.device_uuid && exists|i: int|
        0 <= i < n.owner.user.devices.len() && (#[trigger] n.owner.user.devices[i]).uuid == u
}

/// A contact has a server with an identifier.
pub open spec fn contact_server(n: NodeView, u: Uuid) -> bool {
    exists|i: int, j: int|
        0 <= i < n.owner.contact_users.len() && #[trigger] election::serves(
            (#[trigger] n.owner.contact_users[i]).user.devices,
            j,
        ) && n.owner.contact_users[i].user.devices[j].uuid == u
}

/// An effect saves the state, or is a notice to one of the user's devices other
/// than this one, or to a server of a contact.
pub open spec fn rightly_told(n: NodeView, e: EffectView, v: SyncVersion) -> bool {
    match e {
        EffectView::Seal { conn, op, body } => names_version(body, Scope::Public, v) && (op
            == SYNC_UPDATE_AVAILABLE_OP && own_other(n, conn.device_uuid) || op
            == CROSS_USER_UPDATE_AVAILABLE_OP && contact_server(n, conn.device_uuid)),
        EffectView::Save => true,
        _ => false,
    }
}

/// There is a session with the server of a contact.
pub open spec fn in_reach(n: NodeView) -> spec_fn(DeviceView) -> bool {
    |d: DeviceView| election::connected(n, d.uuid)
}

proof fn lemma_device_told(
    n: NodeView,
    devices: Seq<DeviceView>,
    scope: Scope,
    v: SyncVersion,
    i: int,
    c: ActiveConnection,
)
    requires
        0 <= i < devices.len(),
        devices[i].uuid != n.device_uuid,
        routing::session_with(n, devices[i].uuid) == Some(c),
    ensures
        told(sync::device_notices(n, devices, scope, v), c, SYNC_UPDATE_AVAILABLE_OP, scope, v),
    decreases devices.len(),
{
    let e = sync::device_notices(n, devices, scope, v);
    let rest = sync::device_notices(n, devices.drop_last(), scope, v);
    let body = sync::scope_and_version(scope, v);
    sync::law_scope_version_roundtrip(scope, v);
    if i == devices.len() - 1 {
        assert(following::packet_at(e, rest.len() as int, c, SYNC_UPDATE_AVAILABLE_OP, body));
    } else {
        lemma_device_told(n, devices.drop_last(), scope, v, i, c);
        let (k, b) = choose|k: int, b: Seq<u8>| #[trigger]
            following::packet_at(rest, k, c, SYNC_UPDATE_AVAILABLE_OP, b) && names_version(
                b,
                scope,
                v,
            );
        assert(following::packet_at(e, k, c, SYNC_UPDATE_AVAILABLE_OP, b));
    }
}

proof fn lemma_devices_rightly_told(
    n: NodeView,
    devices: Seq<DeviceView>,
    v: SyncVersion,
    k: int,
)
    requires
        0 <= k < sync::device_notices(n, devices, Scope::Public, v).len(),
        forall|i: int|
            0 <= i < devices.len() ==> n.owner.user.devices.contains(#[trigger] devices[i]),
    ensures
        rightly_told(n, sync::device_notices(n, devices, Scope::Public, v)[k], v),
    decreases devices.len(),
{
    let e = sync::device_notices(n, devices, Scope::Public, v);
    let rest = sync::device_notices(n, devices.drop_last(), Scope::Public, v);
    sync::law_scope_version_roundtrip(Scope::Public, v);
    assert forall|i: int| 0 <= i < devices.drop_last().len() implies n.owner.user.devices.contains(
        #[trigger] devices.drop_last()[i],
    ) by {
        assert(devices.drop_last()[i] == devices[i]);
    }
    if k < rest.len() {
        lemma_devices_rightly_told(n, devices.drop_last(), v, k);
    } else {
        let d = devices[devices.len() - 1];
        assert(n.owner.user.devices.contains(d));
        let i = choose|i: int| 0 <= i < n.owner.user.devices.len() && n.owner.user.devices[i] == d;
        election::lemma_connected(n, d.uuid);
        assert(n.owner.user.devices[i].uuid == d.uuid);
    }
}

proof fn lemma_contact_told(
    n: NodeView,
    contacts: Seq<ContactView>,
    v: SyncVersion,
    i: int,
    c: ActiveConnection,
)
    requires
        0 <= i < contacts.len(),
        sync::contact_session(n, contacts[i]) == Some(c),
    ensures
        told(
            sync::contact_notices(n, contacts, v),
            c,
            CROSS_USER_UPDATE_AVAILABLE_OP,
            Scope::Public,
            v,
        ),
    decreases contacts.len(),
{
    let op = CROSS_USER_UPDATE_AVAILABLE_OP;
    let e = sync::contact_notices(n, contacts, v);
    let rest = sync::contact_notices(n, contacts.drop_last(), v);
    let body = sync::scope_and_version(Scope::Public, v);
    sync::law_scope_version_roundtrip(Scope::Public, v);
    if i == contacts.len() - 1 {
        assert(following::packet_at(e, rest.len() as int, c, op, body));
    } else {
        lemma_contact_told(n, contacts.drop_last(), v, i, c);
        let (k, b) = choose|k: int, b: Seq<u8>| #[trigger]
            following::packet_at(rest, k, c, op, b) && names_version(b, Scope::Public, v);
        assert(following::packet_at(e, k, c, op, b));
    }
}

proof fn lemma_contacts_rightly_told(
    n: NodeView,
    contacts: Seq<ContactView>,
    v: SyncVersion,
    k: int,
)
    requires
        0 <= k < sync::contact_notices(n, contacts, v).len(),
        forall|i: int|
            0 <= i < contacts.len() ==> n.owner.contact_users.contains(#[trigger] contacts[i]),
    ensures
        rightly_told(n, sync::contact_notices(n, contacts, v)[k], v),
    decreases contacts.len(),
{
    let rest = sync::contact_notices(n, contacts.drop_last(), v);
    sync::law_scope_version_roundtrip(Scope::Public, v);
    assert forall|i: int| 0 <= i < contacts.drop_last().len() implies n.owner.contact_users.contains(
        #[trigger] contacts.drop_last()[i],
    ) by {
        assert(contacts.drop_last()[i] == contacts[i]);
    }
    if k < rest.len() {
        lemma_contacts_rightly_told(n, contacts.drop_last(), v, k);
    } else {
        let c = contacts[contacts.len() - 1];
        assert(n.owner.contact_users.contains(c));
        let i = choose|i: int| 0 <= i < n.owner.contact_users.len() && n.owner.contact_users[i] == c;
        let j = election::lemma_some_by_rank(c.user.devices, sync::connected_sg(n));
        let d = c.user.devices[j];
        election::lemma_connected(n, d.uuid);
        assert(election::serves(n.owner.contact_users[i].user.devices, j));
    }
}

/// The best ranked server of a contact that can be spoken to is the one that is
/// told.
proof fn lemma_contact_session(n: NodeView, c: ContactView, j: int)
    requires
        election::first_by_rank(c.user.devices, in_reach(n), j),
    ensures
        sync::contact_session(n, c) == routing::session_with(n, c.user.devices[j].uuid),
{
    let s = c.user.devices;
    assert(election::first_by_rank(s, sync::connected_sg(n), j)) by {
        election::lemma_connected(n, s[j].uuid);
        assert forall|k: int| #[trigger]
            election::serves(s, k) && sync::connected_sg(n)(s[k]) implies k == j || election::ahead(
            s,
            j,
            k,
        ) by {
            election::lemma_connected(n, s[k].uuid);
            assert(in_reach(n)(s[k]));
        }
    }
    election::lemma_first_by_rank(s, sync::connected_sg(n), j);
}

pub proof fn lemma_told_among(
    a: Seq<EffectView>,
    e: Seq<EffectView>,
    b: Seq<EffectView>,
    c: ActiveConnection,
    op: u8,
    scope: Scope,
    v: SyncVersion,
)
    requires
        told(e, c, op, scope, v),
    ensures
        told(a + e + b, c, op, scope, v),
{
    let (k, body) = choose|k: int, body: Seq<u8>| #[trigger]
        following::packet_at(e, k, c, op, body) && names_version(body, scope, v);
    assert((a + e + b)[a.len() + k] == e[k]);
    assert(following::packet_at(a + e + b, a.len() + k, c, op, body));
}

/// The notices of a new public version, one for one scope.
proof fn lemma_own_notices(n: NodeView, private: SyncVersion, public: SyncVersion)
    ensures
        sync::own_notices(n, seq![Scope::Public], private, public) == sync::device_notices(
            n,
            n.owner.user.devices,
            Scope::Public,
            public,
        ),
{
    assert(seq![Scope::Public].drop_last() =~= Seq::<Scope>::empty());
    assert(sync::own_notices(n, Seq::<Scope>::empty(), private, public) =~= Seq::empty());
    assert(sync::own_notices(n, seq![Scope::Public], private, public) =~= sync::device_notices(
        n,
        n.owner.user.devices,
        Scope::Public,
        public,
    ));
}

/// A change that moves the version, and what came of it: the node after it, and
/// what it sends behind some first effects.
pub open spec fn spread(m: NodeView, head: Seq<EffectView>, e: Seq<EffectView>) -> bool {
    e == head + sync::own_notices(
        m,
        seq![Scope::Public],
        m.owner.private_version,
        m.owner.public_version,
    ) + sync::contact_notices(m, m.owner.contact_users, m.owner.public_version)
}

pub proof fn lemma_spread_told(m: NodeView, head: Seq<EffectView>, e: Seq<EffectView>)
    requires
        spread(m, head, e),
    ensures
        forall|i: int, c: ActiveConnection|
            0 <= i < m.owner.user.devices.len() && (#[trigger] m.owner.user.devices[i]).uuid
                != m.device_uuid && #[trigger] passage::session_to(
                m,
                m.owner.user.devices[i].uuid,
                c,
            ) ==> told(e, c, SYNC_UPDATE_AVAILABLE_OP, Scope::Public, m.owner.public_version),
        forall|i: int, j: int, c: ActiveConnection|
            0 <= i < m.owner.contact_users.len() && #[trigger] election::first_by_rank(
                (#[trigger] m.owner.contact_users[i]).user.devices,
                in_reach(m),
                j,
            ) && #[trigger] passage::session_to(
                m,
                m.owner.contact_users[i].user.devices[j].uuid,
                c,
            ) ==> told(
                e,
                c,
                CROSS_USER_UPDATE_AVAILABLE_OP,
                Scope::Public,
                m.owner.public_version,
            ),
        forall|k: int|
            head.len() <= k < e.len() ==> rightly_told(m, #[trigger] e[k], m.owner.public_version),
{
    let v = m.owner.public_version;
    let own = sync::device_notices(m, m.owner.user.devices, Scope::Public, v);
    let others = sync::contact_notices(m, m.owner.contact_users, v);
    lemma_own_notices(m, m.owner.private_version, v);
    assert forall|i: int, c: ActiveConnection|
        0 <= i < m.owner.user.devices.len() && (#[trigger] m.owner.user.devices[i]).uuid
            != m.device_uuid && #[trigger] passage::session_to(
            m,
            m.owner.user.devices[i].uuid,
            c,
        ) implies told(e, c, SYNC_UPDATE_AVAILABLE_OP, Scope::Public, v) by {
        passage::lemma_session_to(m, m.owner.user.devices[i].uuid, c);
        lemma_device_told(m, m.owner.user.devices, Scope::Public, v, i, c);
        lemma_told_among(head, own, others, c, SYNC_UPDATE_AVAILABLE_OP, Scope::Public, v);
    }
    assert forall|i: int, j: int, c: ActiveConnection|
        0 <= i < m.owner.contact_users.len() && #[trigger] election::first_by_rank(
            (#[trigger] m.owner.contact_users[i]).user.devices,
            in_reach(m),
            j,
        ) && #[trigger] passage::session_to(
            m,
            m.owner.contact_users[i].user.devices[j].uuid,
            c,
        ) implies told(e, c, CROSS_USER_UPDATE_AVAILABLE_OP, Scope::Public, v) by {
        passage::lemma_session_to(m, m.owner.contact_users[i].user.devices[j].uuid, c);
        lemma_contact_session(m, m.owner.contact_users[i], j);
        lemma_contact_told(m, m.owner.contact_users, v, i, c);
        lemma_told_among(
            head + own,
            others,
            Seq::empty(),
            c,
            CROSS_USER_UPDATE_AVAILABLE_OP,
            Scope::Public,
            v,
        );
        assert(head + own + others + Seq::<EffectView>::empty() =~= e);
    }
    assert forall|k: int| head.len() <= k < e.len() implies rightly_told(m, #[trigger] e[k], v) by {
        if k < head.len() + own.len() {
            assert(e[k] == own[k - head.len()]);
            lemma_devices_rightly_told(m, m.owner.user.devices, v, k - head.len());
        } else {
            let l = k - head.len() - own.len();
            assert(e[k] == others[l]);
            lemma_contacts_rightly_told(m, m.owner.contact_users, v, l);
        }
    }
}

/// A change on the writer is news to whom it concerns. Every other device of the
/// user with which there is a session is told the new public version, and so is,
/// of every contact, the first server by rank with which there is one. Nobody
/// else is told anything, the state is saved first, and the version is one step
/// ahead of the last.
pub proof fn law_change_is_told(n: NodeView, c: ChangeView, now: u64, retention: u64)
    requires
        n.owner.public_version.room(2),
        sync::written(n, c, false, now, retention) is Some,
        apply::applied(n.owner, c) matches Some((changed, _)) && changed,
    ensures
        ({
            let (m, e) = sync::written(n, c, false, now, retention)->0;
            let v = m.owner.public_version;
            &&& outcomes::succeeds(n.owner.public_version, v, n.device_uuid)
            &&& e.len() >= 1 && e[0] == EffectView::Save
            &&& forall|i: int, s: ActiveConnection|
                0 <= i < m.owner.user.devices.len() && (#[trigger] m.owner.user.devices[i]).uuid
                    != m.device_uuid && #[trigger] passage::session_to(
                    m,
                    m.owner.user.devices[i].uuid,
                    s,
                ) ==> told(e, s, SYNC_UPDATE_AVAILABLE_OP, Scope::Public, v)
            &&& forall|i: int, j: int, s: ActiveConnection|
                0 <= i < m.owner.contact_users.len() && #[trigger] election::first_by_rank(
                    (#[trigger] m.owner.contact_users[i]).user.devices,
                    in_reach(m),
                    j,
                ) && #[trigger] passage::session_to(
                    m,
                    m.owner.contact_users[i].user.devices[j].uuid,
                    s,
                ) ==> told(e, s, CROSS_USER_UPDATE_AVAILABLE_OP, Scope::Public, v)
            &&& forall|k: int| 0 <= k < e.len() ==> rightly_told(m, #[trigger] e[k], v)
        }),
{
    let (m, e) = sync::written(n, c, false, now, retention)->0;
    outcomes::law_change_moves_the_version(n.owner, c, n.device_uuid);
    lemma_spread_told(m, seq![EffectView::Save], e);
}

/// An entry of the log records a change under a version, with the time of it.
pub open spec fn records(n: NodeView, c: ChangeView, v: SyncVersion, now: u64) -> bool {
    exists|i: int|
        0 <= i < n.owner.write_log.len() && change::parse_change(
            (#[trigger] n.owner.write_log[i]).change_payload,
        ) == Some(c) && n.owner.write_log[i].version == v && n.owner.write_log[i].scope
            == Scope::Public && n.owner.write_log[i].committed_at == now
}

proof fn lemma_logged(
    n: NodeView,
    m: NodeView,
    c: ChangeView,
    v: SyncVersion,
    now: u64,
    retention: u64,
)
    requires
        change::plain_change(c),
        m.owner.write_log == sync::logged(n.owner.write_log, c, Scope::Public, v, now, retention),
    ensures
        records(m, c, v, now),
{
    change::law_change_roundtrip(c);
    let x = crate::types::WriteLogEntryView {
        version: v,
        scope: Scope::Public,
        change_payload: change::enc_change(c),
        committed_at: now,
    };
    let all = n.owner.write_log.push(x);
    assert(all[all.len() - 1] == x);
    assert(all.contains(x));
    let log = m.owner.write_log;
    if retention <= now {
        let p = sync::committed_since((now - retention) as u64);
        model::lemma_keep_contains(all, p, x);
    }
    let i = choose|i: int| 0 <= i < log.len() && log[i] == x;
    assert(log[i].version == v);
}

/// A change that a device asks for reaches the writer over the session with it,
/// and takes effect there: the writer's devices and contacts are then those of
/// the change, the change is in its log under the new version, the answer goes
/// over the session on which the request came and says so, and everybody whom it
/// concerns is told.
pub proof fn law_asked_change_is_made(
    a: NodeView,
    w: NodeView,
    c: ChangeView,
    d: Seq<u8>,
    ca: ActiveConnection,
    cw: ActiveConnection,
    now: u64,
    later: u64,
    retention: u64,
)
    requires
        change::parse_change(d) == Some(c),
        change::plain_change(c),
        passage::session_to(a, w.device_uuid, ca),
        following::session_under(w, cw.id, cw),
        w.owner.public_version.room(1),
        routing::writer(w) == WriterTarget::Local,
    ensures
        ({
            let (r, m, e) = sync::requested(
                a,
                c,
                WriterTarget::Remote(w.device_uuid),
                false,
                now,
                retention,
            );
            &&& r is Done
            &&& m == a
            &&& exists|ask: Seq<u8>| #[trigger]
                following::one_packet(e, ca, SYNC_WRITE_REQUEST_OP, ask) && change::parse_change(
                    ask,
                ) == Some(c)
        }),
        ({
            let (m, e) = sync::write_request_taken(w, cw.id, d, later, retention);
            match apply::applied(w.owner, c) {
                Some((true, p)) => {
                    let v = m.owner.public_version;
                    &&& m.owner.user == p.user
                    &&& m.owner.contact_users == p.contact_users
                    &&& outcomes::succeeds(w.owner.public_version, v, w.device_uuid)
                    &&& m.owner.private_version == w.owner.private_version
                    &&& records(m, c, v, later)
                    &&& answered(e, 1, cw, WRITE_ACK_OK, w.owner.private_version, v)
                    &&& e[0] == EffectView::Save
                    &&& forall|i: int, s: ActiveConnection|
                        0 <= i < m.owner.user.devices.len() && (
                        #[trigger] m.owner.user.devices[i]).uuid != m.device_uuid
                            && #[trigger] passage::session_to(
                            m,
                            m.owner.user.devices[i].uuid,
                            s,
                        ) ==> told(e, s, SYNC_UPDATE_AVAILABLE_OP, Scope::Public, v)
                    &&& forall|i: int, j: int, s: ActiveConnection|
                        0 <= i < m.owner.contact_users.len() && #[trigger] election::first_by_rank(
                            (#[trigger] m.owner.contact_users[i]).user.devices,
                            in_reach(m),
                            j,
                        ) && #[trigger] passage::session_to(
                            m,
                            m.owner.contact_users[i].user.devices[j].uuid,
                            s,
                        ) ==> told(e, s, CROSS_USER_UPDATE_AVAILABLE_OP, Scope::Public, v)
                    &&& forall|k: int| 2 <= k < e.len() ==> rightly_told(m, #[trigger] e[k], v)
                },
                Some((false, _)) => {
                    &&& m == w
                    &&& e.len() == 1
                    &&& answered(
                        e,
                        0,
                        cw,
                        WRITE_ACK_OK,
                        w.owner.private_version,
                        w.owner.public_version,
                    )
                },
                None => {
                    &&& m == w
                    &&& e.len() == 1
                    &&& answered(
                        e,
                        0,
                        cw,
                        WRITE_ACK_VALIDATION_ERROR,
                        w.owner.private_version,
                        w.owner.public_version,
                    )
                },
            }
        }),
{
    passage::lemma_session_to(a, w.device_uuid, ca);
    following::lemma_session_under(w, cw.id, cw);
    change::law_change_roundtrip(c);
    let ask = change::enc_change(c);
    let sent = sync::requested(
        a,
        c,
        WriterTarget::Remote(w.device_uuid),
        false,
        now,
        retention,
    ).2;
    assert(following::one_packet(sent, ca, SYNC_WRITE_REQUEST_OP, ask));
    outcomes::law_change_moves_the_version(w.owner, c, w.device_uuid);
    apply::law_apply_frame(w.owner, c);
    let (m, e) = sync::write_request_taken(w, cw.id, d, later, retention);
    let private = w.owner.private_version;
    sync::law_write_ack_roundtrip(WRITE_ACK_OK, private, m.owner.public_version);
    sync::law_write_ack_roundtrip(WRITE_ACK_VALIDATION_ERROR, private, w.owner.public_version);
    match apply::applied(w.owner, c) {
        Some((changed, _)) => {
            if changed {
                let ack = sync::write_ack(WRITE_ACK_OK, private, m.owner.public_version);
                let answer = EffectView::Seal { conn: cw, op: SYNC_WRITE_ACK_OP, body: ack };
                let head = seq![EffectView::Save].push(answer).push(EffectView::Save);
                lemma_logged(w, m, c, m.owner.public_version, later, retention);
                lemma_spread_told(m, head, e);
                assert(e[1] == answer && e[0] == EffectView::Save && e[2] == EffectView::Save);
                assert(following::packet_at(e, 1, cw, SYNC_WRITE_ACK_OP, ack));
            } else {
                let ack = sync::write_ack(WRITE_ACK_OK, private, w.owner.public_version);
                assert(following::packet_at(e, 0, cw, SYNC_WRITE_ACK_OP, ack));
            }
        },
        None => {
            let ack = sync::write_ack(WRITE_ACK_VALIDATION_ERROR, private, w.owner.public_version);
            assert(following::packet_at(e, 0, cw, SYNC_WRITE_ACK_OP, ack));
        },
    }
}

/// The `k`-th effect answers a write request over a session: a result and the
/// versions then current.
pub open spec fn answered(
    e: Seq<EffectView>,
    k: int,
    c: ActiveConnection,
    result: u8,
    private: SyncVersion,
    public: SyncVersion,
) -> bool {
    exists|ack: Seq<u8>| #[trigger]
        following::packet_at(e, k, c, SYNC_WRITE_ACK_OP, ack) && sync::parse_write_ack(ack)
            == Some(sync::WriteAck { result, private, public })
}

/// A node that is not the writer makes no change and says so.
pub proof fn law_others_make_no_change(
    w: NodeView,
    c: ChangeView,
    d: Seq<u8>,
    cw: ActiveConnection,
    now: u64,
    retention: u64,
)
    requires
        change::parse_change(d) == Some(c),
        following::session_under(w, cw.id, cw),
        routing::writer(w) != WriterTarget::Local,
    ensures
        ({
            let (m, e) = sync::write_request_taken(w, cw.id, d, now, retention);
            &&& m == w
            &&& e.len() == 1
            &&& answered(
                e,
                0,
                cw,
                WRITE_ACK_NOT_WRITER,
                w.owner.private_version,
                w.owner.public_version,
            )
        }),
{
    following::lemma_session_under(w, cw.id, cw);
    let (m, e) = sync::write_request_taken(w, cw.id, d, now, retention);
    let ack = sync::write_ack(
        WRITE_ACK_NOT_WRITER,
        w.owner.private_version,
        w.owner.public_version,
    );
    sync::law_write_ack_roundtrip(
        WRITE_ACK_NOT_WRITER,
        w.owner.private_version,
        w.owner.public_version,
    );
    assert(following::packet_at(e, 0, cw, SYNC_WRITE_ACK_OP, ack));
}

} // verus!
