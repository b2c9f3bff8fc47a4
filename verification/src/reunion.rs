//! How servers that were apart come together again, packet by packet.
use crate::effects::EffectView;
use crate::election;
use crate::find;
use crate::following;
use crate::merge;
use crate::model;
use crate::passage;
use crate::reconcile;
use crate::sync;
use crate::telling;
use crate::types::{ActiveConnection, NodeView, Scope, SyncVersion, Uuid, WriteLogEntryView};
use crate::watermark;
use crate::wire;
use crate::wire::{
    CROSS_USER_UPDATE_AVAILABLE_OP, MERGE_ACK_OP, MERGE_ACK_RESULT_APPLIED,
    MERGE_ACK_RESULT_MALFORMED, MERGE_PROPOSAL_OP, SYNC_UPDATE_AVAILABLE_OP,
    WATERMARK_PROBE_REQUEST_OP, WATERMARK_PROBE_RESPONSE_OP,
};
use vstd::prelude::*;

verus! {

/// `a` is later in a writer's history than `b`: of a later epoch, or of the same
/// and further on in it.
pub open spec fn further(a: SyncVersion, b: SyncVersion) -> bool {
    if a.epoch == b.epoch {
        b.seq < a.seq
    } else {
        b.epoch < a.epoch
    }
}

/// An entry of a writer, in a scope.
pub open spec fn stems(e: WriteLogEntryView, w: Uuid, scope: Scope) -> bool {
    e.scope == scope && e.version.writer_sg_uuid == w
}

/// Both ends of a session are servers of the user.
pub open spec fn between_servers(n: NodeView, c: ActiveConnection) -> bool {
    &&& following::session_under(n, c.id, c)
    &&& following::own_server(n, n.device_uuid)
    &&& following::own_server(n, c.device_uuid)
}

proof fn lemma_between_servers(n: NodeView, c: ActiveConnection)
    requires
        between_servers(n, c),
    ensures
        reconcile::peer_server(n, c.id) == Some(c),
{
    following::lemma_session_under(n, c.id, c);
    following::lemma_own_server(n, n.device_uuid);
    following::lemma_own_server(n, c.device_uuid);
}

/// A probe of what is public.
pub open spec fn probes_public(body: Seq<u8>) -> bool {
    wire::parse_scope(body, 0) matches Some((scope, _)) && scope == Scope::Public
}

proof fn lemma_probe_body()
    ensures
        probes_public(seq![wire::scope_byte(Scope::Public)]),
{
    let d = seq![wire::scope_byte(Scope::Public)];
    wire::lemma_stands_whole(d);
    wire::lemma_scope(d, 0, Scope::Public);
}

proof fn lemma_probed_over(n: NodeView, conns: Seq<ActiveConnection>, i: int)
    requires
        0 <= i < conns.len(),
        between_servers(n, conns[i]),
    ensures
        exists|k: int, body: Seq<u8>| #[trigger]
            following::packet_at(
                reconcile::probes(n, conns),
                k,
                conns[i],
                WATERMARK_PROBE_REQUEST_OP,
                body,
            ) && probes_public(body),
    decreases conns.len(),
{
    let c = conns[i];
    let all = reconcile::probes(n, conns);
    let rest = reconcile::probes(n, conns.drop_last());
    lemma_between_servers(n, c);
    lemma_probe_body();
    if i == conns.len() - 1 {
        let body = seq![wire::scope_byte(Scope::Public)];
        assert(following::packet_at(
            all,
            rest.len() as int,
            c,
            WATERMARK_PROBE_REQUEST_OP,
            body,
        ));
    } else {
        lemma_probed_over(n, conns.drop_last(), i);
        let (k, body) = choose|k: int, body: Seq<u8>| #[trigger]
            following::packet_at(rest, k, c, WATERMARK_PROBE_REQUEST_OP, body) && probes_public(
                body,
            );
        assert(following::packet_at(all, k, c, WATERMARK_PROBE_REQUEST_OP, body));
    }
}

/// From time to time a server probes each of the user's other servers with which
/// it has a session.
pub proof fn law_servers_are_probed(n: NodeView, c: ActiveConnection)
    requires
        between_servers(n, c),
    ensures
        exists|k: int, body: Seq<u8>| #[trigger]
            following::packet_at(
                reconcile::probes(n, n.owner.active_connections),
                k,
                c,
                WATERMARK_PROBE_REQUEST_OP,
                body,
            ) && probes_public(body),
{
    let s = n.owner.active_connections;
    let i = choose|i: int|
        0 <= i < s.len() && #[trigger] s[i] == c && c.id == c.id && forall|j: int|
            0 <= j < i ==> (#[trigger] s[j]).id != c.id;
    lemma_probed_over(n, s, i);
}

/// Nobody but a server probes, and nobody but a server is probed.
pub proof fn law_only_servers_are_probed(n: NodeView, conns: Seq<ActiveConnection>, k: int)
    requires
        0 <= k < reconcile::probes(n, conns).len(),
    ensures
        following::own_server(n, n.device_uuid),
        reconcile::probes(n, conns)[k] matches EffectView::Seal { conn, op, body } && op
            == WATERMARK_PROBE_REQUEST_OP && following::own_server(n, conn.device_uuid),
    decreases conns.len(),
{
    let rest = reconcile::probes(n, conns.drop_last());
    if k < rest.len() {
        law_only_servers_are_probed(n, conns.drop_last(), k);
    } else {
        following::lemma_own_server(n, n.device_uuid);
        let c = sync::session(n, conns.last().id)->0;
        following::lemma_own_server(n, c.device_uuid);
    }
}

proof fn lemma_marks_len(log: Seq<WriteLogEntryView>, scope: Scope)
    ensures
        watermark::marks_of(log, scope).len() <= log.len(),
    decreases log.len(),
{
    if log.len() > 0 {
        lemma_marks_len(log.drop_last(), scope);
    }
}

/// Every writer is marked with its latest entry in the log: there is such an
/// entry, and none is further on.
pub proof fn law_marks_tell_the_latest(log: Seq<WriteLogEntryView>, scope: Scope, i: int)
    requires
        0 <= i < watermark::marks_of(log, scope).len(),
    ensures
        ({
            let (w, v) = watermark::marks_of(log, scope)[i];
            &&& exists|j: int|
                0 <= j < log.len() && stems(#[trigger] log[j], w, scope) && log[j].version == v
            &&& forall|j: int|
                0 <= j < log.len() && stems(#[trigger] log[j], w, scope) ==> !further(
                    log[j].version,
                    v,
                )
        }),
{
    let m = watermark::marks_of(log, scope);
    let w = m[i].0;
    let p = watermark::mark_is(w);
    watermark::law_marks_are_latest(log, scope, w);
    model::lemma_first_some(m, p, i);
    let f = model::first_where(m, p)->0;
    assert(m[i].0 == w);
    assert(i == f);
    let q = watermark::written_by(w, scope);
    let j = choose|j: int| 0 <= j < log.len() && q(#[trigger] log[j]) && log[j].version == m[f].1;
    assert(stems(log[j], w, scope));
    assert forall|j: int| 0 <= j < log.len() && stems(#[trigger] log[j], w, scope) implies !further(
        log[j].version,
        m[i].1,
    ) by {
        assert(q(log[j]));
    }
}

/// What one server has and the other cannot have reaches the other. The first
/// probes the second, the second answers with its marks, the first proposes what
/// they leave out, and the second takes it over and says so; each packet goes over
/// the session with the other, and the next step is taken on exactly it.
pub proof fn law_servers_reunite(
    x: NodeView,
    y: NodeView,
    cx: ActiveConnection,
    cy: ActiveConnection,
    e: WriteLogEntryView,
    now: u64,
    retention: u64,
)
    requires
        between_servers(x, cx),
        between_servers(y, cy),
        x.owner.write_log.contains(e),
        e.scope == Scope::Public,
        e.version.epoch > 0 || e.version.seq > 0,
        forall|k: int|
            0 <= k < y.owner.write_log.len() && stems(
                #[trigger] y.owner.write_log[k],
                e.version.writer_sg_uuid,
                Scope::Public,
            ) ==> further(e.version, y.owner.write_log[k].version),
        e.committed_at + retention >= now,
        x.owner.write_log.len() <= 65535,
        y.owner.write_log.len() <= 65535,
        forall|k: int|
            0 <= k < x.owner.write_log.len() ==> (
            #[trigger] x.owner.write_log[k]).change_payload.len() <= 65535,
    ensures
        exists|probe: Seq<u8>, marks: Seq<u8>, proposal: Seq<u8>, ack: Seq<u8>| #[trigger]
            following::one_packet(
                reconcile::probe_sent(x, cx.id),
                cx,
                WATERMARK_PROBE_REQUEST_OP,
                probe,
            ) && #[trigger] following::one_packet(
                reconcile::probe_replied(y, cy.id, probe),
                cy,
                WATERMARK_PROBE_RESPONSE_OP,
                marks,
            ) && #[trigger] following::one_packet(
                reconcile::probe_taken(x, cx.id, marks).1,
                cx,
                MERGE_PROPOSAL_OP,
                proposal,
            ) && #[trigger] told_at_last(
                reconcile::proposal_taken(y, cy.id, proposal, now, retention).1,
                cy,
                ack,
            ) && ({
                let z = reconcile::proposal_taken(y, cy.id, proposal, now, retention).0;
                &&& z.owner.write_log.contains(e)
                &&& reconcile::parse_merge_ack(ack) == Some(
                    (Scope::Public, z.owner.public_version, MERGE_ACK_RESULT_APPLIED),
                )
            }),
{
    let scope = Scope::Public;
    let probe = seq![wire::scope_byte(scope)];
    let theirs = watermark::marks_of(y.owner.write_log, scope);
    let marks = watermark::enc_marks(scope, theirs);
    let peer = cx.device_uuid;
    lemma_between_servers(x, cx);
    lemma_between_servers(y, cy);
    following::lemma_session_under(x, cx.id, cx);
    following::lemma_session_under(y, cy.id, cy);
    lemma_probe_body();
    lemma_marks_len(y.owner.write_log, scope);
    watermark::lemma_marks_keyed(y.owner.write_log, scope);
    watermark::law_watermark_roundtrip(scope, theirs);
    let m = reconcile::probed(x, cx.id, scope, theirs).0;
    assert(reconcile::peer_server(m, cx.id) == Some(cx));
    let (v, entries) = reconcile::proposal_for(m, peer, scope);
    let proposal = reconcile::enc_proposal(scope, v, entries);
    let p = reconcile::lacking(m.owner.last_watermarks, peer, scope);
    model::lemma_keep_again(x.owner.write_log, p);
    assert forall|k: int| 0 <= k < entries.len() implies (#[trigger] entries[k]).scope == scope
        && entries[k].change_payload.len() <= 65535 by {
        assert(p(entries[k]));
        assert(entries.contains(entries[k]));
        model::lemma_keep_contains(x.owner.write_log, p, entries[k]);
        let j = choose|j: int|
            0 <= j < x.owner.write_log.len() && x.owner.write_log[j] == entries[k];
        assert(x.owner.write_log[j].change_payload.len() <= 65535);
    }
    lemma_keep_len(x.owner.write_log, p);
    reconcile::law_proposal_roundtrip(scope, v, entries);
    assert forall|k: int|
        0 <= k < y.owner.write_log.len() && watermark::written_by(e.version.writer_sg_uuid, scope)(
            #[trigger] y.owner.write_log[k],
        ) implies watermark::later(e.version, y.owner.write_log[k].version) by {
        assert(stems(y.owner.write_log[k], e.version.writer_sg_uuid, scope));
    }
    reconcile::law_entry_reaches_peer(x, cx.id, scope, y, cy.device_uuid, e, now, retention);
    let (z, out) = reconcile::proposal_taken(y, cy.id, proposal, now, retention);
    let ack = reconcile::enc_merge_ack(scope, z.owner.public_version, MERGE_ACK_RESULT_APPLIED);
    reconcile::law_merge_ack_roundtrip(scope, z.owner.public_version, MERGE_ACK_RESULT_APPLIED);
    assert(z == reconcile::merged_in(y, cy.device_uuid, scope, entries, now, retention).1);
    assert(following::one_packet(
        reconcile::probe_sent(x, cx.id),
        cx,
        WATERMARK_PROBE_REQUEST_OP,
        probe,
    ));
    assert(following::one_packet(
        reconcile::probe_replied(y, cy.id, probe),
        cy,
        WATERMARK_PROBE_RESPONSE_OP,
        marks,
    ));
    assert(following::one_packet(
        reconcile::probe_taken(x, cx.id, marks).1,
        cx,
        MERGE_PROPOSAL_OP,
        proposal,
    ));
    assert(told_at_last(out, cy, ack));
}

/// The last effect is an acknowledgement over a session.
pub open spec fn told_at_last(e: Seq<EffectView>, c: ActiveConnection, ack: Seq<u8>) -> bool {
    following::packet_at(e, e.len() - 1, c, MERGE_ACK_OP, ack)
}

proof fn lemma_keep_len<T>(s: Seq<T>, p: spec_fn(T) -> bool)
    ensures
        model::keep(s, p).len() <= s.len(),
    decreases s.len(),
{
    if s.len() > 0 {
        lemma_keep_len(s.drop_last(), p);
    }
}

/// What the peer has is not proposed again: an entry is left out where the peer's
/// log has one of the same writer that is as far or further.
pub proof fn law_nothing_is_sent_twice(
    x: NodeView,
    cx: ActiveConnection,
    scope: Scope,
    peer_log: Seq<WriteLogEntryView>,
    e: WriteLogEntryView,
    k: int,
)
    requires
        following::session_under(x, cx.id, cx),
        x.owner.write_log.contains(e),
        e.scope == scope,
        0 <= k < peer_log.len(),
        stems(peer_log[k], e.version.writer_sg_uuid, scope),
        !further(e.version, peer_log[k].version),
    ensures
        ({
            let m = reconcile::probed(
                x,
                cx.id,
                scope,
                watermark::marks_of(peer_log, scope),
            ).0;
            !reconcile::proposal_for(m, cx.device_uuid, scope).1.contains(e)
        }),
{
    following::lemma_session_under(x, cx.id, cx);
    let peer = cx.device_uuid;
    let w = e.version.writer_sg_uuid;
    let own = watermark::marks_of(x.owner.write_log, scope);
    let theirs = watermark::marks_of(peer_log, scope);
    let m = reconcile::probed(x, cx.id, scope, theirs).0;
    let list = x.owner.last_watermarks;
    let marks = watermark::agreed(own, theirs);
    let after = watermark::with_marks(list, peer, marks);
    watermark::lemma_marks_keyed(x.owner.write_log, scope);
    watermark::lemma_marks_keyed(peer_log, scope);
    watermark::law_marks_are_latest(x.owner.write_log, scope, w);
    watermark::law_marks_are_latest(peer_log, scope, w);
    let q = watermark::written_by(w, scope);
    assert(q(peer_log[k]));
    let at_e = choose|j: int| 0 <= j < x.owner.write_log.len() && x.owner.write_log[j] == e;
    assert(q(x.owner.write_log[at_e]));
    let mi = watermark::mark_is(w);
    model::lemma_first_where(own, mi);
    model::lemma_first_where(theirs, mi);
    let a = model::first_where(own, mi)->0;
    let b = model::first_where(theirs, mi)->0;
    assert(mi(own[a]) && mi(theirs[b]));
    assert(!further(e.version, own[a].1));
    assert(!further(e.version, theirs[b].1));
    let vb = watermark::version_by(w);
    assert(marks[a] == watermark::agreed_on(own[a], theirs));
    assert(own[a].0 == own[a].1.writer_sg_uuid);
    assert(theirs[b].0 == theirs[b].1.writer_sg_uuid);
    assert(vb(marks[a]));
    assert forall|j: int| 0 <= j < a implies !vb(#[trigger] marks[j]) by {
        assert(marks[j] == watermark::agreed_on(own[j], theirs));
        let u = own[j].0;
        assert(!mi(own[j]));
        assert(own[j].0 == own[j].1.writer_sg_uuid);
        model::lemma_first_where(theirs, watermark::mark_is(u));
        match model::first_where(theirs, watermark::mark_is(u)) {
            Some(l) => {
                assert(watermark::mark_is(u)(theirs[l]));
                assert(theirs[l].0 == theirs[l].1.writer_sg_uuid);
            },
            None => {},
        }
    }
    model::lemma_first_at(marks, vb, a);
    model::lemma_first_where(list, watermark::marks_for(peer));
    let at = match model::first_where(list, watermark::marks_for(peer)) {
        Some(i) => i,
        None => list.len() as int,
    };
    assert(after[at].marks == marks);
    assert forall|j: int| 0 <= j < at implies !watermark::marks_for(peer)(#[trigger] after[j]) by {
        assert(!watermark::marks_for(peer)(list[j]));
    }
    assert(watermark::marks_for(peer)(after[at]));
    model::lemma_first_at(after, watermark::marks_for(peer), at);
    assert(!reconcile::lacking(after, peer, scope)(e));
    model::lemma_keep_contains(x.owner.write_log, reconcile::lacking(after, peer, scope), e);
}

/// A merge that changes the state moves the public version and tells everybody
/// whom it concerns: the user's other devices, and of every contact the first
/// server by rank that can be spoken to.
pub proof fn law_merge_is_told(
    n: NodeView,
    c: ActiveConnection,
    entries: Seq<WriteLogEntryView>,
    now: u64,
    retention: u64,
)
    requires
        following::session_under(n, c.id, c),
        following::own_server(n, c.device_uuid),
        reconcile::merged_in(n, c.device_uuid, Scope::Public, entries, now, retention).0,
    ensures
        ({
            let (m, e) = reconcile::proposed(n, c.id, Scope::Public, entries, now, retention);
            let v = m.owner.public_version;
            &&& e[0] == EffectView::Save
            &&& forall|i: int, s: ActiveConnection|
                0 <= i < m.owner.user.devices.len() && (#[trigger] m.owner.user.devices[i]).uuid
                    != m.device_uuid && #[trigger] passage::session_to(
                    m,
                    m.owner.user.devices[i].uuid,
                    s,
                ) ==> telling::told(e, s, SYNC_UPDATE_AVAILABLE_OP, Scope::Public, v)
            &&& forall|i: int, j: int, s: ActiveConnection|
                0 <= i < m.owner.contact_users.len() && #[trigger] election::first_by_rank(
                    (#[trigger] m.owner.contact_users[i]).user.devices,
                    telling::in_reach(m),
                    j,
                ) && #[trigger] passage::session_to(
                    m,
                    m.owner.contact_users[i].user.devices[j].uuid,
                    s,
                ) ==> telling::told(e, s, CROSS_USER_UPDATE_AVAILABLE_OP, Scope::Public, v)
            &&& forall|k: int|
                0 <= k < e.len() - 1 ==> telling::rightly_told(m, #[trigger] e[k], v)
        }),
{
    following::lemma_session_under(n, c.id, c);
    following::lemma_own_server(n, c.device_uuid);
    let scope = Scope::Public;
    let (m, e) = reconcile::proposed(n, c.id, scope, entries, now, retention);
    let v = m.owner.public_version;
    let head = seq![EffectView::Save];
    let own = sync::own_notices(m, seq![scope], m.owner.private_version, v);
    let others = sync::contact_notices(m, m.owner.contact_users, v);
    let mid = head + own + others;
    let ack = seq![
        EffectView::Seal {
            conn: c,
            op: MERGE_ACK_OP,
            body: reconcile::enc_merge_ack(scope, v, MERGE_ACK_RESULT_APPLIED),
        },
    ];
    assert(e == mid + ack);
    telling::lemma_spread_told(m, head, mid);
    assert forall|s: ActiveConnection, op: u8| #[trigger]
        telling::told(mid, s, op, scope, v) implies telling::told(e, s, op, scope, v) by {
        telling::lemma_told_among(Seq::empty(), mid, ack, s, op, scope, v);
        assert(Seq::<EffectView>::empty() + mid + ack =~= e);
    }
    assert forall|k: int| 0 <= k < e.len() - 1 implies telling::rightly_told(
        m,
        #[trigger] e[k],
        v,
    ) by {
        assert(e[k] == mid[k]);
    }
}

/// A proposal from anybody but a server of the user changes nothing and is
/// refused.
pub proof fn law_only_servers_propose(
    n: NodeView,
    c: ActiveConnection,
    scope: Scope,
    entries: Seq<WriteLogEntryView>,
    now: u64,
    retention: u64,
)
    requires
        following::session_under(n, c.id, c),
        !following::own_server(n, c.device_uuid),
    ensures
        ({
            let (m, e) = reconcile::proposed(n, c.id, scope, entries, now, retention);
            &&& m == n
            &&& exists|ack: Seq<u8>| #[trigger]
                following::one_packet(e, c, MERGE_ACK_OP, ack) && (match reconcile::parse_merge_ack(
                    ack,
                ) {
                    Some((s, v, result)) => s == scope && v.epoch == 0 && v.seq == 0 && result
                        == MERGE_ACK_RESULT_MALFORMED,
                    None => false,
                })
        }),
{
    following::lemma_session_under(n, c.id, c);
    following::lemma_own_server(n, c.device_uuid);
    let ack = reconcile::enc_merge_ack(
        scope,
        SyncVersion::spec_zero(),
        MERGE_ACK_RESULT_MALFORMED,
    );
    reconcile::law_merge_ack_roundtrip(
        scope,
        SyncVersion::spec_zero(),
        MERGE_ACK_RESULT_MALFORMED,
    );
    let e = reconcile::proposed(n, c.id, scope, entries, now, retention).1;
    assert(following::one_packet(e, c, MERGE_ACK_OP, ack));
}

} // verus!
