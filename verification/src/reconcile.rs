//! Bringing the servers of a user together again after they were apart: a
//! probe, a proposal of what the other side lacks, and an acknowledgement.
use crate::apply;
use crate::apply::apply_change_to_owner;
use crate::change::{Change, ChangeView};
use crate::effects::{push_all, Effect, EffectView};
use crate::keys;
use crate::lists;
use crate::merge;
use crate::merge::merge_logs;
use crate::model;
use crate::routing;
use crate::routing::{find_pull_source, WriterTarget};
use crate::sync;
use crate::sync::{
    find_session_by_id, is_own_user_sg, local_is_sg, notify_contacts, notify_own_peers, prune_log,
    seal_to,
};
use crate::types::{
    uuid_eq, ActiveConnection, Device, DeviceGrade, DeviceView, Node, NodeView, Owner, OwnerView,
    PeerWatermarksView, ReceivedProposal, ReceivedProposalView, Scope, SyncVersion, UserView, Uuid,
    WriteLogEntry,
    WriteLogEntryView,
};
use crate::watermark;
use crate::watermark::{
    agreed_marks, build_local_watermark_map, find_mark_with, is_later, parse_watermark_map,
    serialize_watermark_map, set_peer_marks,
};
use crate::wire;
use crate::wire::{
    bytes_of, push_bytes, push_u16, push_u64, read_byte, read_scope, read_sync_version, read_u16,
    read_u64, write_scope, write_sync_version, MERGE_ACK_OP, MERGE_ACK_RESULT_APPLIED,
    MERGE_ACK_RESULT_MALFORMED, MERGE_ACK_RESULT_RETENTION_EXHAUSTED, MERGE_PROPOSAL_OP,
    WATERMARK_PROBE_REQUEST_OP, WATERMARK_PROBE_RESPONSE_OP,
};
use vstd::prelude::*;

verus! {

/// The layout of a log entry: its version, the payload behind its length, and
/// the time. A payload is cut at 65535 bytes.
pub open spec fn enc_entry(e: WriteLogEntryView) -> Seq<u8> {
    let n = wire::least(e.change_payload.len() as int, 65535);
    wire::enc_version(e.version) + (wire::enc_u16(n as u16) + (e.change_payload.take(n)
        + wire::enc_u64(e.committed_at)))
}

pub open spec fn entry_enc() -> spec_fn(WriteLogEntryView) -> Seq<u8> {
    |e: WriteLogEntryView| enc_entry(e)
}

pub open spec fn parse_bytes(d: Seq<u8>, p: int, n: int) -> Option<(Seq<u8>, int)> {
    if p + n <= d.len() {
        Some((d.subrange(p, p + n), p + n))
    } else {
        None
    }
}

pub open spec fn parse_entry(d: Seq<u8>, p: int, scope: Scope) -> Option<(WriteLogEntryView, int)> {
    match wire::parse_version(d, p) {
        Some((version, q)) => match wire::parse_u16(d, q) {
            Some((n, r)) => match parse_bytes(d, r, n as int) {
                Some((change_payload, s)) => match wire::parse_u64(d, s) {
                    Some((committed_at, t)) => Some(
                        (WriteLogEntryView { version, scope, change_payload, committed_at }, t),
                    ),
                    None => None,
                },
                None => None,
            },
            None => None,
        },
        None => None,
    }
}

pub open spec fn entry_parser(scope: Scope) -> spec_fn(Seq<u8>, int) -> Option<
    (WriteLogEntryView, int),
> {
    |d: Seq<u8>, p: int| parse_entry(d, p, scope)
}

/// The layout of a proposal: the scope, the proposer's version, a count and the
/// first 65535 entries.
pub open spec fn enc_proposal(
    scope: Scope,
    version: SyncVersion,
    entries: Seq<WriteLogEntryView>,
) -> Seq<u8> {
    let n = wire::least(entries.len() as int, 65535);
    seq![wire::scope_byte(scope)] + (wire::enc_version(version) + (wire::enc_u16(n as u16)
        + lists::enc_all(entries.take(n), entry_enc())))
}

pub open spec fn parse_proposal(d: Seq<u8>) -> Option<
    (Scope, SyncVersion, Seq<WriteLogEntryView>),
> {
    match wire::parse_scope(d, 0) {
        Some((scope, p)) => match wire::parse_version(d, p) {
            Some((version, q)) => match wire::parse_u16(d, q) {
                Some((n, r)) => match lists::parse_many(d, r, n as nat, entry_parser(scope)) {
                    Some((entries, _)) => Some((scope, version, entries)),
                    None => None,
                },
                None => None,
            },
            None => None,
        },
        None => None,
    }
}

fn push_entry(buf: &mut Vec<u8>, e: &WriteLogEntry)
    ensures
        final(buf)@ == old(buf)@ + enc_entry(e@),
{
    write_sync_version(buf, &e.version);
    let mut n: usize = e.change_payload.len();
    if n > 65535 {
        n = 65535;
    }
    push_u16(buf, n as u16);
    push_bytes(buf, &e.change_payload[0..n]);
    push_u64(buf, e.committed_at);
    assert(e.change_payload@.subrange(0, n as int) =~= e@.change_payload.take(n as int));
    assert(buf@ =~= old(buf)@ + enc_entry(e@));
}

/// Encodes a proposal.
pub fn build_merge_proposal_body(
    scope: Scope,
    sender_version: SyncVersion,
    entries: &[WriteLogEntry],
) -> (r: Vec<u8>)
    ensures
        r@ == enc_proposal(scope, sender_version, model::views(entries@)),
{
    broadcast use model::group_views;

    let mut n: usize = entries.len();
    if n > 65535 {
        n = 65535;
    }
    let mut buf: Vec<u8> = Vec::new();
    write_scope(&mut buf, scope);
    write_sync_version(&mut buf, &sender_version);
    push_u16(&mut buf, n as u16);
    let ghost start = buf@;
    let ghost h = model::views(entries@).take(n as int);
    let mut i: usize = 0;
    assert(buf@ =~= start + lists::enc_all(h.take(0), entry_enc()));
    while i < n
        invariant
            i <= n <= entries@.len(),
            h == model::views(entries@).take(n as int),
            buf@ == start + lists::enc_all(h.take(i as int), entry_enc()),
        decreases n - i,
    {
        push_entry(&mut buf, &entries[i]);
        proof {
            lists::lemma_enc_step(h, entry_enc(), i as int);
        }
        i += 1;
        assert(buf@ =~= start + lists::enc_all(h.take(i as int), entry_enc()));
    }
    assert(h.take(n as int) =~= h);
    assert(buf@ =~= enc_proposal(scope, sender_version, model::views(entries@)));
    buf
}

fn read_entry(data: &[u8], pos: &mut usize, scope: Scope) -> (r: Option<WriteLogEntry>)
    requires
        *old(pos) <= data@.len(),
    ensures
        *final(pos) <= data@.len(),
        match parse_entry(data@, *old(pos) as int, scope) {
            Some((e, q)) => r matches Some(x) && x@ == e && *final(pos) == q,
            None => r is None,
        },
{
    let version = match read_sync_version(data, pos) {
        Some(v) => v,
        None => { return None; },
    };
    let n: u16 = match read_u16(data, pos) {
        Some(x) => x,
        None => { return None; },
    };
    let left: usize = data.len() - *pos;
    if left < n as usize {
        return None;
    }
    let end: usize = *pos + n as usize;
    let change_payload = bytes_of(data, *pos, end);
    *pos = end;
    let committed_at: u64 = match read_u64(data, pos) {
        Some(x) => x,
        None => { return None; },
    };
    Some(WriteLogEntry { version, scope, change_payload, committed_at })
}

/// Decodes a proposal; `None` if it is truncated.
pub fn parse_merge_proposal_body(data: &[u8]) -> (r: Option<
    (Scope, SyncVersion, Vec<WriteLogEntry>),
>)
    ensures
        match parse_proposal(data@) {
            Some((s, v, e)) => r matches Some((rs, rv, re)) && rs == s && rv == v && model::views(
                re@,
            ) == e,
            None => r is None,
        },
{
    broadcast use model::group_views;

    let mut pos: usize = 0;
    let scope = match read_scope(data, &mut pos) {
        Some(s) => s,
        None => { return None; },
    };
    let version = match read_sync_version(data, &mut pos) {
        Some(v) => v,
        None => { return None; },
    };
    let n: u16 = match read_u16(data, &mut pos) {
        Some(x) => x,
        None => { return None; },
    };
    let ghost p = pos as int;
    let mut out: Vec<WriteLogEntry> = Vec::new();
    let mut i: u16 = 0;
    assert(model::views(out@) =~= Seq::empty());
    while i < n
        invariant
            i <= n,
            pos <= data@.len(),
            lists::parse_many(data@, p, i as nat, entry_parser(scope)) == Some(
                (model::views(out@), pos as int),
            ),
            parse_proposal(data@) is Some ==> lists::parse_many(
                data@,
                p,
                n as nat,
                entry_parser(scope),
            ) is Some,
        decreases n - i,
    {
        match read_entry(data, &mut pos, scope) {
            Some(e) => {
                out.push(e);
                i += 1;
            },
            None => {
                proof {
                    lists::lemma_parse_stuck(
                        data@,
                        p,
                        (i + 1) as nat,
                        n as nat,
                        entry_parser(scope),
                    );
                }
                return None;
            },
        }
    }
    Some((scope, version, out))
}

/// A proposal of whole entries of one scope is read as it was written.
pub proof fn law_proposal_roundtrip(
    scope: Scope,
    version: SyncVersion,
    entries: Seq<WriteLogEntryView>,
)
    requires
        entries.len() <= 65535,
        forall|i: int|
            0 <= i < entries.len() ==> (#[trigger] entries[i]).scope == scope
                && entries[i].change_payload.len() <= 65535,
    ensures
        parse_proposal(enc_proposal(scope, version, entries)) == Some((scope, version, entries)),
{
    let d = enc_proposal(scope, version, entries);
    let n = entries.len() as int;
    assert(entries.take(n) =~= entries);
    let s = seq![wire::scope_byte(scope)];
    let v = wire::enc_version(version);
    let c = wire::enc_u16(n as u16);
    let e = lists::enc_all(entries, entry_enc());
    wire::lemma_stands_whole(d);
    wire::lemma_stands_split(d, 0, s, v + (c + e));
    wire::lemma_stands_split(d, 1, v, c + e);
    wire::lemma_scope(d, 0, scope);
    wire::lemma_version(d, 1, version);
    wire::lemma_stands_split(d, 1int + v.len(), c, e);
    wire::lemma_u16(d, 1int + v.len(), n as u16);
    assert forall|i: int| 0 <= i < entries.len() implies lists::reads_back(
        d,
        #[trigger] entries[i],
        entry_enc()(entries[i]),
        entry_parser(scope),
    ) by {
        assert forall|q: int| #[trigger] wire::stands_at(
            d,
            q,
            entry_enc()(entries[i]),
        ) implies entry_parser(scope)(d, q) == Some(
            (entries[i], q + entry_enc()(entries[i]).len()),
        ) by {
            lemma_entry(d, q, entries[i]);
        }
    }
    lists::lemma_many(d, 3int + v.len(), entries, entry_enc(), entry_parser(scope));
}

proof fn lemma_entry(d: Seq<u8>, p: int, e: WriteLogEntryView)
    requires
        e.change_payload.len() <= 65535,
        wire::stands_at(d, p, enc_entry(e)),
    ensures
        parse_entry(d, p, e.scope) == Some((e, p + enc_entry(e).len())),
{
    let n = e.change_payload.len() as int;
    let v = wire::enc_version(e.version);
    let c = wire::enc_u16(n as u16);
    let b = e.change_payload.take(n);
    let t = wire::enc_u64(e.committed_at);
    assert(b =~= e.change_payload);
    wire::lemma_stands_split(d, p, v, c + (b + t));
    wire::lemma_version(d, p, e.version);
    wire::lemma_stands_split(d, p + v.len(), c, b + t);
    wire::lemma_u16(d, p + v.len(), n as u16);
    wire::lemma_stands_split(d, p + v.len() + 2, b, t);
    wire::lemma_u64(d, p + v.len() + 2 + n, e.committed_at);
    assert(parse_bytes(d, p + v.len() + 2, n) == Some((b, p + v.len() + 2 + n)));
}

/// The layout of an acknowledgement.
pub open spec fn enc_merge_ack(scope: Scope, mark: SyncVersion, result: u8) -> Seq<u8> {
    seq![wire::scope_byte(scope)] + (wire::enc_version(mark) + seq![result])
}

pub open spec fn parse_merge_ack(d: Seq<u8>) -> Option<(Scope, SyncVersion, u8)> {
    match wire::parse_scope(d, 0) {
        Some((s, p)) => match wire::parse_version(d, p) {
            Some((v, q)) => match wire::parse_byte(d, q) {
                Some((r, _)) => Some((s, v, r)),
                None => None,
            },
            None => None,
        },
        None => None,
    }
}

/// Encodes an acknowledgement.
pub fn build_merge_ack_body(scope: Scope, new_watermark: SyncVersion, result: u8) -> (r: Vec<u8>)
    ensures
        r@ == enc_merge_ack(scope, new_watermark, result),
{
    let mut buf: Vec<u8> = Vec::new();
    write_scope(&mut buf, scope);
    write_sync_version(&mut buf, &new_watermark);
    buf.push(result);
    assert(buf@ =~= enc_merge_ack(scope, new_watermark, result));
    buf
}

/// Decodes an acknowledgement; `None` if it is truncated.
pub fn parse_merge_ack_body(data: &[u8]) -> (r: Option<(Scope, SyncVersion, u8)>)
    ensures
        r == parse_merge_ack(data@),
{
    let mut pos: usize = 0;
    let scope = match read_scope(data, &mut pos) {
        Some(s) => s,
        None => { return None; },
    };
    let v = match read_sync_version(data, &mut pos) {
        Some(v) => v,
        None => { return None; },
    };
    match read_byte(data, &mut pos) {
        Some(b) => Some((scope, v, b)),
        None => None,
    }
}

/// An acknowledgement is read as it was written.
pub proof fn law_merge_ack_roundtrip(scope: Scope, mark: SyncVersion, result: u8)
    ensures
        parse_merge_ack(enc_merge_ack(scope, mark, result)) == Some((scope, mark, result)),
{
    let d = enc_merge_ack(scope, mark, result);
    let v = wire::enc_version(mark);
    wire::lemma_stands_whole(d);
    wire::lemma_stands_split(d, 0, seq![wire::scope_byte(scope)], v + seq![result]);
    wire::lemma_scope(d, 0, scope);
    wire::lemma_stands_split(d, 1, v, seq![result]);
    wire::lemma_version(d, 1, mark);
    wire::lemma_byte(d, 1int + v.len(), result);
}

/// What a peer said of a proposal.
#[derive(Clone, Copy, PartialEq, Eq, Debug, Structural)]
pub enum MergeResult {
    Applied,
    RetentionExhausted,
    Malformed,
    Unknown,
}

pub open spec fn merge_result(b: u8) -> MergeResult {
    if b == MERGE_ACK_RESULT_APPLIED {
        MergeResult::Applied
    } else if b == MERGE_ACK_RESULT_RETENTION_EXHAUSTED {
        MergeResult::RetentionExhausted
    } else if b == MERGE_ACK_RESULT_MALFORMED {
        MergeResult::Malformed
    } else {
        MergeResult::Unknown
    }
}

/// Reads the acknowledgement of a proposal. It changes nothing on this node.
pub fn merge_ack(plaintext: &[u8]) -> (r: Option<(Scope, SyncVersion, MergeResult)>)
    ensures
        match parse_merge_ack(plaintext@) {
            Some((s, v, b)) => r == Some((s, v, merge_result(b))),
            None => r is None,
        },
{
    match parse_merge_ack_body(plaintext) {
        Some((s, v, b)) => {
            let result = if b == MERGE_ACK_RESULT_APPLIED {
                MergeResult::Applied
            } else if b == MERGE_ACK_RESULT_RETENTION_EXHAUSTED {
                MergeResult::RetentionExhausted
            } else if b == MERGE_ACK_RESULT_MALFORMED {
                MergeResult::Malformed
            } else {
                MergeResult::Unknown
            };
            Some((s, v, result))
        },
        None => None,
    }
}

/// The session `id`, if this node and its peer are both servers of the user.
pub open spec fn peer_server(n: NodeView, id: u16) -> Option<ActiveConnection> {
    match sync::session(n, id) {
        Some(conn) => if sync::is_own_sg(n.owner, n.device_uuid) && sync::is_own_sg(
            n.owner,
            conn.device_uuid,
        ) {
            Some(conn)
        } else {
            None
        },
        None => None,
    }
}

fn find_peer_server(node: &Node, conn_id: u16) -> (r: Option<ActiveConnection>)
    ensures
        r == peer_server(node@, conn_id),
{
    if !local_is_sg(node) {
        return None;
    }
    match find_session_by_id(node, conn_id) {
        Some(conn) => if is_own_user_sg(&node.owner, &conn.device_uuid) {
            Some(conn)
        } else {
            None
        },
        None => None,
    }
}

/// The probe of the peer of a session, if both are servers of the user.
pub open spec fn probe_sent(n: NodeView, conn_id: u16) -> Seq<EffectView> {
    sync::sealed(
        peer_server(n, conn_id),
        WATERMARK_PROBE_REQUEST_OP,
        seq![wire::scope_byte(Scope::Public)],
    )
}

/// Probes the peer of a new session, if both are servers of the user.
pub fn partition_reconcile_on_reconnect(node: &Node, conn_id: u16) -> (r: Vec<Effect>)
    ensures
        model::views(r@) == probe_sent(node@, conn_id),
{
    let conn = find_peer_server(node, conn_id);
    let mut body: Vec<u8> = Vec::new();
    write_scope(&mut body, Scope::Public);
    assert(body@ =~= seq![wire::scope_byte(Scope::Public)]);
    seal_to(conn, WATERMARK_PROBE_REQUEST_OP, body)
}

/// A probe for each session, in the list, with another server of the user.
pub open spec fn probes(n: NodeView, conns: Seq<ActiveConnection>) -> Seq<EffectView>
    decreases conns.len(),
{
    if conns.len() == 0 {
        Seq::empty()
    } else {
        probes(n, conns.drop_last()) + probe_sent(n, conns.last().id)
    }
}

/// Probes every server of the user with which there is a session.
pub fn partition_reconcile_tick(node: &Node) -> (r: Vec<Effect>)
    ensures
        model::views(r@) == probes(node@, node@.owner.active_connections),
{
    broadcast use model::group_views;

    let ghost s = node@.owner.active_connections;
    let mut out: Vec<Effect> = Vec::new();
    let mut i: usize = 0;
    assert(s.take(0) =~= Seq::empty());
    while i < node.owner.active_connections.len()
        invariant
            i <= node.owner.active_connections@.len(),
            s == node.owner.active_connections@,
            model::views(out@) == probes(node@, s.take(i as int)),
        decreases node.owner.active_connections@.len() - i,
    {
        proof {
            assert(s.take(i + 1).drop_last() =~= s.take(i as int));
            assert(s.take(i + 1).last() == s[i as int]);
        }
        let id: u16 = node.owner.active_connections[i].id;
        push_all(&mut out, partition_reconcile_on_reconnect(node, id));
        i += 1;
    }
    assert(s.take(s.len() as int) =~= s);
    out
}

/// What a probe leads to: another server of the user is told the marks of the log.
pub open spec fn probe_replied(n: NodeView, conn_id: u16, d: Seq<u8>) -> Seq<EffectView> {
    match wire::parse_scope(d, 0) {
        Some((scope, _)) => sync::sealed(
            peer_server(n, conn_id),
            WATERMARK_PROBE_RESPONSE_OP,
            watermark::enc_marks(scope, watermark::marks_of(n.owner.write_log, scope)),
        ),
        None => Seq::empty(),
    }
}

/// Answers a probe from another server of the user with the marks of the log.
/// Others get no answer.
pub fn watermark_probe_request(node: &Node, conn_id: u16, plaintext: &[u8]) -> (r: Vec<Effect>)
    ensures
        model::views(r@) == probe_replied(node@, conn_id, plaintext@),
{
    broadcast use model::group_views;

    let mut pos: usize = 0;
    let scope = match read_scope(plaintext, &mut pos) {
        Some(s) => s,
        None => {
            return Vec::new();
        },
    };
    let conn = find_peer_server(node, conn_id);
    let map = build_local_watermark_map(node, scope);
    seal_to(conn, WATERMARK_PROBE_RESPONSE_OP, serialize_watermark_map(scope, map.as_slice()))
}

/// An entry of a scope that the peer does not have, as far as is known.
pub open spec fn lacking(
    marks: Seq<PeerWatermarksView>,
    peer: Uuid,
    scope: Scope,
) -> spec_fn(WriteLogEntryView) -> bool {
    |e: WriteLogEntryView|
        e.scope == scope && match watermark::mark_with(marks, peer, e.version.writer_sg_uuid) {
            Some(w) => watermark::later(e.version, w),
            None => true,
        }
}

/// The entries that a peer lacks, and the current version of the scope.
pub open spec fn proposal_for(n: NodeView, peer: Uuid, scope: Scope) -> (
    SyncVersion,
    Seq<WriteLogEntryView>,
) {
    (
        n.owner.version(scope),
        model::keep(n.owner.write_log, lacking(n.owner.last_watermarks, peer, scope)),
    )
}

/// The entries that a peer lacks, and the current version of the scope.
pub fn build_merge_proposal_for_peer(node: &Node, peer_uuid: Uuid, scope: Scope) -> (r: (
    SyncVersion,
    Vec<WriteLogEntry>,
))
    ensures
        (r.0, model::views(r.1@)) == proposal_for(node@, peer_uuid, scope),
{
    broadcast use model::group_views;

    let log = &node.owner.write_log;
    let ghost s = node@.owner.write_log;
    let ghost p = lacking(node@.owner.last_watermarks, peer_uuid, scope);
    let mut out: Vec<WriteLogEntry> = Vec::new();
    let mut i: usize = 0;
    assert(model::views(out@) =~= model::keep(s.take(0), p));
    while i < log.len()
        invariant
            i <= log@.len(),
            s == model::views(log@),
            p == lacking(node@.owner.last_watermarks, peer_uuid, scope),
            model::views(out@) == model::keep(s.take(i as int), p),
        decreases log@.len() - i,
    {
        let e = &log[i];
        if e.scope == scope {
            let above = match find_mark_with(
                &node.owner.last_watermarks,
                &peer_uuid,
                &e.version.writer_sg_uuid,
            ) {
                Some(w) => is_later(&e.version, &w),
                None => true,
            };
            if above {
                out.push(e.clone());
            }
        }
        proof {
            model::lemma_keep_step(s, p, i as int);
        }
        i += 1;
    }
    assert(s.take(s.len() as int) =~= s);
    (node.owner.version(scope), out)
}

/// What an answer to a probe leads to: the common marks are kept, and a server
/// gets a proposal of what it lacks.
pub open spec fn probed(
    n: NodeView,
    conn_id: u16,
    scope: Scope,
    peer_map: Seq<(Uuid, SyncVersion)>,
) -> (NodeView, Seq<EffectView>) {
    match sync::session(n, conn_id) {
        None => (n, Seq::empty()),
        Some(conn) => {
            let marks = watermark::agreed(watermark::marks_of(n.owner.write_log, scope), peer_map);
            let m = NodeView {
                owner: OwnerView {
                    last_watermarks: watermark::with_marks(
                        n.owner.last_watermarks,
                        conn.device_uuid,
                        marks,
                    ),
                    ..n.owner
                },
                ..n
            };
            let (v, entries) = proposal_for(m, conn.device_uuid, scope);
            (
                m,
                sync::sealed(
                    peer_server(m, conn_id),
                    MERGE_PROPOSAL_OP,
                    enc_proposal(scope, v, entries),
                ),
            )
        },
    }
}

/// What an answer to a probe leads to, if it can be read.
pub open spec fn probe_taken(n: NodeView, conn_id: u16, d: Seq<u8>) -> (NodeView, Seq<EffectView>) {
    match watermark::parse_marks(d) {
        Some((scope, map)) => probed(n, conn_id, scope, map),
        None => (n, Seq::empty()),
    }
}

/// Takes the answer to a probe. One that cannot be read is dropped.
pub fn watermark_probe_response(node: &mut Node, conn_id: u16, plaintext: &[u8]) -> (r: Vec<Effect>)
    ensures
        (final(node)@, model::views(r@)) == probe_taken(old(node)@, conn_id, plaintext@),
        keys::keyed(old(node)@) ==> keys::keyed(final(node)@),
{
    broadcast use model::group_views;

    proof {
        if keys::keyed(node@) {
            keys::lemma_probed(node@, conn_id, plaintext@);
        }
    }
    let (scope, peer_map) = match parse_watermark_map(plaintext) {
        Some(x) => x,
        None => {
            return Vec::new();
        },
    };
    let conn = match find_session_by_id(node, conn_id) {
        Some(c) => c,
        None => {
            return Vec::new();
        },
    };
    let own = build_local_watermark_map(node, scope);
    let marks = agreed_marks(&own, &peer_map);
    set_peer_marks(&mut node.owner.last_watermarks, conn.device_uuid, marks);
    let (v, entries) = build_merge_proposal_for_peer(node, conn.device_uuid, scope);
    let to = find_peer_server(node, conn_id);
    seal_to(to, MERGE_PROPOSAL_OP, build_merge_proposal_body(scope, v, entries.as_slice()))
}

pub open spec fn proposal_of(peer: Uuid) -> spec_fn(ReceivedProposalView) -> bool {
    |p: ReceivedProposalView| p.peer == peer
}

/// The last proposals, after one more came.
pub open spec fn with_proposal(
    list: Seq<ReceivedProposalView>,
    peer: Uuid,
    entries: Seq<WriteLogEntryView>,
) -> Seq<ReceivedProposalView> {
    match model::first_where(list, proposal_of(peer)) {
        Some(i) => list.update(i, ReceivedProposalView { peer, entries }),
        None => list.push(ReceivedProposalView { peer, entries }),
    }
}

fn clone_log(log: &Vec<WriteLogEntry>) -> (r: Vec<WriteLogEntry>)
    ensures
        model::views(r@) == model::views(log@),
{
    broadcast use model::group_views;

    let mut out: Vec<WriteLogEntry> = Vec::new();
    let ghost s = model::views(log@);
    let mut i: usize = 0;
    while i < log.len()
        invariant
            i <= log@.len(),
            s == model::views(log@),
            model::views(out@) == s.take(i as int),
        decreases log@.len() - i,
    {
        out.push(log[i].clone());
        proof {
            model::lemma_take_push(s, i as int);
        }
        i += 1;
    }
    assert(s.take(s.len() as int) =~= s);
    out
}

/// Keeps the last proposal of a peer.
fn set_proposal(list: &mut Vec<ReceivedProposal>, peer: Uuid, entries: Vec<WriteLogEntry>)
    ensures
        model::views(final(list)@) == with_proposal(
            model::views(old(list)@),
            peer,
            model::views(entries@),
        ),
{
    broadcast use model::group_views;

    let ghost s = model::views(list@);
    let mut i: usize = 0;
    while i < list.len()
        invariant
            i <= list@.len(),
            s == model::views(list@),
            s == model::views(old(list)@),
            forall|j: int| 0 <= j < i ==> !proposal_of(peer)(#[trigger] s[j]),
        decreases list@.len() - i,
    {
        if uuid_eq(&list[i].peer, &peer) {
            proof {
                assert(proposal_of(peer)(s[i as int]));
                model::lemma_first_at(s, proposal_of(peer), i as int);
            }
            list.set(i, ReceivedProposal { peer, entries });
            return;
        }
        i += 1;
    }
    proof {
        model::lemma_first_none(s, proposal_of(peer));
    }
    list.push(ReceivedProposal { peer, entries });
}

pub open spec fn in_scope(scope: Scope) -> spec_fn(WriteLogEntryView) -> bool {
    |e: WriteLogEntryView| e.scope == scope
}

fn log_in_scope(log: &Vec<WriteLogEntry>, scope: Scope) -> (r: Vec<WriteLogEntry>)
    ensures
        model::views(r@) == model::keep(model::views(log@), in_scope(scope)),
{
    broadcast use model::group_views;

    let mut out: Vec<WriteLogEntry> = Vec::new();
    let ghost s = model::views(log@);
    let mut i: usize = 0;
    assert(model::views(out@) =~= model::keep(s.take(0), in_scope(scope)));
    while i < log.len()
        invariant
            i <= log@.len(),
            s == model::views(log@),
            model::views(out@) == model::keep(s.take(i as int), in_scope(scope)),
        decreases log@.len() - i,
    {
        if log[i].scope == scope {
            out.push(log[i].clone());
        }
        proof {
            model::lemma_keep_step(s, in_scope(scope), i as int);
        }
        i += 1;
    }
    assert(s.take(s.len() as int) =~= s);
    out
}

/// The ranks of the servers that have one.
pub open spec fn ranks_of(devices: Seq<DeviceView>) -> Seq<(Uuid, u32)>
    decreases devices.len(),
{
    if devices.len() == 0 {
        Seq::empty()
    } else {
        let rest = ranks_of(devices.drop_last());
        let d = devices.last();
        match d.sg_rank {
            Some(r) => if d.grade == DeviceGrade::SG {
                rest.push((d.uuid, r))
            } else {
                rest
            },
            None => rest,
        }
    }
}

/// The ranks of the servers that have one.
pub fn writer_ranks(devices: &Vec<Device>) -> (r: Vec<(Uuid, u32)>)
    ensures
        r@ == ranks_of(model::views(devices@)),
{
    broadcast use model::group_views;

    let mut out: Vec<(Uuid, u32)> = Vec::new();
    let ghost s = model::views(devices@);
    let mut i: usize = 0;
    assert(s.take(0) =~= Seq::empty());
    while i < devices.len()
        invariant
            i <= devices@.len(),
            s == model::views(devices@),
            out@ == ranks_of(s.take(i as int)),
        decreases devices@.len() - i,
    {
        proof {
            assert(s.take(i + 1).drop_last() =~= s.take(i as int));
            assert(s.take(i + 1).last() == s[i as int]);
        }
        if devices[i].grade == DeviceGrade::SG {
            if let Some(rank) = devices[i].sg_rank {
                out.push((devices[i].uuid, rank));
            }
        }
        i += 1;
    }
    assert(s.take(s.len() as int) =~= s);
    out
}

/// A list of changes made one after the other, those that fail left out, and
/// whether any of them changed something.
pub open spec fn applied_all(o: OwnerView, cs: Seq<ChangeView>) -> (bool, OwnerView)
    decreases cs.len(),
{
    if cs.len() == 0 {
        (false, o)
    } else {
        let (any, p) = applied_all(o, cs.drop_last());
        match apply::applied(p, cs.last()) {
            Some((b, q)) => (any || b, q),
            None => (any, p),
        }
    }
}

/// Changes touch the user's devices and the contacts, and nothing else.
pub proof fn lemma_applied_all_frame(o: OwnerView, cs: Seq<ChangeView>)
    ensures
        ({
            let p = applied_all(o, cs).1;
            p == (OwnerView {
                user: UserView { devices: p.user.devices, ..o.user },
                contact_users: p.contact_users,
                ..o
            })
        }),
    decreases cs.len(),
{
    if cs.len() > 0 {
        lemma_applied_all_frame(o, cs.drop_last());
        let (_, p) = applied_all(o, cs.drop_last());
        apply::law_apply_frame(p, cs.last());
    }
}

fn apply_all(owner: &mut Owner, changes: &Vec<Change>) -> (r: bool)
    ensures
        (r, final(owner)@) == applied_all(old(owner)@, model::views(changes@)),
{
    broadcast use model::group_views;

    let ghost s = model::views(changes@);
    let mut any = false;
    let mut i: usize = 0;
    assert(s.take(0) =~= Seq::empty());
    while i < changes.len()
        invariant
            i <= changes@.len(),
            s == model::views(changes@),
            (any, owner@) == applied_all(old(owner)@, s.take(i as int)),
        decreases changes@.len() - i,
    {
        proof {
            assert(s.take(i + 1).drop_last() =~= s.take(i as int));
            assert(s.take(i + 1).last() == s[i as int]);
        }
        match apply_change_to_owner(owner, &changes[i]) {
            Ok(b) => {
                any = any || b;
            },
            Err(_) => {},
        }
        i += 1;
    }
    assert(s.take(s.len() as int) =~= s);
    any
}

/// The writer that a merge is stamped with: the best ranked server that can be
/// reached, or else this node.
pub open spec fn merge_writer(n: NodeView) -> Uuid {
    match routing::pull_source(n) {
        WriterTarget::Remote(u) => u,
        _ => n.device_uuid,
    }
}

/// What is left to do to take a proposal over: the changes.
pub open spec fn merge_changes(
    o: OwnerView,
    scope: Scope,
    entries: Seq<WriteLogEntryView>,
) -> Seq<ChangeView> {
    let local = model::keep(o.write_log, in_scope(scope));
    if merge::news(local, entries).len() == 0 {
        Seq::empty()
    } else {
        merge::difference(
            merge::claims_of(local),
            merge::claims_of(merge::merged(local, entries)),
            ranks_of(o.user.devices),
        )
    }
}

/// The state after a proposal of another server of the user was taken over,
/// and whether anything but the log changed. The new entries join the log as
/// they are, the changes they call for are made, and the version moves once.
pub open spec fn merged_in(
    n: NodeView,
    peer: Uuid,
    scope: Scope,
    entries: Seq<WriteLogEntryView>,
    now: u64,
    retention: u64,
) -> (bool, NodeView) {
    let local = model::keep(n.owner.write_log, in_scope(scope));
    let o = OwnerView {
        received_merge_proposals: with_proposal(n.owner.received_merge_proposals, peer, entries),
        write_log: sync::pruned(
            n.owner.write_log + merge::news(local, entries),
            now,
            retention,
        ),
        ..n.owner
    };
    let (any, p) = applied_all(o, merge_changes(n.owner, scope, entries));
    let m = NodeView { owner: p, ..n };
    (
        any,
        if any {
            NodeView { owner: p.with_bump(scope, merge_writer(m)), ..n }
        } else {
            m
        },
    )
}

/// What a proposal leads to.
pub open spec fn proposed(
    n: NodeView,
    conn_id: u16,
    scope: Scope,
    entries: Seq<WriteLogEntryView>,
    now: u64,
    retention: u64,
) -> (NodeView, Seq<EffectView>) {
    match sync::session(n, conn_id) {
        None => (n, Seq::empty()),
        Some(conn) => if !sync::is_own_sg(n.owner, conn.device_uuid) {
            (
                n,
                seq![
                    EffectView::Seal {
                        conn,
                        op: MERGE_ACK_OP,
                        body: enc_merge_ack(
                            scope,
                            SyncVersion::spec_zero(),
                            MERGE_ACK_RESULT_MALFORMED,
                        ),
                    },
                ],
            )
        } else {
            let local = model::keep(n.owner.write_log, in_scope(scope));
            let (any, m) = merged_in(n, conn.device_uuid, scope, entries, now, retention);
            let save = if any || merge::news(local, entries).len() > 0 {
                seq![EffectView::Save]
            } else {
                Seq::empty()
            };
            let own = if any {
                sync::own_notices(
                    m,
                    seq![scope],
                    m.owner.private_version,
                    m.owner.public_version,
                )
            } else {
                Seq::empty()
            };
            let others = if any && scope == Scope::Public {
                sync::contact_notices(m, m.owner.contact_users, m.owner.public_version)
            } else {
                Seq::empty()
            };
            (
                m,
                save + own + others + seq![
                    EffectView::Seal {
                        conn,
                        op: MERGE_ACK_OP,
                        body: enc_merge_ack(
                            scope,
                            m.owner.version(scope),
                            MERGE_ACK_RESULT_APPLIED,
                        ),
                    },
                ],
            )
        },
    }
}

/// What a proposal leads to, if it can be read.
pub open spec fn proposal_taken(
    n: NodeView,
    conn_id: u16,
    d: Seq<u8>,
    now: u64,
    retention: u64,
) -> (NodeView, Seq<EffectView>) {
    match parse_proposal(d) {
        Some((scope, _, entries)) => proposed(n, conn_id, scope, entries, now, retention),
        None => (n, Seq::empty()),
    }
}

/// Takes a proposal from a peer: merges the log, makes the changes that it
/// calls for, tells others and acknowledges. A proposal that cannot be read is
/// dropped, one that does not come from a server of the user is refused.
pub fn merge_proposal(
    node: &mut Node,
    conn_id: u16,
    plaintext: &[u8],
    now: u64,
    retention: u64,
) -> (r: Vec<Effect>)
    requires
        old(node).owner.public_version.room(1),
        old(node).owner.private_version.room(1),
    ensures
        (final(node)@, model::views(r@)) == proposal_taken(
            old(node)@,
            conn_id,
            plaintext@,
            now,
            retention,
        ),
        keys::keyed(old(node)@) ==> keys::keyed(final(node)@),
{
    broadcast use model::group_views;

    proof {
        if let Some((scope, _, entries)) = parse_proposal(plaintext@) {
            if keys::keyed(node@) {
                keys::lemma_proposed(node@, conn_id, scope, entries, now, retention);
            }
        }
    }
    let (scope, entries) = match parse_merge_proposal_body(plaintext) {
        Some((s, _, e)) => (s, e),
        None => {
            return Vec::new();
        },
    };
    let conn = match find_session_by_id(node, conn_id) {
        Some(c) => c,
        None => {
            return Vec::new();
        },
    };
    let mut out: Vec<Effect> = Vec::new();
    if !is_own_user_sg(&node.owner, &conn.device_uuid) {
        let body = build_merge_ack_body(scope, SyncVersion::zero(), MERGE_ACK_RESULT_MALFORMED);
        out.push(Effect::Seal { conn, op: MERGE_ACK_OP, body });
        assert(model::views(out@) =~= proposed(
            old(node)@,
            conn_id,
            scope,
            model::views(entries@),
            now,
            retention,
        ).1);
        return out;
    }
    let ghost es = model::views(entries@);
    let ghost n = node@;
    let kept = clone_log(&entries);
    set_proposal(&mut node.owner.received_merge_proposals, conn.device_uuid, kept);
    let local = log_in_scope(&node.owner.write_log, scope);
    let ranks = writer_ranks(&node.owner.user.devices);
    let found = merge_logs(local.as_slice(), entries.as_slice(), &ranks);
    let fresh: bool = found.new_entries.len() > 0;
    let mut new_entries = found.new_entries;
    let ghost news = model::views(new_entries@);
    proof {
        assert(model::views(found.changes_to_apply@) =~= merge_changes(n.owner, scope, es));
    }
    node.owner.write_log.append(&mut new_entries);
    assert(model::views(node.owner.write_log@) =~= n.owner.write_log + news);
    prune_log(&mut node.owner.write_log, now, retention);
    proof {
        lemma_applied_all_frame(node@.owner, merge_changes(n.owner, scope, es));
    }
    let any = apply_all(&mut node.owner, &found.changes_to_apply);
    if any {
        let w = match find_pull_source(node) {
            WriterTarget::Remote(u) => u,
            WriterTarget::Local => node.device_uuid,
            WriterTarget::Unreachable => node.device_uuid,
        };
        node.owner.bump_version(scope, w);
    }
    assert((any, node@) == merged_in(n, conn.device_uuid, scope, es, now, retention));
    if fresh || any {
        out.push(Effect::Save);
    }
    if any {
        let mut scopes: Vec<Scope> = Vec::new();
        scopes.push(scope);
        assert(scopes@ =~= seq![scope]);
        let private = node.owner.private_version;
        let public = node.owner.public_version;
        push_all(&mut out, notify_own_peers(node, &scopes, private, public));
        if scope == Scope::Public {
            push_all(&mut out, notify_contacts(node, public));
        }
    }
    let body = build_merge_ack_body(scope, node.owner.version(scope), MERGE_ACK_RESULT_APPLIED);
    out.push(Effect::Seal { conn, op: MERGE_ACK_OP, body });
    assert(model::views(out@) =~= proposed(n, conn_id, scope, es, now, retention).1);
    out
}

/// A proposal that holds nothing new changes nothing but what is remembered of
/// it and what has grown too old.
pub proof fn law_known_proposal(
    n: NodeView,
    peer: Uuid,
    scope: Scope,
    entries: Seq<WriteLogEntryView>,
    now: u64,
    retention: u64,
)
    requires
        forall|i: int|
            0 <= i < entries.len() ==> model::any_where(
                model::keep(n.owner.write_log, in_scope(scope)),
                merge::at_version((#[trigger] entries[i]).version),
            ),
    ensures
        merged_in(n, peer, scope, entries, now, retention) == (
            false,
            NodeView {
                owner: OwnerView {
                    received_merge_proposals: with_proposal(
                        n.owner.received_merge_proposals,
                        peer,
                        entries,
                    ),
                    write_log: sync::pruned(n.owner.write_log, now, retention),
                    ..n.owner
                },
                ..n
            },
        ),
{
    let local = model::keep(n.owner.write_log, in_scope(scope));
    merge::law_merge_known(local, entries);
    assert(n.owner.write_log + merge::news(local, entries) =~= n.owner.write_log);
}

/// A merge moves the version of its scope by one step, or not at all.
pub proof fn law_merge_bumps_once(
    n: NodeView,
    peer: Uuid,
    scope: Scope,
    entries: Seq<WriteLogEntryView>,
    now: u64,
    retention: u64,
)
    ensures
        ({
            let (any, m) = merged_in(n, peer, scope, entries, now, retention);
            &&& !any ==> m.owner.public_version == n.owner.public_version
                && m.owner.private_version == n.owner.private_version
            &&& any ==> exists|w: Uuid|
                m.owner.version(scope) == #[trigger] n.owner.version(scope).bumped(w)
        }),
{
    let local = model::keep(n.owner.write_log, in_scope(scope));
    let o = OwnerView {
        received_merge_proposals: with_proposal(n.owner.received_merge_proposals, peer, entries),
        write_log: sync::pruned(
            n.owner.write_log + merge::news(local, entries),
            now,
            retention,
        ),
        ..n.owner
    };
    let cs = merge_changes(n.owner, scope, entries);
    lemma_applied_all_frame(o, cs);
    let (any, p) = applied_all(o, cs);
    if any {
        let m = NodeView { owner: p, ..n };
        assert(merged_in(n, peer, scope, entries, now, retention).1.owner.version(scope)
            == n.owner.version(scope).bumped(merge_writer(m)));
    }
}

/// Nothing that the peer cannot have is withheld: an entry later than all that
/// the peer has of its writer is in the proposal that answers the peer's marks.
pub proof fn law_nothing_withheld(
    n: NodeView,
    conn_id: u16,
    scope: Scope,
    peer_log: Seq<WriteLogEntryView>,
    e: WriteLogEntryView,
)
    requires
        sync::session(n, conn_id) is Some,
        n.owner.write_log.contains(e),
        e.scope == scope,
        watermark::later(e.version, watermark::origin(e.version.writer_sg_uuid)),
        forall|k: int|
            0 <= k < peer_log.len() && watermark::written_by(e.version.writer_sg_uuid, scope)(
                #[trigger] peer_log[k],
            ) ==> watermark::later(e.version, peer_log[k].version),
    ensures
        ({
            let peer = sync::session(n, conn_id)->0.device_uuid;
            let m = probed(n, conn_id, scope, watermark::marks_of(peer_log, scope)).0;
            proposal_for(m, peer, scope).1.contains(e)
        }),
{
    let peer = sync::session(n, conn_id)->0.device_uuid;
    let w = e.version.writer_sg_uuid;
    let own = watermark::marks_of(n.owner.write_log, scope);
    let theirs = watermark::marks_of(peer_log, scope);
    let m = probed(n, conn_id, scope, theirs).0;
    let list = n.owner.last_watermarks;
    let marks = watermark::agreed(own, theirs);
    let after = watermark::with_marks(list, peer, marks);
    assert(m.owner.last_watermarks == after);
    assert(m.owner.write_log == n.owner.write_log);
    watermark::lemma_marks_keyed(n.owner.write_log, scope);
    watermark::lemma_marks_keyed(peer_log, scope);
    watermark::law_agreed_within_peer(own, theirs, w);
    watermark::law_marks_are_latest(peer_log, scope, w);
    model::lemma_first_where(list, watermark::marks_for(peer));
    let at = match model::first_where(list, watermark::marks_for(peer)) {
        Some(i) => i,
        None => list.len() as int,
    };
    assert(after[at].marks == marks);
    assert forall|k: int| 0 <= k < at implies !watermark::marks_for(peer)(#[trigger] after[k]) by {
        assert(!watermark::marks_for(peer)(list[k]));
    }
    assert(watermark::marks_for(peer)(after[at]));
    model::lemma_first_at(after, watermark::marks_for(peer), at);
    model::lemma_first_where(marks, watermark::version_by(w));
    assert(lacking(after, peer, scope)(e));
    model::lemma_keep_contains(n.owner.write_log, lacking(after, peer, scope), e);
}

/// What a server lacks reaches it: such an entry, still within its time, is in
/// the server's log once it has taken the proposal over.
pub proof fn law_entry_reaches_peer(
    n: NodeView,
    conn_id: u16,
    scope: Scope,
    p: NodeView,
    from: Uuid,
    e: WriteLogEntryView,
    now: u64,
    retention: u64,
)
    requires
        sync::session(n, conn_id) is Some,
        n.owner.write_log.contains(e),
        e.scope == scope,
        watermark::later(e.version, watermark::origin(e.version.writer_sg_uuid)),
        forall|k: int|
            0 <= k < p.owner.write_log.len() && watermark::written_by(
                e.version.writer_sg_uuid,
                scope,
            )(#[trigger] p.owner.write_log[k]) ==> watermark::later(
                e.version,
                p.owner.write_log[k].version,
            ),
        e.committed_at + retention >= now,
    ensures
        ({
            let peer = sync::session(n, conn_id)->0.device_uuid;
            let m = probed(n, conn_id, scope, watermark::marks_of(p.owner.write_log, scope)).0;
            let entries = proposal_for(m, peer, scope).1;
            merged_in(p, from, scope, entries, now, retention).1.owner.write_log.contains(e)
        }),
{
    let peer = sync::session(n, conn_id)->0.device_uuid;
    let m = probed(n, conn_id, scope, watermark::marks_of(p.owner.write_log, scope)).0;
    let entries = proposal_for(m, peer, scope).1;
    let log = p.owner.write_log;
    let local = model::keep(log, in_scope(scope));
    law_nothing_withheld(n, conn_id, scope, log, e);
    assert forall|k: int| 0 <= k < local.len() implies !merge::at_version(e.version)(
        #[trigger] local[k],
    ) by {
        let x = local[k];
        assert(local.contains(x));
        model::lemma_keep_contains(log, in_scope(scope), x);
        let j = choose|j: int| 0 <= j < log.len() && log[j] == x;
        if x.version == e.version {
            assert(watermark::written_by(e.version.writer_sg_uuid, scope)(log[j]));
        }
    }
    assert(merge::unknown_to(local)(e));
    model::lemma_keep_contains(entries, merge::unknown_to(local), e);
    let fresh = merge::news(local, entries);
    let i = choose|i: int| 0 <= i < fresh.len() && fresh[i] == e;
    assert((log + fresh)[log.len() + i] == e);
    sync::law_log_keeps_its_time(log + fresh, e, now, retention);
    let o = OwnerView {
        received_merge_proposals: with_proposal(p.owner.received_merge_proposals, from, entries),
        write_log: sync::pruned(log + fresh, now, retention),
        ..p.owner
    };
    lemma_applied_all_frame(o, merge_changes(p.owner, scope, entries));
}

/// A client never begins to reconcile, whatever sessions it has.
pub proof fn law_client_never_probes(n: NodeView, conns: Seq<ActiveConnection>)
    requires
        !sync::is_own_sg(n.owner, n.device_uuid),
    ensures
        probes(n, conns) == Seq::<EffectView>::empty(),
    decreases conns.len(),
{
    if conns.len() > 0 {
        law_client_never_probes(n, conns.drop_last());
        assert(peer_server(n, conns.last().id) is None);
        assert(probes(n, conns) =~= Seq::empty());
    }
}

} // verus!
