//! Watermarks and merging after a partition.
use pnet::change::{deserialize_change, serialize_change, Change};
use pnet::device_wire::ContactDeviceCard;
use pnet::effects::Effect;
use pnet::merge::{merge_logs, MergeOutput};
use pnet::reconcile::{
    build_merge_ack_body, build_merge_proposal_body, build_merge_proposal_for_peer, merge_ack,
    merge_proposal, parse_merge_ack_body, parse_merge_proposal_body, partition_reconcile_on_reconnect,
    partition_reconcile_tick, watermark_probe_request, watermark_probe_response, writer_ranks,
    MergeResult,
};
use pnet::types::{
    ActiveConnection, Device, DeviceGrade, HostAddr, Ipv4, KeyPair, Node, PeerAddr, PeerWatermarks,
    Scope, SyncVersion, Uuid, WriteLogEntry,
};
use pnet::watermark::{
    agreed_marks, build_local_watermark_map, is_later, parse_watermark_map, serialize_watermark_map,
};
use pnet::wire::{
    write_scope, MERGE_ACK_OP, MERGE_ACK_RESULT_APPLIED, MERGE_ACK_RESULT_MALFORMED,
    MERGE_ACK_RESULT_RETENTION_EXHAUSTED, MERGE_PROPOSAL_OP, WATERMARK_PROBE_REQUEST_OP,
    WATERMARK_PROBE_RESPONSE_OP,
};

const NOW: u64 = 1_700_000_000;
const RETENTION: u64 = 30 * 86_400;
const LOCAL: Uuid = [0x10; 16];
const PEER: Uuid = [0x60; 16];

fn version(writer: Uuid, epoch: u32, seq: u64) -> SyncVersion {
    SyncVersion { writer_sg_uuid: writer, epoch, seq }
}

fn app_uuid(seed: u16) -> Uuid {
    let mut u = [0u8; 16];
    u[14..16].copy_from_slice(&seed.to_be_bytes());
    u
}

fn conn(id: u16, device_uuid: Uuid) -> ActiveConnection {
    ActiveConnection {
        id,
        timeout: NOW + 3600,
        key_pair: KeyPair { public_key: [1; 32], private_key: [2; 32] },
        peer_public_key: [9; 32],
        peer_active_connection_id: 99,
        device_uuid,
        peer_addr: PeerAddr::V4(HostAddr { ip: Ipv4 { a: 127, b: 0, c: 0, d: 1 }, port: 4005 }),
    }
}

fn device(uuid: Uuid, alias: &str, grade: DeviceGrade, sg_rank: Option<u32>) -> Device {
    Device {
        uuid,
        alias: alias.to_string(),
        grade,
        sg_rank,
        hosts: Vec::new(),
        applications: Vec::new(),
    }
}

fn promote(n: &mut Node, uuid: Uuid, rank: u32) {
    let d = n.owner.user.devices.iter_mut().find(|d| d.uuid == uuid).unwrap();
    d.grade = DeviceGrade::SG;
    d.sg_rank = Some(rank);
}

/// A server of rank 1 with a session (id 5) to another of the user's devices.
fn writer_with_peer() -> Node {
    let mut n = Node::new(LOCAL, [0x20; 16]);
    promote(&mut n, LOCAL, 1);
    n.owner.user.devices.push(device(PEER, "peer-dg", DeviceGrade::DG, None));
    n.owner.active_connections.push(conn(5, PEER));
    n
}

fn sealed(e: &[Effect]) -> Vec<(u8, Vec<u8>)> {
    e.iter()
        .filter_map(|x| match x {
            Effect::Seal { op, body, .. } => Some((*op, body.clone())),
            _ => None,
        })
        .collect()
}

fn only_sealed(e: &[Effect], op: u8) -> Vec<u8> {
    let s: Vec<_> = sealed(e).into_iter().filter(|x| x.0 == op).collect();
    assert_eq!(s.len(), 1);
    s[0].1.clone()
}

fn entry(writer: Uuid, epoch: u32, seq: u64, scope: Scope, payload: &[u8]) -> WriteLogEntry {
    WriteLogEntry {
        version: version(writer, epoch, seq),
        scope,
        change_payload: payload.to_vec(),
        committed_at: NOW,
    }
}

fn sample_entry(writer: Uuid, epoch: u32, seq: u64, payload: &[u8]) -> WriteLogEntry {
    entry(writer, epoch, seq, Scope::Public, payload)
}

fn change_entry(writer: Uuid, epoch: u32, seq: u64, change: &Change) -> WriteLogEntry {
    sample_entry(writer, epoch, seq, &serialize_change(change))
}

// Watermarks.

fn probe() -> Vec<u8> {
    let mut body = Vec::new();
    write_scope(&mut body, Scope::Public);
    body
}

#[test]
fn watermark_probe_request_replies_with_empty_map_when_log_is_empty() {
    let mut n = writer_with_peer();
    promote(&mut n, PEER, 2);
    let e = watermark_probe_request(&n, 5, &probe());
    let body = only_sealed(&e, WATERMARK_PROBE_RESPONSE_OP);
    let (scope, map) = parse_watermark_map(&body).unwrap();
    assert_eq!(scope, Scope::Public);
    assert!(map.is_empty());
}

#[test]
fn watermark_probe_request_reports_max_per_writer_in_log() {
    let mut n = writer_with_peer();
    promote(&mut n, PEER, 2);
    let w1: Uuid = [0x11; 16];
    let w2: Uuid = [0x22; 16];
    for seq in 1..=5u64 {
        n.owner.write_log.push(sample_entry(w1, 1, seq, &[]));
    }
    n.owner.write_log.push(sample_entry(w2, 3, 7, &[]));
    n.owner.write_log.push(entry(w1, 99, 99, Scope::Private, &[]));
    let e = watermark_probe_request(&n, 5, &probe());
    let (scope, map) = parse_watermark_map(&only_sealed(&e, WATERMARK_PROBE_RESPONSE_OP)).unwrap();
    assert_eq!(scope, Scope::Public);
    assert_eq!(map.len(), 2);
    let v1 = map.iter().find(|(w, _)| *w == w1).expect("w1 present").1;
    let v2 = map.iter().find(|(w, _)| *w == w2).expect("w2 present").1;
    assert_eq!((v1.epoch, v1.seq), (1, 5));
    assert_eq!((v2.epoch, v2.seq), (3, 7));
}

#[test]
fn a_probe_from_a_client_is_not_answered() {
    let n = writer_with_peer();
    assert!(watermark_probe_request(&n, 5, &probe()).is_empty());
}

#[test]
fn dg_does_not_initiate_partition_reconcile_against_own_sg() {
    let mut n = Node::new(LOCAL, [0x20; 16]);
    n.owner.user.devices.push(device(PEER, "own-sg", DeviceGrade::SG, Some(1)));
    n.owner.active_connections.push(conn(7, PEER));
    assert!(partition_reconcile_on_reconnect(&n, 7).is_empty());
    assert!(partition_reconcile_tick(&n).is_empty());
}

#[test]
fn partition_reconcile_tick_probes_only_own_user_sg_peers() {
    let mut n = writer_with_peer();
    assert!(partition_reconcile_tick(&n).is_empty(), "a client peer is not probed");
    promote(&mut n, PEER, 2);
    only_sealed(&partition_reconcile_tick(&n), WATERMARK_PROBE_REQUEST_OP);
    only_sealed(&partition_reconcile_on_reconnect(&n, 5), WATERMARK_PROBE_REQUEST_OP);
}

fn mark(marks: &[SyncVersion], w: Uuid) -> (u32, u64) {
    let m = marks.iter().find(|m| m.writer_sg_uuid == w).unwrap();
    (m.epoch, m.seq)
}

#[test]
fn watermark_probe_response_stores_per_writer_min_in_last_watermarks() {
    let mut n = writer_with_peer();
    let (w1, w2, w3, w4) = ([0x11; 16], [0x22; 16], [0x33; 16], [0x44; 16]);
    n.owner.write_log.push(sample_entry(w1, 1, 10, &[]));
    n.owner.write_log.push(sample_entry(w3, 2, 3, &[]));
    n.owner.write_log.push(sample_entry(w4, 7, 1, &[]));
    let peer_map =
        vec![(w1, version(w1, 1, 4)), (w2, version(w2, 5, 1)), (w3, version(w3, 2, 9))];
    let body = serialize_watermark_map(Scope::Public, &peer_map);
    watermark_probe_response(&mut n, 5, &body);
    let stored = n.owner.last_watermarks.iter().find(|p| p.peer == PEER).expect("entry for peer");
    assert_eq!(mark(&stored.marks, w1), (1, 4));
    assert_eq!(mark(&stored.marks, w2), (0, 0));
    assert_eq!(mark(&stored.marks, w3), (2, 3));
    assert_eq!(mark(&stored.marks, w4), (0, 0));
}

#[test]
fn an_agreed_watermark_is_answered_with_a_proposal() {
    let mut n = writer_with_peer();
    promote(&mut n, PEER, 2);
    n.owner.write_log.push(sample_entry([0x11; 16], 1, 1, &[0xAA]));
    let e = watermark_probe_response(&mut n, 5, &serialize_watermark_map(Scope::Public, &[]));
    let body = only_sealed(&e, MERGE_PROPOSAL_OP);
    let (_, _, entries) = parse_merge_proposal_body(&body).unwrap();
    assert_eq!(entries.len(), 1);
}

#[test]
fn watermarks_are_ordered_by_epoch_and_then_by_count() {
    let w = [1; 16];
    assert!(is_later(&version(w, 2, 1), &version(w, 1, 9)));
    assert!(is_later(&version(w, 1, 2), &version(w, 1, 1)));
    assert!(!is_later(&version(w, 1, 1), &version(w, 1, 1)));
    let marks = agreed_marks(&vec![(w, version(w, 1, 9))], &vec![(w, version(w, 2, 1))]);
    assert_eq!(mark(&marks, w), (1, 9));
}

#[test]
fn a_written_watermark_map_is_read_back() {
    let map = vec![([1; 16], version([1; 16], 4, 5)), ([2; 16], version([2; 16], 6, 7))];
    let body = serialize_watermark_map(Scope::Private, &map);
    assert_eq!(parse_watermark_map(&body), Some((Scope::Private, map)));
    assert!(parse_watermark_map(&body[..body.len() - 1]).is_none());
    let mut n = writer_with_peer();
    n.owner.write_log.push(entry([7; 16], 2, 3, Scope::Private, &[]));
    assert_eq!(build_local_watermark_map(&n, Scope::Private), vec![([7; 16], version([7; 16], 2, 3))]);
    assert!(build_local_watermark_map(&n, Scope::Public).is_empty());
}

// Proposals.

#[test]
fn merge_proposal_body_roundtrips() {
    let sender = version([0xAA; 16], 2, 17);
    let entries = vec![
        sample_entry([0x11; 16], 1, 4, &[0xCA, 0xFE]),
        sample_entry([0x22; 16], 3, 9, b"hello"),
    ];
    let body = build_merge_proposal_body(Scope::Public, sender, &entries);
    let (scope, back, parsed) = parse_merge_proposal_body(&body).expect("parse");
    assert_eq!(scope, Scope::Public);
    assert_eq!(back, sender);
    assert_eq!(parsed.len(), 2);
    assert_eq!(parsed[0].version, entries[0].version);
    assert_eq!(parsed[0].change_payload, entries[0].change_payload);
    assert_eq!(parsed[1].version, entries[1].version);
    assert_eq!(parsed[1].change_payload, entries[1].change_payload);
}

#[test]
fn merge_ack_body_roundtrips() {
    let v = version([0xBB; 16], 7, 42);
    let body = build_merge_ack_body(Scope::Public, v, MERGE_ACK_RESULT_APPLIED);
    let (scope, parsed, result) = parse_merge_ack_body(&body).expect("parse");
    assert_eq!(scope, Scope::Public);
    assert_eq!(parsed, v);
    assert_eq!(result, MERGE_ACK_RESULT_APPLIED);
}

#[test]
fn an_ack_says_how_the_merge_went() {
    let v = version([0xBB; 16], 7, 42);
    let read = |r: u8| merge_ack(&build_merge_ack_body(Scope::Public, v, r)).unwrap().2;
    assert!(matches!(read(MERGE_ACK_RESULT_APPLIED), MergeResult::Applied));
    assert!(matches!(read(MERGE_ACK_RESULT_RETENTION_EXHAUSTED), MergeResult::RetentionExhausted));
    assert!(matches!(read(MERGE_ACK_RESULT_MALFORMED), MergeResult::Malformed));
    assert!(matches!(read(200), MergeResult::Unknown));
    assert!(merge_ack(&[]).is_none());
}

fn propose(n: &mut Node, sender: SyncVersion, entries: &[WriteLogEntry]) -> Vec<Effect> {
    let body = build_merge_proposal_body(Scope::Public, sender, entries);
    merge_proposal(n, 5, &body, NOW, RETENTION)
}

fn ack_result(e: &[Effect]) -> u8 {
    parse_merge_ack_body(&only_sealed(e, MERGE_ACK_OP)).unwrap().2
}

#[test]
fn merge_proposal_rejects_non_own_user_sg_peer() {
    let mut n = writer_with_peer();
    let e = propose(&mut n, version([0x11; 16], 1, 1), &[]);
    assert_eq!(ack_result(&e), MERGE_ACK_RESULT_MALFORMED);
}

fn add_device(uuid: Uuid, alias: &str) -> Change {
    Change::AddDevice {
        uuid,
        alias: alias.to_string(),
        grade: DeviceGrade::DG,
        sg_rank: None,
        hosts: Vec::new(),
    }
}

fn add_app(device_uuid: Uuid, app_id: Uuid, alias: &str) -> Change {
    Change::AddApplication { device_uuid, app_id, app_alias: alias.to_string() }
}

fn rename(device_uuid: Uuid, app_id: Uuid, alias: &str) -> Change {
    Change::UpdateApplicationAlias { device_uuid, app_id, new_alias: alias.to_string() }
}

fn remove(device_uuid: Uuid, app_id: Uuid) -> Change {
    Change::RemoveApplication { device_uuid, app_id }
}

#[test]
fn merge_proposal_applies_changes_appends_log_bumps_version_and_acks() {
    let mut n = writer_with_peer();
    promote(&mut n, PEER, 2);
    let w = [0xC0; 16];
    let added = [0xDE; 16];
    let entries = vec![
        change_entry(w, 1, 1, &add_device(added, "peer-dev")),
        change_entry(w, 1, 2, &add_app(added, app_uuid(909), "remote-app")),
    ];
    let before = n.owner.public_version;
    let e = propose(&mut n, version(w, 1, 2), &entries);
    let d = n.owner.user.devices.iter().find(|d| d.uuid == added).expect("AddDevice applied");
    assert!(d.applications.iter().any(|a| a.id == app_uuid(909) && a.alias == "remote-app"));
    assert_eq!(n.owner.write_log.len(), 2, "both peer entries appended");
    assert_ne!(n.owner.public_version, before);
    assert_eq!(ack_result(&e), MERGE_ACK_RESULT_APPLIED);
}

#[test]
fn merge_proposal_upsert_contact_reaches_non_writer_sg() {
    let mut n = writer_with_peer();
    promote(&mut n, PEER, 2);
    let w = [0xC0; 16];
    let contact = [0xCA; 16];
    let contact_dev = [0xDE; 16];
    let card = ContactDeviceCard {
        uuid: contact_dev,
        alias: "chad-phone".to_string(),
        grade: DeviceGrade::DG,
        sg_rank: None,
        hosts: Vec::new(),
        apps: vec![(app_uuid(909), "chess".to_string())],
    };
    let c = Change::UpsertContact {
        uuid: contact,
        alias: "chad".to_string(),
        public_key: [0x77; 32],
        devices: vec![card],
    };
    assert!(n.owner.contact_users.is_empty());
    propose(&mut n, version(w, 1, 1), &[change_entry(w, 1, 1, &c)]);
    let got = n.owner.contact_users.iter().find(|c| c.user.uuid == contact).expect("contact created");
    assert_eq!(got.user.alias, "chad");
    assert_eq!(got.public_key, [0x77; 32]);
    let d = got.user.devices.iter().find(|d| d.uuid == contact_dev).expect("device propagates");
    assert!(d.applications.iter().any(|a| a.id == app_uuid(909) && a.alias == "chess"));
    let logged = n
        .owner
        .write_log
        .iter()
        .filter(|e| matches!(deserialize_change(&e.change_payload), Some(Change::UpsertContact { .. })))
        .count();
    assert_eq!(logged, 1);
}

#[test]
fn merge_proposal_no_op_when_peer_entries_already_known() {
    let mut n = writer_with_peer();
    promote(&mut n, PEER, 2);
    let w = [0xC1; 16];
    let c = add_device([0xAB; 16], "already-known");
    n.owner.write_log.push(change_entry(w, 1, 1, &c));
    n.owner.user.devices.push(device([0xAB; 16], "already-known", DeviceGrade::DG, None));
    let before = n.owner.public_version;
    let e = propose(&mut n, version(w, 1, 1), &[change_entry(w, 1, 1, &c)]);
    assert_eq!(n.owner.public_version, before, "no state change, no version bump");
    assert_eq!(n.owner.write_log.len(), 1);
    assert_eq!(ack_result(&e), MERGE_ACK_RESULT_APPLIED);
}

#[test]
fn merge_bump_stamps_elected_rank1_writer_not_local() {
    let mut n = writer_with_peer();
    promote(&mut n, LOCAL, 2);
    promote(&mut n, PEER, 1);
    n.owner.public_version = version(LOCAL, 2, 3);
    let added = [0xDE; 16];
    let entries = vec![change_entry(PEER, 1, 1, &add_device(added, "golden-dev"))];
    propose(&mut n, version(PEER, 1, 1), &entries);
    assert!(n.owner.user.devices.iter().any(|d| d.uuid == added));
    assert_eq!(n.owner.public_version.writer_sg_uuid, PEER);
    assert_ne!(n.owner.public_version.writer_sg_uuid, LOCAL);
}

#[test]
fn build_merge_proposal_for_peer_filters_against_last_watermarks() {
    let mut n = writer_with_peer();
    let (w1, w2) = ([0x11; 16], [0x22; 16]);
    n.owner.write_log.push(sample_entry(w1, 1, 1, &[0xAA]));
    n.owner.write_log.push(sample_entry(w1, 1, 2, &[0xBB]));
    n.owner.write_log.push(sample_entry(w2, 5, 1, &[0xCC]));
    n.owner.last_watermarks.push(PeerWatermarks { peer: PEER, marks: vec![version(w1, 1, 1)] });
    let (_, entries) = build_merge_proposal_for_peer(&n, PEER, Scope::Public);
    assert_eq!(entries.len(), 2);
    assert!(entries.iter().any(|e| e.change_payload == vec![0xBB]));
    assert!(entries.iter().any(|e| e.change_payload == vec![0xCC]));
    assert!(entries.iter().all(|e| e.change_payload != vec![0xAA]));
}

#[test]
fn servers_have_ranks() {
    let mut n = writer_with_peer();
    assert_eq!(writer_ranks(&n.owner.user.devices), vec![(LOCAL, 1)]);
    promote(&mut n, PEER, 2);
    assert_eq!(writer_ranks(&n.owner.user.devices).len(), 2);
}

// The merge of two logs.

const WA: Uuid = [0xA1; 16];
const WB: Uuid = [0xB2; 16];
const DEV_A: Uuid = [0xD0; 16];
const DEV_B: Uuid = [0xD1; 16];

fn merge(local: &[WriteLogEntry], peer: &[WriteLogEntry], ranks: &[(Uuid, u32)]) -> MergeOutput {
    merge_logs(local, peer, &ranks.to_vec())
}

#[test]
fn merge_logs_empty_inputs_produce_nothing() {
    let out = merge(&[], &[], &[]);
    assert!(out.new_entries.is_empty());
    assert!(out.changes_to_apply.is_empty());
}

#[test]
fn merge_logs_idempotent_when_peer_already_in_local() {
    let c = add_device(DEV_A, "phone");
    let out = merge(&[change_entry(WA, 1, 1, &c)], &[change_entry(WA, 1, 1, &c)], &[]);
    assert!(out.new_entries.is_empty());
    assert!(out.changes_to_apply.is_empty());
}

#[test]
fn merge_logs_unions_adds_from_both_sides() {
    let local = [change_entry(WA, 1, 1, &add_device(DEV_A, "a"))];
    let peer = [change_entry(WB, 1, 1, &add_device(DEV_B, "b"))];
    let out = merge(&local, &peer, &[]);
    assert_eq!(out.new_entries.len(), 1);
    assert_eq!(out.changes_to_apply.len(), 1);
    assert!(matches!(&out.changes_to_apply[0], Change::AddDevice { alias, .. } if alias == "b"));
}

#[test]
fn merge_logs_peer_tombstone_removes_local_app() {
    let app = app_uuid(101);
    let local = [
        change_entry(WA, 1, 1, &add_device(DEV_A, "phone")),
        change_entry(WA, 1, 2, &add_app(DEV_A, app, "chess")),
    ];
    let peer = [change_entry(WB, 5, 1, &remove(DEV_A, app))];
    let out = merge(&local, &peer, &[]);
    assert_eq!(out.new_entries.len(), 1);
    assert_eq!(out.changes_to_apply, vec![remove(DEV_A, app)]);
}

#[test]
fn merge_logs_local_tombstone_keeps_peer_add_from_winning() {
    let app = app_uuid(202);
    let local = [
        change_entry(WA, 1, 1, &add_device(DEV_A, "phone")),
        change_entry(WA, 1, 2, &add_app(DEV_A, app, "chess")),
        change_entry(WA, 1, 3, &remove(DEV_A, app)),
    ];
    let peer = [change_entry(WB, 9, 9, &add_app(DEV_A, app, "resurrected"))];
    let out = merge(&local, &peer, &[]);
    assert_eq!(out.new_entries.len(), 1, "peer entry recorded in log");
    assert!(out.changes_to_apply.is_empty(), "tombstone wins");
}

#[test]
fn merge_logs_scalar_update_higher_rank_update_wins_over_lower_rank_update() {
    let app = app_uuid(303);
    let local = [
        change_entry(WA, 1, 1, &add_device(DEV_A, "phone")),
        change_entry(WA, 1, 2, &add_app(DEV_A, app, "initial")),
        change_entry(WA, 1, 3, &rename(DEV_A, app, "ours")),
    ];
    let peer = [change_entry(WB, 9, 9, &rename(DEV_A, app, "theirs"))];
    let out = merge(&local, &peer, &[(WA, 1), (WB, 2)]);
    assert_eq!(out.new_entries.len(), 1, "peer entry recorded");
    assert!(out.changes_to_apply.is_empty());
}

#[test]
fn merge_logs_update_beats_add_regardless_of_rank() {
    let app = app_uuid(909);
    let local = [
        change_entry(WA, 1, 1, &add_device(DEV_A, "phone")),
        change_entry(WA, 1, 2, &add_app(DEV_A, app, "initial")),
    ];
    let peer = [change_entry(WB, 2, 1, &rename(DEV_A, app, "renamed"))];
    let out = merge(&local, &peer, &[(WA, 1), (WB, 2)]);
    assert_eq!(out.changes_to_apply, vec![rename(DEV_A, app, "renamed")]);
}

#[test]
fn merge_logs_scalar_update_lower_rank_local_loses() {
    let app = app_uuid(404);
    let local = [
        change_entry(WA, 5, 5, &add_device(DEV_A, "phone")),
        change_entry(WA, 5, 6, &add_app(DEV_A, app, "ours")),
    ];
    let peer = [change_entry(WB, 1, 1, &rename(DEV_A, app, "theirs"))];
    let out = merge(&local, &peer, &[(WA, 2), (WB, 1)]);
    assert_eq!(out.new_entries.len(), 1);
    assert_eq!(out.changes_to_apply, vec![rename(DEV_A, app, "theirs")]);
}

#[test]
fn merge_logs_scalar_update_same_rank_higher_version_wins() {
    let app = app_uuid(505);
    let local = [
        change_entry(WA, 1, 1, &add_device(DEV_A, "phone")),
        change_entry(WA, 1, 2, &add_app(DEV_A, app, "v1")),
        change_entry(WA, 1, 3, &rename(DEV_A, app, "v2-local")),
    ];
    let peer = [change_entry(WB, 1, 4, &rename(DEV_A, app, "v3-peer"))];
    let out = merge(&local, &peer, &[(WA, 1), (WB, 1)]);
    assert_eq!(out.changes_to_apply, vec![rename(DEV_A, app, "v3-peer")]);
}

#[test]
fn merge_logs_collapses_peer_add_then_update_into_single_add() {
    let app = app_uuid(606);
    let peer = [
        change_entry(WB, 1, 1, &add_device(DEV_B, "tablet")),
        change_entry(WB, 1, 2, &add_app(DEV_B, app, "original")),
        change_entry(WB, 1, 3, &rename(DEV_B, app, "final")),
    ];
    let out = merge(&[], &peer, &[]);
    assert_eq!(out.new_entries.len(), 3);
    assert_eq!(out.changes_to_apply, vec![add_device(DEV_B, "tablet"), add_app(DEV_B, app, "final")]);
}

#[test]
fn merge_logs_device_add_emitted_before_app_add() {
    let peer = [
        change_entry(WB, 1, 2, &add_app(DEV_B, app_uuid(707), "x")),
        change_entry(WB, 1, 1, &add_device(DEV_B, "x-dev")),
    ];
    let out = merge(&[], &peer, &[]);
    assert!(matches!(out.changes_to_apply[0], Change::AddDevice { .. }));
    assert!(matches!(out.changes_to_apply[1], Change::AddApplication { .. }));
}

#[test]
fn merge_logs_peer_subset_already_known_emits_only_diff() {
    let shared = add_device(DEV_B, "shared");
    let local = [
        change_entry(WA, 1, 1, &add_device(DEV_A, "local-only")),
        change_entry(WB, 1, 1, &shared),
    ];
    let peer = [
        change_entry(WB, 1, 1, &shared),
        change_entry(WB, 1, 2, &add_app(DEV_B, app_uuid(808), "new-app")),
    ];
    let out = merge(&local, &peer, &[]);
    assert_eq!(out.new_entries.len(), 1, "only the unseen entry is new");
    assert_eq!(out.changes_to_apply, vec![add_app(DEV_B, app_uuid(808), "new-app")]);
}

#[test]
fn two_halves_agree_after_they_merged() {
    let app = app_uuid(7);
    let a = vec![
        change_entry(WA, 1, 1, &add_device(DEV_A, "phone")),
        change_entry(WA, 1, 2, &add_app(DEV_A, app, "one")),
    ];
    let b = vec![
        change_entry(WA, 1, 1, &add_device(DEV_A, "phone")),
        change_entry(WB, 2, 1, &rename(DEV_A, app, "two")),
    ];
    let at_a = merge(&a, &b, &[(WA, 1), (WB, 2)]);
    let at_b = merge(&b, &a, &[(WA, 1), (WB, 2)]);
    assert_eq!(at_a.new_entries.len(), 1);
    assert_eq!(at_b.new_entries.len(), 1);
    assert_eq!(at_a.changes_to_apply, vec![rename(DEV_A, app, "two")]);
    assert_eq!(at_b.changes_to_apply, vec![add_app(DEV_A, app, "two")]);
}
