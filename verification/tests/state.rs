//! Changes, replication between a user's devices, contacts and invitations.
use pnet::apply::{apply_change_locally, WriteError};
use pnet::bootstrap::{
    bootstrap_request, bootstrap_response, bootstrap_response_parts, contact_request,
    contact_response, contact_response_parts, device_registration, take_acceptance,
    take_contact_invitation, take_device_invitation,
};
use pnet::change::{change_scopes, deserialize_change, serialize_change, Change};
use pnet::cross_user::{
    cross_user_pull_for_contact, cross_user_pull_on_reconnect, cross_user_pull_request,
    cross_user_pull_response, cross_user_update_available, deserialize_contact_data,
    serialize_contact_data,
};
use pnet::device_wire::{push_device, ContactDeviceCard};
use pnet::effects::Effect;
use pnet::invite::{decode_invitation_code, encode_invitation_code, invitation_bytes, read_invitation};
use pnet::join_wire::{
    deserialize_bootstrap_payload, deserialize_contact_payload, serialize_bootstrap_payload,
    serialize_contact_payload,
};
use pnet::mint::{
    generate_contact_invitation, generate_device_invitation, generate_invitation_request,
    generate_invitation_response, local_device_hosts, start_bootstrap, start_contact_exchange,
    top_online_sg, InvitationMint, InviteSlot, MintWith, INVITATION_LIFETIME,
};
use pnet::public_state::{apply_public_state, deserialize_public_state, serialize_public_state};
use pnet::routing::{find_writer_sg, ResolvedHost, WriterTarget};
use pnet::sessions::record_sg_status;
use pnet::sync::{
    bumped_scopes, notify_contacts, request_change, request_change_idempotent, sync_pull,
    sync_pull_request, sync_pull_response, sync_update_available, sync_write_ack,
    sync_write_request,
};
use pnet::types::{
    ActiveConnection, Application, Contact, Device, DeviceGrade, HostAddr, Invitation, Ipv4,
    KeyPair, Node, PeerAddr, PendingContactExchange, Scope, SyncVersion, User, Uuid, WriteLogEntry,
};
use pnet::wire::{
    push_str, read_scope, read_sync_version, write_scope, write_sync_version, BOOTSTRAP_REQUEST_OP,
    CHANGE_KIND_ADD_APPLICATION, CHANGE_KIND_ADD_DEVICE, CHANGE_KIND_REMOVE_APPLICATION,
    CHANGE_KIND_UPDATE_APPLICATION_ALIAS, CHANGE_KIND_UPSERT_CONTACT, CONTACT_REQUEST_OP,
    CONTACT_RESPONSE_OP, CROSS_USER_PULL_REQUEST_OP, CROSS_USER_PULL_RESPONSE_OP,
    CROSS_USER_UPDATE_AVAILABLE_OP, DEVICE_REGISTER_OP, GENERATE_INVITATION_REQUEST_OP,
    GENERATE_INVITATION_RESPONSE_OP, INVITE_RESULT_ERROR, INVITE_RESULT_OK, INVITE_TYPE_DEVICE,
    PULL_RESULT_FULL_STATE, PULL_RESULT_NO_UPDATES, SYNC_PULL_REQUEST_OP, SYNC_PULL_RESPONSE_OP,
    SYNC_UPDATE_AVAILABLE_OP, SYNC_WRITE_ACK_OP, SYNC_WRITE_REQUEST_OP, WRITE_ACK_NOT_WRITER,
    WRITE_ACK_OK, WRITE_ACK_VALIDATION_ERROR,
};

const NOW: u64 = 1_700_000_000;
const RETENTION: u64 = 30 * 86_400;
const LOCAL: Uuid = [0x10; 16];
const PEER: Uuid = [0x60; 16];
const CONTACT_USER: Uuid = [0x70; 16];
const CONTACT_SG: Uuid = [0x71; 16];

fn node() -> Node {
    Node::new(LOCAL, [0x20; 16])
}

fn host(port: u16) -> HostAddr {
    HostAddr { ip: Ipv4 { a: 127, b: 0, c: 0, d: 1 }, port }
}

fn v4(port: u16) -> PeerAddr {
    PeerAddr::V4(host(port))
}

fn keys(seed: u8) -> KeyPair {
    KeyPair { public_key: [seed; 32], private_key: [seed ^ 0xFF; 32] }
}

fn app_uuid(seed: u16) -> Uuid {
    let mut u = [0u8; 16];
    u[14..16].copy_from_slice(&seed.to_be_bytes());
    u
}

fn version(writer: Uuid, epoch: u32, seq: u64) -> SyncVersion {
    SyncVersion { writer_sg_uuid: writer, epoch, seq }
}

fn conn(id: u16, device_uuid: Uuid, port: u16) -> ActiveConnection {
    ActiveConnection {
        id,
        timeout: NOW + 3600,
        key_pair: keys(id as u8),
        peer_public_key: [9; 32],
        peer_active_connection_id: 99,
        device_uuid,
        peer_addr: v4(port),
    }
}

fn device(uuid: Uuid, alias: &str, grade: DeviceGrade, sg_rank: Option<u32>, hosts: Vec<String>) -> Device {
    Device { uuid, alias: alias.to_string(), grade, sg_rank, hosts, applications: Vec::new() }
}

fn app(id: Uuid, alias: &str, user_approved: bool, token: Uuid) -> Application {
    Application {
        id,
        alias: alias.to_string(),
        protocol: "udp".to_string(),
        host: host(9000),
        user_approved,
        token,
    }
}

fn device_of(n: &Node, uuid: Uuid) -> &Device {
    n.owner.user.devices.iter().find(|d| d.uuid == uuid).unwrap()
}

fn device_mut(n: &mut Node, uuid: Uuid) -> &mut Device {
    n.owner.user.devices.iter_mut().find(|d| d.uuid == uuid).unwrap()
}

fn promote(n: &mut Node, uuid: Uuid, rank: u32) -> Uuid {
    let d = device_mut(n, uuid);
    d.grade = DeviceGrade::SG;
    d.sg_rank = Some(rank);
    uuid
}

/// A server of rank 1 with a session (id 5) to another of the user's devices.
fn writer_with_peer() -> Node {
    let mut n = node();
    promote(&mut n, LOCAL, 1);
    n.owner.user.devices.push(device(PEER, "peer-dg", DeviceGrade::DG, None, Vec::new()));
    n.owner.active_connections.push(conn(5, PEER, 4005));
    n
}

/// A client with a session (id 5) to the user's server of rank 1.
fn client_with_writer() -> Node {
    let mut n = node();
    let hosts = vec!["127.0.0.1:4005".to_string()];
    n.owner.user.devices.push(device(PEER, "writer-sg", DeviceGrade::SG, Some(1), hosts));
    n.owner.active_connections.push(conn(5, PEER, 4005));
    n
}

/// A server of rank 1 with a session (id 7) to a contact's server.
fn writer_with_contact() -> Node {
    let mut n = node();
    promote(&mut n, LOCAL, 1);
    let hosts = vec!["127.0.0.1:4007".to_string()];
    n.owner.contact_users.push(Contact {
        user: User {
            alias: "chad".to_string(),
            uuid: CONTACT_USER,
            devices: vec![device(CONTACT_SG, "chad-sg", DeviceGrade::SG, Some(1), hosts)],
        },
        public_key: [0x55; 32],
        last_seen_public_version: SyncVersion::zero(),
    });
    n.owner.active_connections.push(conn(7, CONTACT_SG, 4007));
    n
}

fn add_app(device_uuid: Uuid, app_id: Uuid, alias: &str) -> Change {
    Change::AddApplication { device_uuid, app_id, app_alias: alias.to_string() }
}

fn apply(n: &mut Node, c: &Change) -> Result<(SyncVersion, SyncVersion), WriteError> {
    let writer = n.device_uuid;
    apply_change_locally(&mut n.owner, c, writer)
}

fn request(n: &mut Node, c: Change) -> (Result<(), WriteError>, Vec<Effect>) {
    let target = find_writer_sg(n);
    request_change(n, c, target, NOW, RETENTION)
}

fn sealed(e: &[Effect]) -> Vec<(ActiveConnection, u8, Vec<u8>)> {
    e.iter()
        .filter_map(|x| match x {
            Effect::Seal { conn, op, body } => Some((*conn, *op, body.clone())),
            _ => None,
        })
        .collect()
}

fn only_sealed(e: &[Effect], op: u8) -> Vec<u8> {
    let s: Vec<_> = sealed(e).into_iter().filter(|x| x.1 == op).collect();
    assert_eq!(s.len(), 1);
    s[0].2.clone()
}

fn scope_body(scope: Scope, v: &SyncVersion) -> Vec<u8> {
    let mut b = Vec::new();
    write_scope(&mut b, scope);
    write_sync_version(&mut b, v);
    b
}

// Changes on the wire.

fn roundtrip(c: Change, kind: u8) {
    let bytes = serialize_change(&c);
    assert_eq!(bytes[0], kind);
    assert_eq!(deserialize_change(&bytes).expect("parse"), c);
}

#[test]
fn change_add_application_roundtrips() {
    roundtrip(add_app([7; 16], app_uuid(0xCAFE), "messenger"), CHANGE_KIND_ADD_APPLICATION);
}

#[test]
fn deserialize_change_rejects_unknown_kind() {
    assert!(deserialize_change(&[0xFE, 0x00, 0x00]).is_none());
    assert!(deserialize_change(&[]).is_none());
}

#[test]
fn deserialize_change_rejects_truncated_payload() {
    let mut bytes = serialize_change(&add_app([7; 16], app_uuid(1), "foo"));
    bytes.truncate(bytes.len() - 1);
    assert!(deserialize_change(&bytes).is_none());
}

#[test]
fn change_remove_application_roundtrips() {
    let c = Change::RemoveApplication { device_uuid: [7; 16], app_id: app_uuid(0xCAFE) };
    roundtrip(c, CHANGE_KIND_REMOVE_APPLICATION);
}

#[test]
fn change_add_device_roundtrips() {
    let c = Change::AddDevice {
        uuid: [7; 16],
        alias: "laptop".to_string(),
        grade: DeviceGrade::DG,
        sg_rank: None,
        hosts: vec!["10.0.0.5".to_string()],
    };
    roundtrip(c, CHANGE_KIND_ADD_DEVICE);
}

#[test]
fn change_update_application_alias_roundtrips() {
    let c = Change::UpdateApplicationAlias {
        device_uuid: [7; 16],
        app_id: app_uuid(0xBEEF),
        new_alias: "renamed".to_string(),
    };
    roundtrip(c, CHANGE_KIND_UPDATE_APPLICATION_ALIAS);
}

fn card(uuid: Uuid) -> ContactDeviceCard {
    ContactDeviceCard {
        uuid,
        alias: "chad-phone".to_string(),
        grade: DeviceGrade::SG,
        sg_rank: Some(2),
        hosts: vec!["h:1".to_string(), "h:2".to_string()],
        apps: vec![(app_uuid(4), "chess".to_string())],
    }
}

#[test]
fn a_contact_roundtrips_with_its_devices() {
    let c = Change::UpsertContact {
        uuid: [8; 16],
        alias: "chad".to_string(),
        public_key: [3; 32],
        devices: vec![card([1; 16]), card([2; 16])],
    };
    assert!(matches!(change_scopes(&c)[..], [Scope::Public]));
    roundtrip(c, CHANGE_KIND_UPSERT_CONTACT);
}

#[test]
fn a_change_has_one_spelling() {
    let bytes = serialize_change(&add_app([0xAB; 16], app_uuid(1), "foo"));
    let mut want = vec![CHANGE_KIND_ADD_APPLICATION];
    want.extend_from_slice(&[0xAB; 16]);
    want.extend_from_slice(&app_uuid(1));
    want.extend_from_slice(&[3, b'f', b'o', b'o']);
    assert_eq!(bytes, want);
}

// Applying changes.

#[test]
fn apply_add_application_appends_app_and_bumps_public_only() {
    let mut n = node();
    let local = promote(&mut n, LOCAL, 1);
    let (private, public) = apply(&mut n, &add_app(local, app_uuid(7), "myapp")).expect("apply");
    assert!(private.is_initial(), "private should not bump for public-only change");
    assert_eq!(public, version(local, 1, 1));
    let d = device_of(&n, local);
    assert_eq!(d.applications.len(), 1);
    assert_eq!(d.applications[0].id, app_uuid(7));
    assert_eq!(d.applications[0].alias, "myapp");
    assert_eq!(d.applications[0].token, [0u8; 16]);
}

#[test]
fn apply_add_application_is_idempotent() {
    let mut n = node();
    let local = promote(&mut n, LOCAL, 1);
    apply(&mut n, &add_app(local, app_uuid(7), "myapp")).expect("first apply");
    let first = n.owner.public_version;
    apply(&mut n, &add_app(local, app_uuid(7), "myapp")).expect("second apply");
    assert_eq!(n.owner.public_version, first, "no-op apply must not bump");
    assert_eq!(device_of(&n, local).applications.len(), 1);
}

#[test]
fn apply_add_application_unknown_device_returns_validation_error() {
    let mut n = node();
    promote(&mut n, LOCAL, 1);
    let res = apply(&mut n, &add_app([0xEE; 16], app_uuid(1), "x"));
    assert!(matches!(res, Err(WriteError::Validation(_))));
    assert!(n.owner.public_version.is_initial());
}

#[test]
fn apply_remove_application_drops_app_and_bumps_public() {
    let mut n = node();
    let local = promote(&mut n, LOCAL, 1);
    apply(&mut n, &add_app(local, app_uuid(3), "doomed")).expect("seed");
    let after_add = n.owner.public_version;
    let c = Change::RemoveApplication { device_uuid: local, app_id: app_uuid(3) };
    let (private, public) = apply(&mut n, &c).expect("remove");
    assert!(private.is_initial());
    assert_eq!(public, version(local, after_add.epoch, after_add.seq + 1));
    assert!(device_of(&n, local).applications.iter().all(|a| a.id != app_uuid(3)));
}

#[test]
fn apply_remove_application_is_idempotent_for_missing_app() {
    let mut n = node();
    let local = promote(&mut n, LOCAL, 1);
    let before = n.owner.public_version;
    let c = Change::RemoveApplication { device_uuid: local, app_id: app_uuid(999) };
    apply(&mut n, &c).expect("idempotent remove ok");
    assert_eq!(n.owner.public_version, before, "no-op remove must not bump");
}

fn phone(uuid: Uuid) -> Change {
    Change::AddDevice {
        uuid,
        alias: "phone".to_string(),
        grade: DeviceGrade::DG,
        sg_rank: None,
        hosts: Vec::new(),
    }
}

#[test]
fn apply_add_device_appends_and_bumps_public() {
    let mut n = node();
    let local = promote(&mut n, LOCAL, 1);
    let (private, public) = apply(&mut n, &phone([0x44; 16])).expect("apply");
    assert!(private.is_initial());
    assert_eq!(public, version(local, 1, 1));
    assert!(n.owner.user.devices.iter().any(|d| d.uuid == [0x44; 16]));
}

#[test]
fn apply_add_device_is_idempotent() {
    let mut n = node();
    promote(&mut n, LOCAL, 1);
    apply(&mut n, &phone([0x44; 16])).expect("first apply");
    let first = n.owner.public_version;
    apply(&mut n, &phone([0x44; 16])).expect("second apply");
    assert_eq!(n.owner.public_version, first, "no-op re-add must not bump");
    let count = n.owner.user.devices.iter().filter(|d| d.uuid == [0x44; 16]).count();
    assert_eq!(count, 1, "device must not be duplicated");
}

fn rename(device_uuid: Uuid, app_id: Uuid, alias: &str) -> Change {
    Change::UpdateApplicationAlias { device_uuid, app_id, new_alias: alias.to_string() }
}

#[test]
fn apply_update_application_alias_renames_and_bumps_public() {
    let mut n = node();
    let local = promote(&mut n, LOCAL, 1);
    apply(&mut n, &add_app(local, app_uuid(5), "old")).expect("seed");
    let after_add = n.owner.public_version;
    let (_, public) = apply(&mut n, &rename(local, app_uuid(5), "new")).expect("rename");
    assert_eq!(public.epoch, after_add.epoch);
    assert_eq!(public.seq, after_add.seq + 1);
    assert_eq!(device_of(&n, local).applications[0].alias, "new");
}

#[test]
fn apply_update_application_alias_is_idempotent_when_unchanged() {
    let mut n = node();
    let local = promote(&mut n, LOCAL, 1);
    apply(&mut n, &add_app(local, app_uuid(5), "same")).expect("seed");
    let before = n.owner.public_version;
    apply(&mut n, &rename(local, app_uuid(5), "same")).expect("no-op rename");
    assert_eq!(n.owner.public_version, before, "no-op rename must not bump");
}

#[test]
fn apply_update_application_alias_no_op_for_missing_app() {
    let mut n = node();
    let local = promote(&mut n, LOCAL, 1);
    let before = n.owner.public_version;
    apply(&mut n, &rename(local, app_uuid(999), "nope")).expect("missing app is no-op, not error");
    assert_eq!(n.owner.public_version, before);
}

#[test]
fn a_contact_is_inserted_once_and_then_replaced() {
    let mut n = node();
    promote(&mut n, LOCAL, 1);
    let c = Change::UpsertContact {
        uuid: [8; 16],
        alias: "chad".to_string(),
        public_key: [3; 32],
        devices: vec![card([1; 16])],
    };
    apply(&mut n, &c).expect("insert");
    assert_eq!(n.owner.contact_users.len(), 1);
    assert_eq!(n.owner.public_version.seq, 1);
    apply(&mut n, &c).expect("again");
    assert_eq!(n.owner.public_version.seq, 1, "the same contact changes nothing");
    let c = Change::UpsertContact {
        uuid: [8; 16],
        alias: "chad".to_string(),
        public_key: [3; 32],
        devices: vec![card([1; 16]), card([2; 16])],
    };
    apply(&mut n, &c).expect("replace");
    assert_eq!(n.owner.contact_users.len(), 1);
    assert_eq!(n.owner.contact_users[0].user.devices.len(), 2);
    assert_eq!(n.owner.public_version.seq, 2);
}

#[test]
fn a_new_writer_starts_a_new_epoch() {
    let v = version([1; 16], 4, 9);
    assert_eq!(v.bump(&[1; 16]), version([1; 16], 4, 10));
    assert_eq!(v.bump(&[2; 16]), version([2; 16], 5, 1));
}

// Asking for a change.

#[test]
fn request_change_local_path_applies_directly() {
    let mut n = node();
    let local = promote(&mut n, LOCAL, 1);
    let (r, _) = request(&mut n, add_app(local, app_uuid(9), "ui-app"));
    assert_eq!(r, Ok(()));
    assert_eq!(device_of(&n, local).applications.len(), 1);
    assert_eq!(n.owner.public_version.epoch, 1);
}

#[test]
fn request_change_unreachable_returns_error() {
    let mut n = node();
    let (r, e) = request(&mut n, add_app(LOCAL, app_uuid(1), "x"));
    assert_eq!(r, Err(WriteError::Unreachable));
    assert!(e.is_empty());
}

#[test]
fn request_change_remote_path_sends_packet() {
    let mut n = client_with_writer();
    let c = add_app(LOCAL, app_uuid(3), "x");
    let want = serialize_change(&c);
    let (r, e) = request(&mut n, c);
    assert_eq!(r, Ok(()));
    assert_eq!(only_sealed(&e, SYNC_WRITE_REQUEST_OP), want);
    assert_eq!(sealed(&e)[0].0.device_uuid, PEER);
}

#[test]
fn request_change_local_bumps_even_on_idempotent_apply() {
    let mut n = node();
    let local = promote(&mut n, LOCAL, 1);
    device_mut(&mut n, local).applications.push(app(app_uuid(17), "preadded", true, [0xAB; 16]));
    assert!(n.owner.public_version.is_initial());
    let (r, _) = request(&mut n, add_app(local, app_uuid(17), "preadded"));
    assert_eq!(r, Ok(()));
    assert_eq!(n.owner.public_version, version(local, 1, 1));
    let a = &device_of(&n, local).applications[0];
    assert_eq!(a.token, [0xAB; 16]);
    assert_eq!(a.host, host(9000));
}

#[test]
fn an_idempotent_request_does_not_bump_for_nothing() {
    let mut n = node();
    let local = promote(&mut n, LOCAL, 1);
    device_mut(&mut n, local).applications.push(app(app_uuid(17), "preadded", true, [0xAB; 16]));
    let c = add_app(local, app_uuid(17), "preadded");
    let (r, _) = request_change_idempotent(&mut n, c, WriterTarget::Local, NOW, RETENTION);
    assert_eq!(r, Ok(()));
    assert!(n.owner.public_version.is_initial());
    assert!(n.owner.write_log.is_empty());
}

#[test]
fn request_change_local_path_appends_one_write_log_entry() {
    let mut n = node();
    let local = promote(&mut n, LOCAL, 1);
    let (r, _) = request(&mut n, add_app(local, app_uuid(42), "logged"));
    assert_eq!(r, Ok(()));
    assert_eq!(n.owner.write_log.len(), 1);
    let entry = &n.owner.write_log[0];
    assert_eq!(entry.scope, Scope::Public);
    assert_eq!(entry.version, n.owner.public_version);
    let back = deserialize_change(&entry.change_payload).expect("parse");
    assert_eq!(back, add_app(local, app_uuid(42), "logged"));
}

#[test]
fn write_log_retention_prunes_entries_older_than_cutoff() {
    let mut n = node();
    let local = promote(&mut n, LOCAL, 1);
    n.owner.write_log.push(WriteLogEntry {
        version: SyncVersion::zero(),
        scope: Scope::Public,
        change_payload: vec![0xDE, 0xAD, 0xBE, 0xEF],
        committed_at: NOW - RETENTION - 60,
    });
    let (r, _) = request(&mut n, add_app(local, app_uuid(1), "fresh"));
    assert_eq!(r, Ok(()));
    assert_eq!(n.owner.write_log.len(), 1, "only the fresh entry survives");
    assert_ne!(n.owner.write_log[0].change_payload, vec![0xDE, 0xAD, 0xBE, 0xEF]);
}

#[test]
fn request_change_rank2_sg_self_elects_via_on_demand_probe_during_partition() {
    let mut n = node();
    let local = promote(&mut n, LOCAL, 2);
    let golden = [0x41; 16];
    let h = "127.0.0.1:9001".to_string();
    n.owner.user.devices.push(device(golden, "sg-1", DeviceGrade::SG, Some(1), vec![h.clone()]));
    device_mut(&mut n, local).applications.push(app(app_uuid(77), "before", true, [0u8; 16]));
    n.owner.public_version = version(golden, 1, 5);

    assert_eq!(find_writer_sg(&n), WriterTarget::Unreachable);
    // The poll on demand finds nobody there.
    record_sg_status(&mut n, golden, h, None, 1);
    let (r, _) = request(&mut n, rename(local, app_uuid(77), "after"));
    assert_eq!(r, Ok(()));
    assert_eq!(n.owner.public_version.writer_sg_uuid, local);
    assert_eq!(n.owner.write_log.len(), 1, "self-write must be logged");
    assert_eq!(n.owner.write_log[0].version.writer_sg_uuid, local);
    assert_eq!(device_of(&n, local).applications[0].alias, "after");
}

// The writer's side.

fn write_request(n: &mut Node, c: &Change) -> Vec<Effect> {
    sync_write_request(n, 5, &serialize_change(c), NOW, RETENTION)
}

#[test]
fn sync_write_request_writer_accepts_and_acks_ok() {
    let mut n = writer_with_peer();
    let e = write_request(&mut n, &add_app(PEER, app_uuid(42), "acked"));
    assert_eq!(device_of(&n, PEER).applications.len(), 1);
    assert_eq!(n.owner.public_version.epoch, 1);
    let ack = sync_write_ack(&only_sealed(&e, SYNC_WRITE_ACK_OP)).unwrap();
    assert_eq!(ack.result, WRITE_ACK_OK);
    assert!(ack.private.is_initial());
    assert_eq!((ack.public.epoch, ack.public.seq), (1, 1));
}

#[test]
fn sync_write_request_validation_error_for_unknown_device() {
    let mut n = writer_with_peer();
    let e = write_request(&mut n, &add_app([0xEE; 16], app_uuid(1), "nope"));
    let ack = sync_write_ack(&only_sealed(&e, SYNC_WRITE_ACK_OP)).unwrap();
    assert_eq!(ack.result, WRITE_ACK_VALIDATION_ERROR);
    assert!(ack.private.is_initial());
    assert!(ack.public.is_initial(), "validation failure must not bump version");
}

#[test]
fn sync_write_request_non_writer_acks_not_writer() {
    let mut n = writer_with_peer();
    promote(&mut n, LOCAL, 2);
    let sg1 = [0x41; 16];
    n.owner.user.devices.push(device(sg1, "sg-1", DeviceGrade::SG, Some(1), vec!["h:1".to_string()]));
    n.owner.active_connections.push(conn(1, sg1, 0));
    record_sg_status(&mut n, sg1, "h:1".to_string(), Some(20), 0);
    let e = write_request(&mut n, &add_app(PEER, app_uuid(1), "nope"));
    assert!(device_of(&n, PEER).applications.is_empty());
    let ack = sync_write_ack(&only_sealed(&e, SYNC_WRITE_ACK_OP)).unwrap();
    assert_eq!(ack.result, WRITE_ACK_NOT_WRITER);
    assert!(ack.public.is_initial());
}

#[test]
fn sync_write_request_fans_out_update_available() {
    let mut n = writer_with_peer();
    let e = write_request(&mut n, &add_app(PEER, app_uuid(5), "fan"));
    only_sealed(&e, SYNC_WRITE_ACK_OP);
    let body = only_sealed(&e, SYNC_UPDATE_AVAILABLE_OP);
    let mut pos = 0usize;
    assert_eq!(read_scope(&body, &mut pos), Some(Scope::Public));
    let v = read_sync_version(&body, &mut pos).unwrap();
    assert_eq!((v.epoch, v.seq), (1, 1));
}

#[test]
fn sync_write_request_accepted_change_appends_one_write_log_entry() {
    let mut n = writer_with_peer();
    let c = add_app(PEER, app_uuid(77), "from-dg");
    write_request(&mut n, &c);
    assert_eq!(n.owner.write_log.len(), 1);
    assert_eq!(n.owner.write_log[0].scope, Scope::Public);
    assert_eq!(deserialize_change(&n.owner.write_log[0].change_payload), Some(c));
}

#[test]
fn sync_write_request_idempotent_retry_does_not_append_duplicate() {
    let mut n = writer_with_peer();
    let c = add_app(PEER, app_uuid(7), "once");
    write_request(&mut n, &c);
    assert_eq!(n.owner.write_log.len(), 1);
    write_request(&mut n, &c);
    assert_eq!(n.owner.write_log.len(), 1, "idempotent retry must not append a duplicate entry");
}

// Versions and pulls.

#[test]
fn bumped_scopes_detects_what_changed() {
    let z = SyncVersion::zero();
    let v = version([1; 16], 1, 1);
    assert!(bumped_scopes(z, z, z, z).is_empty());
    assert_eq!(bumped_scopes(z, z, v, z), vec![Scope::Private]);
    assert_eq!(bumped_scopes(z, z, z, v), vec![Scope::Public]);
    assert_eq!(bumped_scopes(z, z, v, v), vec![Scope::Private, Scope::Public]);
}

#[test]
fn sync_update_available_triggers_pull_when_announced_is_newer() {
    let n = client_with_writer();
    let body = scope_body(Scope::Public, &version(PEER, 1, 5));
    let e = sync_update_available(&n, 5, &body);
    assert!(!only_sealed(&e, SYNC_PULL_REQUEST_OP).is_empty(), "non-empty body");
}

#[test]
fn sync_update_available_skips_pull_when_both_sides_are_own_user_sgs() {
    let mut n = client_with_writer();
    promote(&mut n, LOCAL, 1);
    promote(&mut n, PEER, 2);
    let body = scope_body(Scope::Public, &version(PEER, 2, 5));
    assert!(sync_update_available(&n, 5, &body).is_empty());
}

#[test]
fn sync_update_available_skips_pull_when_caught_up() {
    let mut n = client_with_writer();
    let v = version(PEER, 1, 5);
    n.owner.public_version = v;
    assert!(sync_update_available(&n, 5, &scope_body(Scope::Public, &v)).is_empty());
}

fn pull_answer(e: &[Effect], op: u8) -> (Scope, u8, SyncVersion, usize) {
    let body = only_sealed(e, op);
    let mut pos = 0usize;
    let scope = read_scope(&body, &mut pos).unwrap();
    let result = body[pos];
    pos += 1;
    let v = read_sync_version(&body, &mut pos).unwrap();
    (scope, result, v, body.len() - pos)
}

#[test]
fn sync_pull_request_returns_full_state_when_stale() {
    let mut n = writer_with_peer();
    apply(&mut n, &add_app(LOCAL, app_uuid(1), "ax")).unwrap();
    let e = sync_pull_request(&n, 5, &scope_body(Scope::Public, &SyncVersion::zero()));
    let (scope, result, v, rest) = pull_answer(&e, SYNC_PULL_RESPONSE_OP);
    assert_eq!(scope, Scope::Public);
    assert_eq!(result, PULL_RESULT_FULL_STATE);
    assert_eq!(v.epoch, 1);
    assert!(rest > 0, "a full state carries a blob");
}

#[test]
fn sync_pull_request_returns_no_updates_when_caught_up() {
    let mut n = writer_with_peer();
    apply(&mut n, &add_app(LOCAL, app_uuid(1), "ax")).unwrap();
    let e = sync_pull_request(&n, 5, &scope_body(Scope::Public, &n.owner.public_version));
    let (_, result, _, rest) = pull_answer(&e, SYNC_PULL_RESPONSE_OP);
    assert_eq!(result, PULL_RESULT_NO_UPDATES);
    assert_eq!(rest, 0);
}

#[test]
fn sync_pull_response_full_state_applies_and_pins_version() {
    let writer_local = [0x99; 16];
    let mut writer = Node::new(writer_local, [0x20; 16]);
    promote(&mut writer, writer_local, 1);
    apply(&mut writer, &add_app(writer_local, app_uuid(99), "ww")).unwrap();
    let v = writer.owner.public_version;

    let mut dg = client_with_writer();
    let mut body = Vec::new();
    write_scope(&mut body, Scope::Public);
    body.push(PULL_RESULT_FULL_STATE);
    write_sync_version(&mut body, &v);
    body.extend_from_slice(&serialize_public_state(&writer));
    sync_pull_response(&mut dg, &body);

    assert_eq!(dg.owner.public_version, v);
    let d = device_of(&dg, writer_local);
    assert_eq!(d.applications.len(), 1);
    assert_eq!(d.applications[0].id, app_uuid(99));
    assert_eq!(d.applications[0].alias, "ww");
}

#[test]
fn sync_pull_remote_writer_sends_pull_for_both_scopes() {
    let n = client_with_writer();
    let s = sealed(&sync_pull(&n));
    assert_eq!(s.len(), 2);
    let mut public = false;
    let mut private = false;
    for (_, op, body) in &s {
        assert_eq!(*op, SYNC_PULL_REQUEST_OP);
        match read_scope(body, &mut 0).unwrap() {
            Scope::Public => public = true,
            Scope::Private => private = true,
        }
    }
    assert!(public && private, "expected both Public and Private pulls");
}

#[test]
fn sync_pull_local_writer_is_noop() {
    let mut n = node();
    promote(&mut n, LOCAL, 1);
    assert!(sync_pull(&n).is_empty());
}

#[test]
fn sync_pull_unreachable_is_noop() {
    assert!(sync_pull(&node()).is_empty());
}

#[test]
fn sync_pull_response_no_updates_pins_version_without_changing_state() {
    let mut n = client_with_writer();
    let before = n.owner.user.devices.len();
    let pinned = version(PEER, 7, 3);
    let mut body = Vec::new();
    write_scope(&mut body, Scope::Public);
    body.push(PULL_RESULT_NO_UPDATES);
    write_sync_version(&mut body, &pinned);
    sync_pull_response(&mut n, &body);
    assert_eq!(n.owner.public_version, pinned);
    assert_eq!(n.owner.user.devices.len(), before);
}

// The public state.

#[test]
fn public_state_serialize_apply_roundtrip() {
    let local = [0x33; 16];
    let mut src = Node::new(local, [0x34; 16]);
    promote(&mut src, local, 1);
    apply(&mut src, &add_app(local, app_uuid(11), "a1")).unwrap();
    apply(&mut src, &add_app(local, app_uuid(22), "a2")).unwrap();
    let blob = serialize_public_state(&src);
    let mut dst = node();
    assert!(apply_public_state(&mut dst, &blob));
    assert_eq!(dst.owner.user.alias, src.owner.user.alias);
    assert_eq!(dst.owner.user.uuid, src.owner.user.uuid);
    let d = device_of(&dst, local);
    assert_eq!(d.alias, device_of(&src, local).alias);
    assert_eq!(d.applications.len(), 2);
    let mut ids: Vec<Uuid> = d.applications.iter().map(|a| a.id).collect();
    ids.sort();
    let mut expected = vec![app_uuid(11), app_uuid(22)];
    expected.sort();
    assert_eq!(ids, expected);
}

#[test]
fn a_written_public_state_is_read_back() {
    let n = writer_with_contact();
    let s = deserialize_public_state(&serialize_public_state(&n)).unwrap();
    assert_eq!(s.user_uuid, n.owner.user.uuid);
    assert_eq!(s.user_alias, n.owner.user.alias);
    assert_eq!(s.devices.len(), 1);
    assert_eq!(s.contacts.len(), 1);
    assert_eq!(s.contacts[0].uuid, CONTACT_USER);
    assert_eq!(s.contacts[0].public_key, [0x55; 32]);
    assert_eq!(s.contacts[0].devices[0].uuid, CONTACT_SG);
}

/// A public state of the node's own user with client devices and no contacts.
fn public_blob(n: &Node, devs: &[(Uuid, &str, Vec<(Uuid, &str)>)]) -> Vec<u8> {
    let mut blob = Vec::new();
    push_str(&mut blob, &n.owner.user.alias);
    blob.extend_from_slice(&n.owner.user.uuid);
    blob.push(devs.len() as u8);
    for (uuid, alias, apps) in devs {
        blob.extend_from_slice(uuid);
        push_str(&mut blob, alias);
        blob.push(0u8);
        blob.push(0u8);
        blob.push(0u8);
        blob.push(apps.len() as u8);
        for (id, app_alias) in apps {
            blob.extend_from_slice(id);
            push_str(&mut blob, app_alias);
        }
    }
    blob.push(0u8);
    blob
}

#[test]
fn apply_public_state_preserves_local_app_token_and_host() {
    let mut n = node();
    let mut a = app(app_uuid(7), "old-alias", true, [0x42; 16]);
    a.host = HostAddr { ip: Ipv4 { a: 10, b: 0, c: 0, d: 1 }, port: 5555 };
    let real_host = a.host;
    device_mut(&mut n, LOCAL).applications.push(a);
    let blob = public_blob(&n, &[(LOCAL, "Device", vec![(app_uuid(7), "new-alias")])]);
    assert!(apply_public_state(&mut n, &blob));
    let d = device_of(&n, LOCAL);
    assert_eq!(d.applications.len(), 1);
    assert_eq!(d.applications[0].alias, "old-alias");
    assert_eq!(d.applications[0].host, real_host);
    assert_eq!(d.applications[0].token, [0x42; 16]);
    assert_eq!(d.applications[0].protocol, "udp");
}

#[test]
fn apply_public_state_rejects_truncated_blob() {
    let mut n = node();
    assert!(!apply_public_state(&mut n, &[5u8, b'h', b'i']));
}

#[test]
fn apply_public_state_drops_peer_apps_not_in_incoming() {
    let mut n = node();
    let mut d = device(PEER, "peer", DeviceGrade::DG, None, Vec::new());
    d.applications.push(app(app_uuid(5), "stale", true, [0u8; 16]));
    n.owner.user.devices.push(d);
    let blob = public_blob(&n, &[(PEER, "peer", vec![])]);
    assert!(apply_public_state(&mut n, &blob));
    assert!(device_of(&n, PEER).applications.is_empty());
}

#[test]
fn apply_public_state_preserves_local_apps_not_in_incoming() {
    let mut n = node();
    device_mut(&mut n, LOCAL).applications.push(app(app_uuid(9), "in-flight", true, [0xCC; 16]));
    let blob = public_blob(&n, &[(LOCAL, "local", vec![])]);
    assert!(apply_public_state(&mut n, &blob));
    let d = device_of(&n, LOCAL);
    assert_eq!(d.applications.len(), 1, "in-flight local app must survive");
    assert_eq!(d.applications[0].id, app_uuid(9));
}

// Contacts' data.

#[test]
fn contact_data_roundtrip_serialization() {
    let mut n = node();
    let d = device_mut(&mut n, LOCAL);
    d.applications.push(app(app_uuid(7), "test-app", true, [1; 16]));
    d.applications.push(app(app_uuid(8), "pending-app", false, [2; 16]));
    let data = deserialize_contact_data(&serialize_contact_data(&n)).expect("deserialization failed");
    assert_eq!(data.user_uuid, n.owner.user.uuid);
    assert_eq!(data.devices.len(), 1);
    let apps = &data.devices[0].apps;
    assert_eq!(apps.len(), 1);
    assert_eq!(apps[0].0, app_uuid(7));
    assert_eq!(apps[0].1, "test-app");
}

#[test]
fn cross_user_update_available_triggers_pull_when_announced_is_newer() {
    let n = writer_with_contact();
    let body = scope_body(Scope::Public, &version([3; 16], 1, 3));
    let e = cross_user_update_available(&n, 7, &body);
    assert!(!only_sealed(&e, CROSS_USER_PULL_REQUEST_OP).is_empty());
}

#[test]
fn cross_user_update_available_skips_pull_when_caught_up() {
    let mut n = writer_with_contact();
    let v = version([3; 16], 1, 3);
    n.owner.contact_users[0].last_seen_public_version = v;
    assert!(cross_user_update_available(&n, 7, &scope_body(Scope::Public, &v)).is_empty());
}

#[test]
fn cross_user_pull_request_returns_no_updates_when_peer_is_caught_up() {
    let mut n = writer_with_contact();
    n.owner.bump_version(Scope::Public, LOCAL);
    let e = cross_user_pull_request(&n, 7, &scope_body(Scope::Public, &n.owner.public_version));
    let (scope, result, _, _) = pull_answer(&e, CROSS_USER_PULL_RESPONSE_OP);
    assert_eq!(scope, Scope::Public);
    assert_eq!(result, PULL_RESULT_NO_UPDATES);
}

#[test]
fn a_stale_contact_gets_the_whole_state() {
    let mut n = writer_with_contact();
    n.owner.bump_version(Scope::Public, LOCAL);
    let e = cross_user_pull_request(&n, 7, &scope_body(Scope::Public, &SyncVersion::zero()));
    let (_, result, v, rest) = pull_answer(&e, CROSS_USER_PULL_RESPONSE_OP);
    assert_eq!(result, PULL_RESULT_FULL_STATE);
    assert_eq!(v, n.owner.public_version);
    assert_eq!(rest, serialize_contact_data(&n).len());
}

fn cross_answer(result: u8, v: &SyncVersion, state: &[u8]) -> Vec<u8> {
    let mut body = Vec::new();
    write_scope(&mut body, Scope::Public);
    body.push(result);
    write_sync_version(&mut body, v);
    body.extend_from_slice(state);
    body
}

#[test]
fn cross_user_pull_response_full_state_updates_contact_and_bumps_local() {
    let mut n = writer_with_contact();
    let mut state = CONTACT_USER.to_vec();
    state.push(1u8);
    push_device(&mut state, &device([0x78; 16], "new-dev", DeviceGrade::DG, None, Vec::new()));
    state.push(0u8);
    let v = version([4; 16], 2, 4);
    let before = n.owner.public_version;
    let body = cross_answer(PULL_RESULT_FULL_STATE, &v, &state);
    cross_user_pull_response(&mut n, 7, &body, WriterTarget::Local, NOW, RETENTION);
    let c = &n.owner.contact_users[0];
    assert_eq!(c.user.devices.len(), 1);
    assert_eq!(c.user.devices[0].uuid, [0x78; 16]);
    assert_eq!(c.last_seen_public_version, v);
    assert_ne!(n.owner.public_version, before);
    assert_eq!(n.owner.public_version.writer_sg_uuid, LOCAL);
}

#[test]
fn a_contact_cannot_speak_for_another() {
    let mut n = writer_with_contact();
    let other: Uuid = [0x62; 16];
    let mut second = Contact {
        user: User { uuid: other, alias: "other".to_string(), devices: Vec::new() },
        public_key: [9; 32],
        last_seen_public_version: SyncVersion::zero(),
    };
    second.user.devices.push(device([0x63; 16], "theirs", DeviceGrade::SG, Some(1), Vec::new()));
    n.owner.contact_users.push(second);
    let before = n.owner.public_version;
    let first_devices: Vec<Uuid> =
        n.owner.contact_users[0].user.devices.iter().map(|d| d.uuid).collect();
    for named in [other, [0x7F; 16]] {
        let mut state = named.to_vec();
        state.push(1u8);
        push_device(&mut state, &device([0x78; 16], "new-dev", DeviceGrade::DG, None, Vec::new()));
        state.push(0u8);
        let v = version([4; 16], 2, 4);
        let body = cross_answer(PULL_RESULT_FULL_STATE, &v, &state);
        let e = cross_user_pull_response(&mut n, 7, &body, WriterTarget::Local, NOW, RETENTION);
        assert_eq!(e.len(), 1);
        assert!(matches!(e[0], Effect::Save));
        let c = &n.owner.contact_users[1];
        assert_eq!(c.user.uuid, other);
        assert_eq!(c.user.alias, "other");
        assert_eq!(c.public_key, [9; 32]);
        assert_eq!(c.user.devices.len(), 1);
        assert_eq!(c.user.devices[0].uuid, [0x63; 16]);
        assert_eq!(c.last_seen_public_version, SyncVersion::zero());
        let after: Vec<Uuid> =
            n.owner.contact_users[0].user.devices.iter().map(|d| d.uuid).collect();
        assert_eq!(after, first_devices);
        assert_eq!(n.owner.contact_users[0].last_seen_public_version, v);
        assert_eq!(n.owner.public_version, before);
        assert!(n.owner.write_log.is_empty());
    }
}

#[test]
fn cross_user_pull_response_no_updates_pins_contact_version_only() {
    let mut n = writer_with_contact();
    let v = version([4; 16], 1, 7);
    let before = n.owner.public_version;
    let body = cross_answer(PULL_RESULT_NO_UPDATES, &v, &[]);
    cross_user_pull_response(&mut n, 7, &body, WriterTarget::Local, NOW, RETENTION);
    assert_eq!(n.owner.contact_users[0].last_seen_public_version, v);
    assert_eq!(n.owner.public_version, before);
}

#[test]
fn notify_contacts_sends_cross_user_update_to_top_ranked_contact_sg() {
    let n = writer_with_contact();
    let v = version([4; 16], 3, 1);
    let body = only_sealed(&notify_contacts(&n, v), CROSS_USER_UPDATE_AVAILABLE_OP);
    assert_eq!(body, scope_body(Scope::Public, &v));
}

#[test]
fn a_contact_is_pulled_on_reconnect_and_on_demand() {
    let n = writer_with_contact();
    only_sealed(&cross_user_pull_on_reconnect(&n, 7), CROSS_USER_PULL_REQUEST_OP);
    only_sealed(&cross_user_pull_for_contact(&n, &CONTACT_USER), CROSS_USER_PULL_REQUEST_OP);
    assert!(cross_user_pull_for_contact(&n, &[0xEE; 16]).is_empty());
    assert!(cross_user_pull_on_reconnect(&n, 8).is_empty());
}

// Invitations.

#[test]
fn top_online_sg_defers_to_connected_top_rank_sg() {
    let mut n = node();
    promote(&mut n, LOCAL, 2);
    device_mut(&mut n, LOCAL).hosts = vec!["sg2:7777".to_string()];
    let hosts = vec!["sg1:7777".to_string()];
    n.owner.user.devices.push(device(PEER, "sg1", DeviceGrade::SG, Some(1), hosts));
    n.owner.active_connections.push(conn(7, PEER, 0));
    assert_eq!(top_online_sg(&n), Some(PEER));
}

#[test]
fn top_online_sg_falls_back_to_local_when_top_rank_offline() {
    let mut n = node();
    promote(&mut n, LOCAL, 2);
    device_mut(&mut n, LOCAL).hosts = vec!["sg2:7777".to_string()];
    let hosts = vec!["sg1:7777".to_string()];
    n.owner.user.devices.push(device(PEER, "sg1", DeviceGrade::SG, Some(1), hosts));
    assert_eq!(top_online_sg(&n), Some(LOCAL));
}

#[test]
fn generate_invitation_request_mints_locally_and_replies_with_code() {
    let mut n = writer_with_peer();
    device_mut(&mut n, LOCAL).hosts = vec!["sg.example:7777".to_string()];
    let token = [0x0A; 16];
    let mut body = vec![INVITE_TYPE_DEVICE];
    body.extend_from_slice(&token);
    let e = generate_invitation_request(&mut n, 5, &body, [0x0B; 16], keys(4), NOW);
    assert_eq!(n.owner.device_invitations.len(), 1, "SG should store the minted invitation");
    assert!(n.owner.contact_invitations.is_empty());
    assert_eq!(n.owner.device_invitations[0].expires_at, NOW + 900);
    assert_eq!(INVITATION_LIFETIME, 900);
    let stored = n.owner.device_invitations[0].id;
    let reply = only_sealed(&e, GENERATE_INVITATION_RESPONSE_OP);
    assert_eq!(reply[0..16], token);
    assert_eq!(reply[16], INVITE_RESULT_OK);
    let code = std::str::from_utf8(&reply[17..]).unwrap();
    let c = decode_invitation_code(code).expect("code must decode");
    assert_eq!(c.id, stored);
    assert_eq!(c.hosts, vec!["sg.example:7777".to_string()]);
}

#[test]
fn generate_invitation_response_fills_waiting_slot() {
    let token = [0x0A; 16];
    let mut slots = vec![InviteSlot { token, outcome: None }];
    let mut body = token.to_vec();
    body.push(INVITE_RESULT_OK);
    body.extend_from_slice(b"THECODE");
    assert!(generate_invitation_response(&mut slots, &body));
    assert_eq!(slots[0].outcome, Some(Ok("THECODE".to_string())));
}

#[test]
fn a_refusal_fills_the_slot_too_and_strangers_fill_none() {
    let token = [0x0A; 16];
    let mut slots = vec![InviteSlot { token, outcome: None }];
    let mut body = [0x0C; 16].to_vec();
    body.push(INVITE_RESULT_OK);
    assert!(!generate_invitation_response(&mut slots, &body));
    assert_eq!(slots[0].outcome, None);
    let mut body = token.to_vec();
    body.push(INVITE_RESULT_ERROR);
    assert!(generate_invitation_response(&mut slots, &body));
    assert_eq!(slots[0].outcome, Some(Err(())));
}

fn mint() -> MintWith {
    MintWith { fresh_id: [0x0D; 16], fresh_keys: keys(6), token: [0x0E; 16], now: NOW }
}

#[test]
fn a_server_mints_itself_and_a_client_asks_one() {
    let mut sg = writer_with_peer();
    device_mut(&mut sg, LOCAL).hosts = vec!["sg.example:7777".to_string()];
    assert_eq!(local_device_hosts(&sg), vec!["sg.example:7777".to_string()]);
    let (m, _) = generate_contact_invitation(&mut sg, mint());
    match m {
        InvitationMint::Ready(code) => {
            let c = decode_invitation_code(&code).unwrap();
            assert_eq!(c.id, [0x0D; 16]);
            assert_eq!(c.public_key, [6; 32]);
        },
        _ => panic!("a server mints at once"),
    }
    assert_eq!(sg.owner.contact_invitations.len(), 1);

    let mut dg = client_with_writer();
    let (m, e) = generate_device_invitation(&mut dg, mint());
    assert!(matches!(m, InvitationMint::Pending { token } if token == [0x0E; 16]));
    let mut want = vec![INVITE_TYPE_DEVICE];
    want.extend_from_slice(&[0x0E; 16]);
    assert_eq!(only_sealed(&e, GENERATE_INVITATION_REQUEST_OP), want);
    assert!(dg.owner.device_invitations.is_empty());

    let mut alone = node();
    let (m, e) = generate_device_invitation(&mut alone, mint());
    assert!(matches!(m, InvitationMint::Failed));
    assert!(e.is_empty());
}

#[test]
fn an_invitation_code_is_url_safe_base64_of_its_bytes() {
    let hosts = vec!["a:1".to_string()];
    let raw = invitation_bytes(&[0xFF; 16], &[0xFB; 32], &hosts);
    let mut want = [0xFFu8; 16].to_vec();
    want.extend_from_slice(&[0xFB; 32]);
    want.extend_from_slice(&[1, 3, b'a', b':', b'1']);
    assert_eq!(raw, want);
    let code = encode_invitation_code(&[0xFF; 16], &[0xFB; 32], &hosts);
    assert!(code.starts_with("_____"));
    assert!(!code.contains('+') && !code.contains('/') && !code.contains('='));
    let back = decode_invitation_code(&code).unwrap();
    assert_eq!((back.id, back.public_key, back.hosts), ([0xFF; 16], [0xFB; 32], hosts));
    assert!(decode_invitation_code("not-a-real-code").is_none());
    assert!(decode_invitation_code("***").is_none());
    assert!(read_invitation(&raw[..raw.len() - 1]).is_none());
}

fn cache(entry: &str, port: u16) -> Vec<ResolvedHost> {
    vec![ResolvedHost { host: entry.to_string(), addr: host(port) }]
}

#[test]
fn start_bootstrap_stashes_pending_with_grade_and_rank() {
    let mut n = node();
    let hosts = vec!["127.0.0.1:65530".to_string()];
    let code = encode_invitation_code(&[0x1A; 16], &[0x1B; 32], &hosts);
    let c = cache("127.0.0.1:65530", 65530);
    let r = start_bootstrap(&mut n, "my-laptop", &code, DeviceGrade::DG, None, &c, keys(1));
    let e = r.expect("bootstrap should succeed");
    let pb = n.owner.pending_bootstrap.as_ref().expect("pending_bootstrap should be set");
    assert_eq!(pb.invitation_id, [0x1A; 16]);
    assert_eq!(pb.invitation_pk, [0x1B; 32]);
    assert_eq!(pb.device_alias, "my-laptop");
    assert_eq!(pb.desired_grade, DeviceGrade::DG);
    assert_eq!(pb.desired_sg_rank, None);
    assert!(e.iter().any(|x| matches!(
        x,
        Effect::Send { dest, bytes } if *dest == v4(65530) && bytes[0] == BOOTSTRAP_REQUEST_OP
    )));
}

#[test]
fn start_bootstrap_preserves_sg_grade_and_rank() {
    let mut n = node();
    let hosts = vec!["127.0.0.1:65531".to_string()];
    let code = encode_invitation_code(&[0x1A; 16], &[0x1B; 32], &hosts);
    let c = cache("127.0.0.1:65531", 65531);
    start_bootstrap(&mut n, "backup-sg", &code, DeviceGrade::SG, Some(3), &c, keys(1))
        .expect("bootstrap should succeed");
    let pb = n.owner.pending_bootstrap.as_ref().unwrap();
    assert_eq!(pb.desired_grade, DeviceGrade::SG);
    assert_eq!(pb.desired_sg_rank, Some(3));
}

#[test]
fn start_bootstrap_rejects_garbage_invitation_code() {
    let mut n = node();
    let r = start_bootstrap(
        &mut n,
        "my-laptop",
        "not-a-real-code",
        DeviceGrade::DG,
        None,
        &Vec::new(),
        keys(1),
    );
    assert!(r.is_err());
    assert!(n.owner.pending_bootstrap.is_none());
}

// Joining: a new device and the server that invited it.

#[test]
fn a_device_joins_by_an_invitation() {
    let mut sg = writer_with_contact();
    sg.owner.key_pair = keys(0x33);
    device_mut(&mut sg, LOCAL).hosts = vec!["127.0.0.1:7777".to_string()];
    let (m, _) = generate_device_invitation(&mut sg, mint());
    let code = match m {
        InvitationMint::Ready(code) => code,
        _ => panic!("a server mints at once"),
    };

    let new_uuid = [0x2A; 16];
    let mut new = Node::new(new_uuid, [0x2B; 16]);
    let c = cache("127.0.0.1:7777", 7777);
    let e = start_bootstrap(&mut new, "tablet", &code, DeviceGrade::SG, Some(4), &c, keys(7)).unwrap();
    let ask = match &e[..] {
        [Effect::Send { bytes, .. }] => bytes.clone(),
        other => panic!("one request expected, got {}", other.len()),
    };

    let redeemed = take_device_invitation(&mut sg, &ask[1..], NOW + 1).unwrap();
    assert_eq!(redeemed.invitation_id, [0x0D; 16]);
    assert_eq!(redeemed.own_secret, keys(6).private_key);
    assert_eq!(redeemed.peer_public, [7; 32]);
    assert!(sg.owner.device_invitations.is_empty(), "an invitation is good once");
    assert!(take_device_invitation(&mut sg, &ask[1..], NOW + 1).is_none());

    let shared = [0x5C; 32];
    let e = bootstrap_request(&mut sg, v4(8000), redeemed.invitation_id, shared, NOW + 1);
    let body = match &e.iter().find(|x| matches!(x, Effect::SealWith { .. })).unwrap() {
        Effect::SealWith { key, dest, body, .. } => {
            assert_eq!(*key, shared);
            assert_eq!(*dest, v4(8000));
            body.clone()
        },
        _ => unreachable!(),
    };
    let payload = deserialize_bootstrap_payload(&body).unwrap();
    assert_eq!(payload.user_uuid, sg.owner.user.uuid);
    assert_eq!(payload.key_pair, keys(0x33));
    assert_eq!(payload.contacts.len(), 1);

    let mut packet = vec![1u8; 24];
    packet.extend_from_slice(&[2u8; 40]);
    let parts = bootstrap_response_parts(&new, v4(7777), &packet).unwrap();
    assert_eq!(parts.own_secret, keys(7).private_key);
    assert_eq!(parts.peer_public, [6; 32]);
    assert_eq!(parts.nonce, vec![1u8; 24]);
    assert!(bootstrap_response_parts(&new, v4(7778), &packet).is_none());
    let own_hosts = vec!["tablet:7777".to_string()];
    let e = bootstrap_response(&mut new, v4(7777), &body, shared, &own_hosts);
    assert_eq!(new.owner.user.uuid, sg.owner.user.uuid);
    assert_eq!(new.owner.key_pair, keys(0x33));
    assert!(new.owner.pending_bootstrap.is_none());
    let own = device_of(&new, new_uuid);
    assert_eq!(own.alias, "tablet");
    assert_eq!(own.grade, DeviceGrade::SG);
    assert_eq!(own.sg_rank, Some(4));
    let (head, body) = match e.iter().find(|x| matches!(x, Effect::SealWith { .. })).unwrap() {
        Effect::SealWith { head, body, .. } => (head.clone(), body.clone()),
        _ => unreachable!(),
    };
    assert_eq!(head[0], DEVICE_REGISTER_OP);

    let mut packet = head[1..].to_vec();
    packet.extend_from_slice(&[3u8; 24]);
    packet.extend_from_slice(&[4u8; 40]);
    let sealed = take_acceptance(&mut sg, &packet, NOW + 2).unwrap();
    assert_eq!(sealed.key, shared);
    assert_eq!(sealed.nonce, vec![3u8; 24]);
    assert!(sg.owner.pending_device_acceptances.is_empty());
    device_registration(&mut sg, &body, WriterTarget::Local, NOW + 2, RETENTION);
    let d = device_of(&sg, new_uuid);
    assert_eq!(d.alias, "tablet");
    assert_eq!(d.hosts, own_hosts);
}

#[test]
fn a_written_bootstrap_payload_is_read_back() {
    let mut n = writer_with_contact();
    n.owner.key_pair = keys(9);
    let b = deserialize_bootstrap_payload(&serialize_bootstrap_payload(&n)).unwrap();
    assert_eq!(b.user_alias, n.owner.user.alias);
    assert_eq!(b.devices.len(), 1);
    assert_eq!(b.contacts[0].user.uuid, CONTACT_USER);
    assert_eq!(b.contacts[0].public_key, [0x55; 32]);
}

// Contact exchange.

fn invite(n: &mut Node, id: Uuid, expires_at: u64) {
    n.owner.contact_invitations.push(Invitation { id, key_pair: keys(8), expires_at });
}

fn request_buf(id: &Uuid) -> Vec<u8> {
    let mut buf = id.to_vec();
    buf.extend_from_slice(&[0x21; 32]);
    buf.extend_from_slice(&[0x22; 24]);
    buf.extend_from_slice(&[0x23; 60]);
    buf
}

fn requester() -> Node {
    let mut n = Node::new([0x51; 16], [0x52; 16]);
    n.owner.key_pair = keys(0x53);
    n.owner.user.alias = "chad".to_string();
    n
}

fn upsert_count(n: &Node) -> usize {
    n.owner
        .write_log
        .iter()
        .filter(|e| matches!(deserialize_change(&e.change_payload), Some(Change::UpsertContact { .. })))
        .count()
}

fn exchange(n: &mut Node, id: Uuid) -> Vec<Effect> {
    invite(n, id, NOW + 3600);
    let sealed = take_contact_invitation(n, &request_buf(&id), NOW).unwrap();
    assert_eq!(sealed.from.own_secret, keys(8).private_key);
    assert_eq!(sealed.from.peer_public, [0x21; 32]);
    assert_eq!(sealed.nonce, vec![0x22; 24]);
    assert_eq!(sealed.ciphertext, vec![0x23; 60]);
    let plain = serialize_contact_payload(&requester());
    let target = find_writer_sg(n);
    contact_request(n, v4(6000), &plain, [0x5D; 32], target, NOW, RETENTION)
}

#[test]
fn contact_request_valid_adds_contact_and_replies() {
    let mut n = node();
    promote(&mut n, LOCAL, 1);
    let e = exchange(&mut n, [0x61; 16]);
    assert_eq!(n.owner.contact_users.len(), 1);
    assert_eq!(n.owner.contact_users[0].user.alias, "chad");
    assert_eq!(n.owner.contact_users[0].public_key, [0x53; 32]);
    assert_eq!(upsert_count(&n), 1, "contact add must append exactly one entry");
    assert!(n.owner.contact_invitations.is_empty());
    assert!(e.iter().any(|x| matches!(
        x,
        Effect::SealWith { key, dest, head, .. }
            if *key == [0x5D; 32] && *dest == v4(6000) && head[..] == [CONTACT_RESPONSE_OP]
    )));
}

#[test]
fn contact_request_unknown_invitation_is_rejected() {
    let mut n = node();
    assert!(take_contact_invitation(&mut n, &request_buf(&[0x62; 16]), NOW).is_none());
    assert!(n.owner.contact_users.is_empty());
}

#[test]
fn contact_request_expired_invitation_is_rejected() {
    let mut n = node();
    invite(&mut n, [0x61; 16], NOW - 1);
    assert!(take_contact_invitation(&mut n, &request_buf(&[0x61; 16]), NOW).is_none());
    assert!(n.owner.contact_users.is_empty());
    assert!(n.owner.contact_invitations.is_empty(), "expired invitation must be removed");
}

#[test]
fn contact_request_duplicate_not_added_twice() {
    let mut n = node();
    promote(&mut n, LOCAL, 1);
    exchange(&mut n, [0x61; 16]);
    exchange(&mut n, [0x62; 16]);
    assert_eq!(n.owner.contact_users.len(), 1, "duplicate contact must not be added");
    assert_eq!(upsert_count(&n), 1);
}

fn will(uuid: Uuid) -> Vec<u8> {
    let mut payload = Vec::new();
    push_str(&mut payload, "will");
    payload.extend_from_slice(&uuid);
    payload.extend_from_slice(&[0x45; 32]);
    payload.push(0u8);
    payload
}

fn awaiting(port: u16) -> Node {
    let mut n = node();
    promote(&mut n, LOCAL, 1);
    n.owner.pending_contact_exchange = Some(PendingContactExchange {
        our_ephem_key_pair: keys(0x46),
        invitation_pk: [0x47; 32],
        sg_addr: host(port),
    });
    n
}

fn response_buf() -> Vec<u8> {
    let mut buf = vec![5u8; 24];
    buf.extend_from_slice(&[6u8; 50]);
    buf
}

#[test]
fn contact_response_valid_adds_contact_and_clears_pending() {
    let mut n = awaiting(19000);
    let parts = contact_response_parts(&n, v4(19000), &response_buf()).unwrap();
    assert_eq!(parts.own_secret, keys(0x46).private_key);
    assert_eq!(parts.peer_public, [0x47; 32]);
    assert_eq!(parts.nonce, vec![5u8; 24]);
    assert_eq!(parts.ciphertext, vec![6u8; 50]);
    contact_response(&mut n, v4(19000), &will([0x48; 16]), WriterTarget::Local, NOW, RETENTION);
    assert_eq!(n.owner.contact_users.len(), 1);
    assert_eq!(n.owner.contact_users[0].user.alias, "will");
    assert_eq!(n.owner.contact_users[0].user.uuid, [0x48; 16]);
    assert!(n.owner.pending_contact_exchange.is_none());
}

#[test]
fn contact_response_wrong_source_is_rejected() {
    let mut n = awaiting(19001);
    assert!(contact_response_parts(&n, v4(19002), &response_buf()).is_none());
    contact_response(&mut n, v4(19002), &will([0x48; 16]), WriterTarget::Local, NOW, RETENTION);
    assert!(n.owner.contact_users.is_empty());
    assert!(n.owner.pending_contact_exchange.is_some());
}

#[test]
fn contact_response_no_pending_exchange_is_rejected() {
    let mut n = node();
    assert!(contact_response_parts(&n, v4(19003), &response_buf()).is_none());
    contact_response(&mut n, v4(19003), &will([0x48; 16]), WriterTarget::Local, NOW, RETENTION);
    assert!(n.owner.contact_users.is_empty());
}

#[test]
fn a_contact_exchange_begins_with_a_sealed_request() {
    let mut n = requester();
    let hosts = vec!["127.0.0.1:7777".to_string()];
    let code = encode_invitation_code(&[0x1A; 16], &[0x1B; 32], &hosts);
    let e = start_contact_exchange(&mut n, &code, &cache("127.0.0.1:7777", 7777), keys(2), [0x3C; 32]);
    let pending = n.owner.pending_contact_exchange.unwrap();
    assert_eq!(pending.invitation_pk, [0x1B; 32]);
    assert_eq!(pending.sg_addr, host(7777));
    let (head, body) = match &e.iter().find(|x| matches!(x, Effect::SealWith { .. })).unwrap() {
        Effect::SealWith { key, dest, head, body } => {
            assert_eq!(*key, [0x3C; 32]);
            assert_eq!(*dest, v4(7777));
            (head.clone(), body.clone())
        },
        _ => unreachable!(),
    };
    let mut want = vec![CONTACT_REQUEST_OP];
    want.extend_from_slice(&[0x1A; 16]);
    want.extend_from_slice(&[2; 32]);
    assert_eq!(head, want);
    let p = deserialize_contact_payload(&body).unwrap();
    assert_eq!(p.alias, "chad");
    assert_eq!(p.uuid, [0x52; 16]);
    assert_eq!(p.public_key, [0x53; 32]);
}
