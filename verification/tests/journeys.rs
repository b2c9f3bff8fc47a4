//! What several nodes do together, from one end to the other.
use pnet::admin_apps::approve_app;
use pnet::app_edge::{app_register, app_send_packet, RegisterWith};
use pnet::bootstrap::{contact_request, contact_response, device_registration, take_device_invitation};
use pnet::cards::devices_to_cards;
use pnet::change::Change;
use pnet::cross_user::{cross_user_pull_for_contact, cross_user_pull_request, cross_user_pull_response};
use pnet::device_wire::push_device;
use pnet::effects::Effect;
use pnet::forms::{uuid_from_hex, uuid_hex};
use pnet::invite::{decode_invitation_code, encode_invitation_code};
use pnet::join_wire::serialize_contact_payload;
use pnet::mint::{generate_device_invitation, start_contact_exchange, InvitationMint, MintWith};
use pnet::reconcile::{
    merge_proposal, partition_reconcile_on_reconnect, watermark_probe_request,
    watermark_probe_response,
};
use pnet::relay::{app_packet, relay_packet, RelayLimits};
use pnet::routing::{best_address_for_device, find_writer_sg, WriterTarget};
use pnet::sessions::{connect_ack, connect_request, maintain_connections, SessionTimes};
use pnet::sync::{prune_log, request_change, sync_pull, sync_pull_request, sync_pull_response};
use pnet::tunnels::{
    allocate_tunnel_id, setup_tunnel, tunnel_connect_ack, tunnel_connect_request, tunnel_init,
};
use pnet::types::{
    ActiveConnection, ActiveTunnel, Application, Contact, Device, DeviceGrade, HostAddr, Ipv4,
    KeyPair, Node, PeerAddr, PendingContactExchange, Scope, SgHostStatus, SgStatus, SyncVersion,
    User, Uuid, WriteLogEntry,
};
use pnet::wire::{
    APP_PACKET_OP, APP_PUSH_OP, CONTACT_RESPONSE_OP, CROSS_USER_PULL_REQUEST_OP,
    CROSS_USER_PULL_RESPONSE_OP, MERGE_PROPOSAL_OP, OK, RELAY_PACKET_OP, SYNC_PULL_REQUEST_OP,
    SYNC_PULL_RESPONSE_OP, WATERMARK_PROBE_REQUEST_OP, WATERMARK_PROBE_RESPONSE_OP,
};

const NOW: u64 = 1_700_000_000;
const RETENTION: u64 = 30 * 86_400;
const A: Uuid = [0x0A; 16];
const B: Uuid = [0x0B; 16];
const USER: Uuid = [0x20; 16];

fn host(port: u16) -> HostAddr {
    HostAddr { ip: Ipv4 { a: 127, b: 0, c: 0, d: 1 }, port }
}

fn v4(port: u16) -> PeerAddr {
    PeerAddr::V4(host(port))
}

fn keys(seed: u8) -> KeyPair {
    KeyPair { public_key: [seed; 32], private_key: [seed ^ 0xFF; 32] }
}

fn times() -> SessionTimes {
    SessionTimes { lifetime: 3600, pending_timeout: 30, renew_threshold: 600 }
}

fn conn(id: u16, device_uuid: Uuid, port: u16) -> ActiveConnection {
    ActiveConnection {
        id,
        timeout: NOW + 3600,
        key_pair: keys(id as u8),
        peer_public_key: [id as u8 + 1; 32],
        peer_active_connection_id: 100 + id,
        device_uuid,
        peer_addr: v4(port),
    }
}

fn device(uuid: Uuid, alias: &str, grade: DeviceGrade, sg_rank: Option<u32>, hosts: &[&str]) -> Device {
    Device {
        uuid,
        alias: alias.to_string(),
        grade,
        sg_rank,
        hosts: hosts.iter().map(|h| h.to_string()).collect(),
        applications: Vec::new(),
    }
}

fn app(id: Uuid, port: u16, token: Uuid) -> Application {
    Application {
        id,
        alias: "chat".to_string(),
        protocol: "udp".to_string(),
        host: host(port),
        user_approved: true,
        token,
    }
}

fn device_mut(n: &mut Node, uuid: Uuid) -> &mut Device {
    n.owner.user.devices.iter_mut().find(|d| d.uuid == uuid).unwrap()
}

/// One of two servers of a user, ranked 1 and 2, that have a session.
fn server(own: Uuid) -> Node {
    let mut n = Node::new(own, USER);
    n.owner.key_pair = keys(0x44);
    n.owner.user.devices = vec![
        device(A, "first", DeviceGrade::SG, Some(1), &["127.0.0.1:7001"]),
        device(B, "second", DeviceGrade::SG, Some(2), &["127.0.0.1:7002"]),
    ];
    let other = if own == A { B } else { A };
    n.owner.active_connections.push(conn(5, other, 7000));
    n
}

fn sealed(e: &[Effect], op: u8) -> Vec<u8> {
    let found: Vec<Vec<u8>> = e
        .iter()
        .filter_map(|x| match x {
            Effect::Seal { op: o, body, .. } if *o == op => Some(body.clone()),
            _ => None,
        })
        .collect();
    assert_eq!(found.len(), 1);
    found[0].clone()
}

fn signed(e: &[Effect]) -> Vec<u8> {
    e.iter()
        .find_map(|x| match x {
            Effect::SendSigned { bytes, .. } => Some(bytes.clone()),
            _ => None,
        })
        .unwrap()
}

fn sent(e: &[Effect]) -> Vec<u8> {
    match e {
        [Effect::Send { bytes, .. }] => bytes.clone(),
        _ => panic!("one datagram expected"),
    }
}

fn add_app(device_uuid: Uuid, app_id: Uuid, alias: &str) -> Change {
    Change::AddApplication { device_uuid, app_id, app_alias: alias.to_string() }
}

fn write(n: &mut Node, c: Change) {
    let (r, _) = request_change(n, c, WriterTarget::Local, NOW, RETENTION);
    assert_eq!(r, Ok(()));
}

fn apps_of(n: &Node, uuid: Uuid) -> Vec<(Uuid, String)> {
    let d = n.owner.user.devices.iter().find(|d| d.uuid == uuid).unwrap();
    let mut v: Vec<(Uuid, String)> =
        d.applications.iter().map(|a| (a.id, a.alias.clone())).collect();
    v.sort();
    v
}

/// `from` asks `to` how far it is, and `to` takes over what it lacks.
fn hand_over(from: &mut Node, to: &mut Node) {
    let probe = sealed(&partition_reconcile_on_reconnect(from, 5), WATERMARK_PROBE_REQUEST_OP);
    let marks = sealed(&watermark_probe_request(to, 5, &probe), WATERMARK_PROBE_RESPONSE_OP);
    let proposal = sealed(&watermark_probe_response(from, 5, &marks), MERGE_PROPOSAL_OP);
    merge_proposal(to, 5, &proposal, NOW, RETENTION);
}

#[test]
fn two_servers_that_were_apart_agree_again() {
    let mut a = server(A);
    let mut b = server(B);
    write(&mut a, add_app(A, [1; 16], "one"));
    write(&mut a, add_app(A, [2; 16], "two"));
    write(&mut b, add_app(B, [3; 16], "three"));
    write(&mut b, add_app(B, [4; 16], "four"));
    write(&mut b, Change::RemoveApplication { device_uuid: B, app_id: [4; 16] });
    hand_over(&mut a, &mut b);
    hand_over(&mut b, &mut a);
    for d in [A, B] {
        assert_eq!(apps_of(&a, d), apps_of(&b, d));
    }
    assert_eq!(apps_of(&a, A), vec![([1; 16], "one".to_string()), ([2; 16], "two".to_string())]);
    assert_eq!(apps_of(&a, B), vec![([3; 16], "three".to_string())]);
    assert_eq!(a.owner.write_log.len(), b.owner.write_log.len());
}

#[test]
fn the_stronger_name_wins_on_both_sides() {
    let mut a = server(A);
    let mut b = server(B);
    write(&mut a, add_app(A, [1; 16], "one"));
    hand_over(&mut a, &mut b);
    let name = |s: &str| Change::UpdateApplicationAlias {
        device_uuid: A,
        app_id: [1; 16],
        new_alias: s.to_string(),
    };
    write(&mut a, name("by the first"));
    write(&mut b, name("by the second"));
    hand_over(&mut a, &mut b);
    hand_over(&mut b, &mut a);
    assert_eq!(apps_of(&a, A), vec![([1; 16], "by the first".to_string())]);
    assert_eq!(apps_of(&b, A), vec![([1; 16], "by the first".to_string())]);
}

#[test]
fn a_device_and_a_contact_cross_a_partition_too() {
    let mut a = server(A);
    let mut b = server(B);
    write(&mut a, Change::AddDevice {
        uuid: [7; 16],
        alias: "phone".to_string(),
        grade: DeviceGrade::DG,
        sg_rank: None,
        hosts: Vec::new(),
    });
    write(&mut a, add_app([7; 16], [8; 16], "on the phone"));
    write(&mut a, Change::UpsertContact {
        uuid: [9; 16],
        alias: "dora".to_string(),
        public_key: [0x99; 32],
        devices: Vec::new(),
    });
    hand_over(&mut a, &mut b);
    assert_eq!(apps_of(&b, [7; 16]), vec![([8; 16], "on the phone".to_string())]);
    assert_eq!(b.owner.contact_users.len(), 1);
    assert_eq!(b.owner.contact_users[0].user.alias, "dora");
}

#[test]
fn the_log_keeps_an_entry_exactly_as_long_as_it_should() {
    let entry = |at: u64| WriteLogEntry {
        version: SyncVersion::zero(),
        scope: Scope::Public,
        change_payload: Vec::new(),
        committed_at: at,
    };
    let mut log = vec![entry(NOW - RETENTION - 1), entry(NOW - RETENTION), entry(NOW)];
    prune_log(&mut log, NOW, RETENTION);
    assert_eq!(log.len(), 2);
    assert_eq!(log[0].committed_at, NOW - RETENTION);
}

#[test]
fn a_handshake_leaves_two_sessions_that_name_each_other() {
    let mut a = server(A);
    let mut b = server(B);
    a.owner.active_connections.clear();
    b.owner.active_connections.clear();
    b.owner.active_connections.push(conn(40, [0x77; 16], 1));
    let e = maintain_connections(&mut a, &Vec::new(), &vec![keys(1), keys(2)], NOW, times());
    let mut ask = signed(&e)[1..].to_vec();
    ask.extend_from_slice(&[0x99; 64]);
    let e = connect_request(&mut b, v4(7001), &ask, true, keys(3), NOW, times());
    let mut ack = signed(&e)[1..].to_vec();
    ack.extend_from_slice(&[0x98; 64]);
    connect_ack(&mut a, v4(7002), &ack, true, NOW, times());
    let x = a.owner.active_connections.last().unwrap();
    let y = b.owner.active_connections.last().unwrap();
    assert_eq!((x.device_uuid, y.device_uuid), (B, A));
    assert_eq!(x.peer_active_connection_id, y.id);
    assert_eq!(y.peer_active_connection_id, x.id);
    assert_eq!(x.peer_public_key, y.key_pair.public_key);
    assert_eq!(y.peer_public_key, x.key_pair.public_key);
    assert!(a.owner.pending_connections.is_empty());
}

#[test]
fn an_address_in_the_list_of_hosts_needs_no_lookup() {
    let n = server(A);
    assert_eq!(best_address_for_device(&n, &Vec::new(), &B), Some(host(7002)));
}

#[test]
fn the_second_server_waits_for_the_first_to_be_found_down() {
    let mut b = server(B);
    assert_eq!(find_writer_sg(&b), WriterTarget::Remote(A));
    b.owner.active_connections.clear();
    assert_eq!(find_writer_sg(&b), WriterTarget::Unreachable);
    b.sg_statuses.push(SgHostStatus {
        device_uuid: A,
        host: "127.0.0.1:7001".to_string(),
        status: SgStatus { up: false, last_rtt: None, last_polled: 0 },
    });
    assert_eq!(find_writer_sg(&b), WriterTarget::Local);
}

fn limits() -> RelayLimits {
    RelayLimits { max_payload: 1200, tunnel_threshold: 3, counter_window_ms: 1000 }
}

fn message(token: Uuid, dest: Uuid, dest_app: Uuid, payload: &[u8]) -> Vec<u8> {
    let mut p = token.to_vec();
    p.extend_from_slice(&dest);
    p.extend_from_slice(&dest_app);
    p.extend_from_slice(payload);
    p
}

#[test]
fn a_message_arrives_whole_through_a_server() {
    let sender: Uuid = [0x31; 16];
    let dest: Uuid = [0x32; 16];
    let mut from = Node::new(sender, USER);
    from.owner.user.devices.push(device(A, "first", DeviceGrade::SG, Some(1), &[]));
    from.owner.user.devices.push(device(dest, "phone", DeviceGrade::DG, None, &[]));
    device_mut(&mut from, sender).applications.push(app([0x41; 16], 5001, [0x51; 16]));
    from.owner.active_connections.push(conn(1, A, 7001));
    let packet = message([0x51; 16], dest, [0x42; 16], b"hello");
    let e = app_send_packet(&from, v4(5001), &packet, true, NOW, 1200);
    let up = sealed(&e, RELAY_PACKET_OP);

    let mut via = server(A);
    via.owner.active_connections.push(conn(6, sender, 8001));
    via.owner.active_connections.push(conn(7, dest, 8002));
    let e = relay_packet(&mut via, 6, &up, 0, limits());
    let down = sealed(&e, APP_PACKET_OP);

    let mut to = Node::new(dest, USER);
    device_mut(&mut to, dest).applications.push(app([0x42; 16], 5002, [0x52; 16]));
    let push = sent(&app_packet(&to, &down, 1200));
    assert_eq!(push[0], APP_PUSH_OP);
    assert_eq!(push[1..17], [0x41; 16]);
    assert_eq!(&push[17..], b"hello");
}

#[test]
fn a_message_arrives_whole_over_a_direct_session() {
    let dest: Uuid = [0x32; 16];
    let mut from = Node::new([0x31; 16], USER);
    device_mut(&mut from, [0x31; 16]).applications.push(app([0x41; 16], 5001, [0x51; 16]));
    from.owner.active_connections.push(conn(1, dest, 7001));
    let packet = message([0x51; 16], dest, [0x42; 16], b"");
    let e = app_send_packet(&from, v4(5001), &packet, true, NOW, 1200);
    let mut to = Node::new(dest, USER);
    device_mut(&mut to, dest).applications.push(app([0x42; 16], 5002, [0x52; 16]));
    let push = sent(&app_packet(&to, &sealed(&e, APP_PACKET_OP), 1200));
    assert_eq!(push.len(), 17);
}

#[test]
fn both_ends_of_a_tunnel_have_the_key_of_the_other() {
    let mut via = server(A);
    let (s, d): (Uuid, Uuid) = ([0x31; 16], [0x32; 16]);
    via.owner.active_connections.push(conn(6, s, 8001));
    via.owner.active_connections.push(conn(7, d, 8002));
    let mut from = Node::new(s, USER);
    let mut to = Node::new(d, USER);
    let p = sent(&setup_tunnel(&mut via, s, d));
    let p = sent(&tunnel_init(&mut from, v4(7001), &p[1..], keys(1)));
    let p = sent(&tunnel_connect_request(&mut via, v4(8001), &p[1..], keys(9), NOW, 3600));
    let p = sent(&tunnel_connect_request(&mut to, v4(7001), &p[1..], keys(2), NOW, 3600));
    let p = sent(&tunnel_connect_ack(&mut via, v4(8002), &p[1..], 5, NOW, 3600));
    assert!(tunnel_connect_ack(&mut from, v4(7001), &p[1..], 5, NOW, 3600).is_empty());
    let x = from.owner.active_connections[0];
    let y = to.owner.active_connections[0];
    assert_eq!((x.device_uuid, y.device_uuid), (d, s));
    assert_eq!((x.key_pair, y.key_pair), (keys(1), keys(2)));
    assert_eq!(x.peer_public_key, keys(2).public_key);
    assert_eq!(y.peer_public_key, keys(1).public_key);
    let t = via.owner.active_tunnels[0];
    assert_eq!((t.connection_a_id, t.connection_b_id, t.last_used_at), (6, 7, 5));
    assert_eq!(from.owner.dg_tunnel_map[0].tunnel_id, t.id);
    assert_eq!(to.owner.dg_tunnel_map[0].tunnel_id, t.id);
}

#[test]
fn a_tunnel_never_takes_an_identifier_in_use() {
    let mut n = server(A);
    assert_eq!(allocate_tunnel_id(&n), 1);
    for id in [0u16, 1, 65535] {
        n.owner.active_tunnels.push(ActiveTunnel {
            id,
            connection_a_id: 1,
            connection_b_id: 2,
            last_used_at: 0,
        });
    }
    assert_eq!(allocate_tunnel_id(&n), 2);
}

#[test]
fn a_client_that_pulls_is_as_far_as_the_writer() {
    let client: Uuid = [0x31; 16];
    let mut writer = server(A);
    writer.owner.user.devices.push(device(client, "laptop", DeviceGrade::DG, None, &[]));
    writer.owner.active_connections.push(conn(6, client, 8001));
    write(&mut writer, add_app(A, [1; 16], "one"));
    let mut n = Node::new(client, USER);
    n.owner.user.devices.push(device(A, "first", DeviceGrade::SG, Some(1), &[]));
    n.owner.active_connections.push(conn(1, A, 7001));
    for e in sync_pull(&n) {
        let ask = sealed(&[e], SYNC_PULL_REQUEST_OP);
        let answer = sealed(&sync_pull_request(&writer, 6, &ask), SYNC_PULL_RESPONSE_OP);
        sync_pull_response(&mut n, &answer);
    }
    assert_eq!(n.owner.public_version, writer.owner.public_version);
    assert_eq!(apps_of(&n, A), apps_of(&writer, A));
    assert!(n.owner.user.devices.iter().any(|d| d.uuid == B));
}

fn contact(uuid: Uuid, public_key: [u8; 32], devices: Vec<Device>) -> Contact {
    Contact {
        user: User { alias: "dora".to_string(), uuid, devices },
        public_key,
        last_seen_public_version: SyncVersion::zero(),
    }
}

#[test]
fn a_contact_that_pulls_sees_what_was_published() {
    let other: Uuid = [0x61; 16];
    let mut n = server(A);
    write(&mut n, add_app(A, [1; 16], "one"));
    device_mut(&mut n, A).applications[0].user_approved = true;
    n.owner.contact_users.push(contact([0x62; 16], [0x63; 32], vec![
        device(other, "hers", DeviceGrade::SG, Some(1), &[]),
    ]));
    n.owner.active_connections.push(conn(6, other, 8001));
    let mut dora = Node::new(other, [0x62; 16]);
    device_mut(&mut dora, other).grade = DeviceGrade::SG;
    dora.owner.contact_users.push(contact(USER, [0x44; 32], vec![
        device(A, "first", DeviceGrade::SG, Some(1), &[]),
    ]));
    dora.owner.active_connections.push(conn(3, A, 7001));
    let ask = sealed(&cross_user_pull_for_contact(&dora, &USER), CROSS_USER_PULL_REQUEST_OP);
    let answer = sealed(&cross_user_pull_request(&n, 6, &ask), CROSS_USER_PULL_RESPONSE_OP);
    cross_user_pull_response(&mut dora, 3, &answer, WriterTarget::Local, NOW, RETENTION);
    let c = &dora.owner.contact_users[0];
    assert_eq!(c.last_seen_public_version, n.owner.public_version);
    assert_eq!(c.user.devices.len(), 2);
    let d = c.user.devices.iter().find(|d| d.uuid == A).unwrap();
    assert_eq!(d.applications[0].alias, "one");
}

fn request_from(n: &Node, device_uuid: Uuid) -> Vec<u8> {
    let mut p = 1u16.to_be_bytes().to_vec();
    p.extend_from_slice(&device_uuid);
    p.extend_from_slice(&[0x71; 32]);
    p.extend_from_slice(&n.owner.key_pair.public_key);
    p.extend_from_slice(&[0x99; 64]);
    p
}

#[test]
fn a_device_that_registered_may_connect() {
    let mut n = server(A);
    let new: Uuid = [0x31; 16];
    let ask = request_from(&n, new);
    connect_request(&mut n, v4(1), &ask, true, keys(1), NOW, times());
    assert_eq!(n.owner.active_connections.len(), 1, "unknown so far");
    let mut body = Vec::new();
    push_device(&mut body, &device(new, "tablet", DeviceGrade::DG, None, &[]));
    device_registration(&mut n, &body, WriterTarget::Local, NOW, RETENTION);
    connect_request(&mut n, v4(1), &ask, true, keys(1), NOW, times());
    assert_eq!(n.owner.active_connections.len(), 2);
    assert_eq!(n.owner.active_connections[1].device_uuid, new);
}

#[test]
fn a_minted_invitation_can_be_redeemed_until_it_runs_out() {
    let mint = |n: &mut Node| {
        let with = MintWith { fresh_id: [3; 16], fresh_keys: keys(4), token: [5; 16], now: NOW };
        match generate_device_invitation(n, with).0 {
            InvitationMint::Ready(code) => code,
            _ => panic!("the first server mints itself"),
        }
    };
    let mut n = server(A);
    let code = decode_invitation_code(&mint(&mut n)).unwrap();
    assert_eq!(code.id, [3; 16]);
    assert_eq!(code.public_key, [4; 32]);
    assert_eq!(code.hosts, vec!["127.0.0.1:7001".to_string()]);
    let mut ask = code.id.to_vec();
    ask.extend_from_slice(&[6; 32]);
    let mut late = server(A);
    mint(&mut late);
    assert!(take_device_invitation(&mut late, &ask, NOW + 900).is_none());
    let r = take_device_invitation(&mut n, &ask, NOW + 899).unwrap();
    assert_eq!(r.own_secret, keys(4).private_key);
    assert!(n.owner.device_invitations.is_empty());
}

#[test]
fn contacts_know_each_other_after_they_met() {
    let mut a = server(A);
    let mut dora = Node::new([0x61; 16], [0x62; 16]);
    dora.owner.key_pair = keys(0x63);
    dora.owner.user.alias = "dora".to_string();
    let code = encode_invitation_code(&[3; 16], &[4; 32], &vec!["127.0.0.1:7001".to_string()]);
    let e = start_contact_exchange(&mut dora, &code, &Vec::new(), keys(5), [6; 32]);
    let card = match &e[..] {
        [Effect::SealWith { body, .. }] => body.clone(),
        _ => panic!("one card expected"),
    };
    assert_eq!(card, serialize_contact_payload(&dora));
    assert_eq!(
        dora.owner.pending_contact_exchange,
        Some(PendingContactExchange {
            our_ephem_key_pair: keys(5),
            invitation_pk: [4; 32],
            sg_addr: host(7001),
        })
    );
    let e = contact_request(&mut a, v4(1), &card, [6; 32], WriterTarget::Local, NOW, RETENTION);
    let back = e
        .iter()
        .find_map(|x| match x {
            Effect::SealWith { head, body, .. } if head[..] == [CONTACT_RESPONSE_OP] => {
                Some(body.clone())
            },
            _ => None,
        })
        .unwrap();
    contact_response(&mut dora, v4(7001), &back, WriterTarget::Local, NOW, RETENTION);
    assert!(dora.owner.pending_contact_exchange.is_none());
    assert_eq!(a.owner.contact_users[0].user.alias, "dora");
    assert_eq!(dora.owner.contact_users[0].user.uuid, USER);

    let sessions = a.owner.active_connections.len();
    let ask = request_from(&dora, [0x61; 16]);
    connect_request(&mut a, v4(1), &ask, true, keys(1), NOW, times());
    assert_eq!(a.owner.active_connections.len(), sessions + 1);
    for u in [A, B] {
        let ask = request_from(&a, u);
        connect_request(&mut dora, v4(2), &ask, true, keys(2), NOW, times());
    }
    assert_eq!(dora.owner.active_connections.len(), 2);
}

#[test]
fn an_identifier_in_a_form_names_what_it_was_written_for() {
    let id: Uuid = [
        0x00, 0x0F, 0xA0, 0xFF, 0x10, 0x2B, 0x3C, 0x4D, 0x5E, 0x6F, 0x70, 0x81, 0x92, 0xA3, 0xB4,
        0xC5,
    ];
    assert_eq!(uuid_hex(&id), "000fa0ff102b3c4d5e6f708192a3b4c5");
    assert_eq!(uuid_from_hex(&uuid_hex(&id)), Some(id));
    let mut n = server(A);
    let mut a = app(id, 5001, [0x51; 16]);
    a.user_approved = false;
    device_mut(&mut n, A).applications.push(a);
    let form = format!("id={}", uuid_hex(&id));
    let (err, _) = approve_app(&mut n, form.as_bytes(), WriterTarget::Local, NOW, RETENTION);
    assert_eq!(err, None);
    assert!(device_mut(&mut n, A).applications[0].user_approved);
}

#[test]
fn a_registered_application_sends_with_its_token() {
    let mut n = server(A);
    let mut p = vec![4u8];
    p.extend_from_slice(b"chat");
    p.extend_from_slice(&5001u16.to_be_bytes());
    p.push(3);
    p.extend_from_slice(b"udp");
    let with = RegisterWith {
        auto_approve: true,
        fresh_id: [0x41; 16],
        fresh_token: [0x51; 16],
        target: WriterTarget::Local,
        now: NOW,
        retention: RETENTION,
    };
    let e = app_register(&mut n, v4(5001), &p, true, with);
    match e.last() {
        Some(Effect::Send { bytes, .. }) => {
            assert_eq!(bytes[0], OK);
            assert_eq!(bytes[1..], [0x51; 16]);
        },
        _ => panic!("a token expected"),
    }
    let packet = message([0x51; 16], B, [0x42; 16], b"hi");
    let e = app_send_packet(&n, v4(5001), &packet, true, NOW, 1200);
    let body = sealed(&e, APP_PACKET_OP);
    assert_eq!(body[16..32], [0x41; 16]);
}

#[test]
fn cards_do_not_tell_in_which_order_devices_and_apps_stood() {
    let apps = |ids: &[u8]| ids.iter().map(|i| app([*i; 16], 9000, [*i; 16])).collect::<Vec<_>>();
    let make = |uuid, ids: &[u8]| {
        let mut d = device(uuid, "d", DeviceGrade::SG, Some(1), &["10.0.0.1:7000"]);
        d.applications = apps(ids);
        d
    };
    let one = devices_to_cards(&vec![make(A, &[1, 2, 3]), make(B, &[4])]);
    let other = devices_to_cards(&vec![make(B, &[4]), make(A, &[3, 1, 2])]);
    assert_eq!(one, other);
    assert_eq!(one[0].uuid, A);
    assert_eq!(
        one[0].apps,
        vec![
            ([1; 16], "chat".to_string()),
            ([2; 16], "chat".to_string()),
            ([3; 16], "chat".to_string()),
        ]
    );
    assert_eq!(one[1].uuid, B);
}

#[test]
fn no_key_occurs_twice_whatever_comes() {
    let once = |n: &Node| {
        let distinct = |mut v: Vec<Vec<u8>>| {
            let len = v.len();
            v.sort();
            v.dedup();
            assert_eq!(v.len(), len);
        };
        let o = &n.owner;
        distinct(o.active_connections.iter().map(|c| c.id.to_be_bytes().to_vec()).collect());
        distinct(o.pending_connections.iter().map(|c| c.our_conn_id.to_be_bytes().to_vec()).collect());
        distinct(o.pending_tunnels.iter().map(|t| t.tunnel_id.to_be_bytes().to_vec()).collect());
        distinct(o.active_tunnels.iter().map(|t| t.id.to_be_bytes().to_vec()).collect());
        distinct(
            o.pending_tunnel_connections.iter().map(|t| t.tunnel_id.to_be_bytes().to_vec()).collect(),
        );
        distinct(o.dg_tunnel_map.iter().map(|l| l.tunnel_id.to_be_bytes().to_vec()).collect());
        distinct(o.device_invitations.iter().map(|i| i.id.to_vec()).collect());
        distinct(o.last_watermarks.iter().map(|m| m.peer.to_vec()).collect());
        distinct(o.received_merge_proposals.iter().map(|m| m.peer.to_vec()).collect());
    };
    let mut a = server(A);
    let mut b = server(B);
    once(&a);
    write(&mut a, add_app(A, [1; 16], "one"));
    for _ in 0..3 {
        hand_over(&mut a, &mut b);
        hand_over(&mut b, &mut a);
        once(&a);
        once(&b);
    }
    assert_eq!(a.owner.last_watermarks.len(), 1);
    assert_eq!(b.owner.received_merge_proposals.len(), 1);
    a.owner.active_connections.push(conn(6, [0x31; 16], 7001));
    a.owner.active_connections.push(conn(7, [0x32; 16], 7002));
    for _ in 0..2 {
        setup_tunnel(&mut a, [0x31; 16], [0x32; 16]);
        once(&a);
    }
    assert_eq!(a.owner.pending_tunnels.len(), 2);
    let mut init = vec![0u8, 4];
    init.extend_from_slice(&[0x32; 16]);
    for seed in 0..3 {
        tunnel_init(&mut a, v4(7001), &init, keys(seed));
        once(&a);
    }
    assert_eq!(a.owner.pending_tunnel_connections.len(), 1);
}
