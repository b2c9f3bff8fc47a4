//! Applications, sessions, routing, relaying and tunnels.
use pnet::app_edge::{
    app_get_data, app_register, app_send_packet, app_update, registration_needs_writer, send_token,
    update_needs_writer, RegisterWith,
};
use pnet::effects::{Effect, Task};
use pnet::find::find_device;
use pnet::hosts::parse_host_entry;
use pnet::ids::{allocate_conn_id, put_conn};
use pnet::relay::{app_packet, count_relayed, relay_packet, RelayLimits};
use pnet::routing::{
    best_address_for_device, best_sg_connection, find_pull_source, find_writer_sg, ipv4_from,
    sg_candidates_for_dest, top_ranked_sg_for_device, ResolvedHost, WriterTarget,
};
use pnet::sessions::{
    conn_reset, connect_ack, connect_ack_signature, connect_request, connect_request_signature,
    dg_keepalive_receive, is_pong, keepalive_dg, maintain_connections, ping_packet, poll_targets,
    record_sg_status, sg_ping, SessionTimes,
};
use pnet::tunnels::{
    allocate_tunnel_id, cleanup_tunnels, setup_tunnel, tunnel_connect_ack, tunnel_connect_request,
    tunnel_delivery, tunnel_delivery_parts, tunnel_forward, tunnel_forward_packet, tunnel_init,
};
use pnet::types::{
    ActiveConnection, ActiveTunnel, Application, Contact, Device, DeviceGrade, HostAddr, Ipv4,
    KeyPair, Node, PeerAddr, PendingConnection, SgHostStatus, SgStatus, SyncVersion, TunnelCounter,
    TunnelLeg, User, Uuid,
};
use pnet::wire::{
    read_str, APP_PACKET_OP, APP_PUSH_OP, CONNECT_ACK_OP, CONNECT_REQUEST_OP, DG_KEEPALIVE_OP,
    ERR_BAD_PACKET, ERR_NOT_APPROVED, ERR_NO_ROUTE, ERR_PAYLOAD_TOO_LARGE, ERR_RATE_LIMITED,
    ERR_TOKEN_UNKNOWN, OK, RELAY_PACKET_OP, SG_PONG_OP, STATUS_ERR,
};

const NOW: u64 = 1_700_000_000;
const RETENTION: u64 = 30 * 86_400;
const MAX_APP_PAYLOAD: usize = 1200;
const LOCAL: Uuid = [0x10; 16];

fn node() -> Node {
    Node::new(LOCAL, [0x20; 16])
}

fn v4(port: u16) -> PeerAddr {
    PeerAddr::V4(host(port))
}

fn host(port: u16) -> HostAddr {
    HostAddr { ip: Ipv4 { a: 127, b: 0, c: 0, d: 1 }, port }
}

fn keys(seed: u8) -> KeyPair {
    KeyPair { public_key: [seed; 32], private_key: [seed ^ 0xFF; 32] }
}

fn times() -> SessionTimes {
    SessionTimes { lifetime: 3600, pending_timeout: 30, renew_threshold: 600 }
}

fn app_uuid(seed: u16) -> Uuid {
    let mut u = [0u8; 16];
    u[14..16].copy_from_slice(&seed.to_be_bytes());
    u
}

fn conn(id: u16, device_uuid: Uuid, port: u16) -> ActiveConnection {
    ActiveConnection {
        id,
        timeout: NOW + 3600,
        key_pair: keys(id as u8),
        peer_public_key: [id as u8 + 1; 32],
        peer_active_connection_id: 100 + id,
        device_uuid,
        peer_addr: v4(port),
    }
}

fn device(uuid: Uuid, alias: &str, grade: DeviceGrade, sg_rank: Option<u32>, hosts: Vec<String>) -> Device {
    Device { uuid, alias: alias.to_string(), grade, sg_rank, hosts, applications: Vec::new() }
}

fn sg_device(uuid: Uuid) -> Device {
    device(uuid, "sg", DeviceGrade::SG, Some(1), vec!["127.0.0.1:9000".to_string()])
}

fn contact(uuid: Uuid, public_key: [u8; 32], devices: Vec<Device>) -> Contact {
    Contact {
        user: User { alias: "peer".to_string(), uuid, devices },
        public_key,
        last_seen_public_version: SyncVersion::zero(),
    }
}

fn app(id: Uuid, alias: &str, port: u16, user_approved: bool, token: Uuid) -> Application {
    Application {
        id,
        alias: alias.to_string(),
        protocol: "udp".to_string(),
        host: host(port),
        user_approved,
        token,
    }
}

fn status(device_uuid: Uuid, host: &str, up: bool, rtt_ms: Option<u64>) -> SgHostStatus {
    let last_rtt = rtt_ms.map(|ms| ms * 1_000_000);
    SgHostStatus {
        device_uuid,
        host: host.to_string(),
        status: SgStatus { up, last_rtt, last_polled: 0 },
    }
}

fn local_device(n: &mut Node) -> &mut Device {
    let u = n.device_uuid;
    n.owner.user.devices.iter_mut().find(|d| d.uuid == u).unwrap()
}

fn promote_local_to_sg(n: &mut Node, rank: u32) -> Uuid {
    let d = local_device(n);
    d.grade = DeviceGrade::SG;
    d.sg_rank = Some(rank);
    d.uuid
}

fn add_peer_sg(n: &mut Node, rank: u32, with_conn: bool, polled_up: Option<bool>) -> Uuid {
    let uuid = [0x40 + rank as u8; 16];
    let h = format!("127.0.0.1:{}", 9000 + rank);
    n.owner.user.devices.push(device(
        uuid,
        &format!("sg-{rank}"),
        DeviceGrade::SG,
        Some(rank),
        vec![h.clone()],
    ));
    if with_conn {
        n.owner.active_connections.push(conn(rank as u16, uuid, 0));
    }
    if let Some(up) = polled_up {
        n.sg_statuses.push(status(uuid, &h, up, Some(20)));
    }
    uuid
}

fn sent(e: &[Effect]) -> Vec<Vec<u8>> {
    e.iter()
        .filter_map(|x| match x {
            Effect::Send { bytes, .. } => Some(bytes.clone()),
            _ => None,
        })
        .collect()
}

fn only_sent(e: &[Effect]) -> Vec<u8> {
    let s = sent(e);
    assert_eq!(s.len(), 1);
    s[0].clone()
}

fn sealed(e: &[Effect]) -> Vec<(ActiveConnection, u8, Vec<u8>)> {
    e.iter()
        .filter_map(|x| match x {
            Effect::Seal { conn, op, body } => Some((*conn, *op, body.clone())),
            _ => None,
        })
        .collect()
}

// Registering.

fn register_packet(alias: &str, port: u16, protocol: &str) -> Vec<u8> {
    let mut buf = vec![alias.len() as u8];
    buf.extend_from_slice(alias.as_bytes());
    buf.extend_from_slice(&port.to_be_bytes());
    buf.push(protocol.len() as u8);
    buf.extend_from_slice(protocol.as_bytes());
    buf
}

fn register_with(n: &Node, seed: u8, auto_approve: bool) -> RegisterWith {
    RegisterWith {
        auto_approve,
        fresh_id: [seed; 16],
        fresh_token: [seed ^ 0x80; 16],
        target: find_writer_sg(n),
        now: NOW,
        retention: RETENTION,
    }
}

fn register(n: &mut Node, alias: &str, port: u16, seed: u8) -> Vec<u8> {
    let with = register_with(n, seed, false);
    let e = app_register(n, v4(5000), &register_packet(alias, port, "udp"), true, with);
    only_sent(&e)
}

fn register_and_get_token(n: &mut Node, alias: &str, port: u16, seed: u8) -> Uuid {
    let reply = register(n, alias, port, seed);
    assert_eq!(reply[0], OK);
    reply[1..17].try_into().unwrap()
}

#[test]
fn app_register_returns_token() {
    let mut n = node();
    let reply = register(&mut n, "myapp", 9001, 1);
    assert_eq!(reply[0], OK);
    assert_eq!(reply.len(), 17, "reply should be status + 16-byte token");
}

#[test]
fn app_register_adds_application_to_node() {
    let mut n = node();
    register(&mut n, "myapp", 9001, 1);
    let d = local_device(&mut n);
    assert_eq!(d.applications.len(), 1);
    assert_eq!(d.applications[0].alias, "myapp");
    assert_eq!(d.applications[0].host.port, 9001);
    assert!(!d.applications[0].user_approved);
}

#[test]
fn app_register_each_app_gets_unique_id_and_token() {
    let mut n = node();
    let reply1 = register(&mut n, "app1", 9001, 1);
    let reply2 = register(&mut n, "app2", 9002, 2);
    assert_ne!(&reply1[1..17], &reply2[1..17], "tokens must be unique");
    let d = local_device(&mut n);
    assert_eq!(d.applications.len(), 2);
    assert_ne!(d.applications[0].id, d.applications[1].id);
}

#[test]
fn app_register_is_idempotent_on_repeat() {
    let mut n = node();
    let reply1 = register(&mut n, "probe", 9001, 1);
    let reply2 = register(&mut n, "probe", 9001, 2);
    assert_eq!(&reply1[1..17], &reply2[1..17], "retry must return the same token");
    let probes = local_device(&mut n).applications.iter().filter(|a| a.alias == "probe").count();
    assert_eq!(probes, 1, "re-registration must not create a duplicate app");
}

#[test]
fn app_register_rejects_bad_packet() {
    let mut n = node();
    let with = register_with(&n, 1, false);
    let reply = only_sent(&app_register(&mut n, v4(5000), &[], true, with));
    assert_eq!(reply, vec![STATUS_ERR, ERR_BAD_PACKET]);
}

#[test]
fn app_register_rate_limited() {
    let mut n = node();
    let with = register_with(&n, 1, false);
    let packet = register_packet("overflow", 9999, "udp");
    let reply = only_sent(&app_register(&mut n, v4(5000), &packet, false, with));
    assert_eq!(reply, vec![STATUS_ERR, ERR_RATE_LIMITED]);
    assert!(local_device(&mut n).applications.is_empty());
}

#[test]
fn a_writer_publishes_an_app_that_is_approved_at_once() {
    let mut n = node();
    promote_local_to_sg(&mut n, 1);
    let with = register_with(&n, 7, true);
    app_register(&mut n, v4(5000), &register_packet("auto", 9001, "udp"), true, with);
    assert!(local_device(&mut n).applications[0].user_approved);
    assert_eq!(n.owner.public_version.epoch, 1);
    assert_eq!(n.owner.write_log.len(), 1);
}

// Updating.

fn update_packet(token: &Uuid, new_alias: Option<&str>, new_port: Option<u16>) -> Vec<u8> {
    let mut buf = token.to_vec();
    let mut flags: u8 = 0;
    let mut extra: Vec<u8> = Vec::new();
    if let Some(alias) = new_alias {
        flags |= 0x01;
        extra.push(alias.len() as u8);
        extra.extend_from_slice(alias.as_bytes());
    }
    if let Some(port) = new_port {
        flags |= 0x02;
        extra.extend_from_slice(&port.to_be_bytes());
    }
    buf.push(flags);
    buf.extend(extra);
    buf
}

fn update(n: &mut Node, packet: &[u8]) -> Vec<u8> {
    let target = find_writer_sg(n);
    only_sent(&app_update(n, v4(5000), packet, target, NOW, RETENTION))
}

#[test]
fn app_update_alias() {
    let mut n = node();
    promote_local_to_sg(&mut n, 1);
    let token = register_and_get_token(&mut n, "original", 9001, 1);
    assert_eq!(update(&mut n, &update_packet(&token, Some("renamed"), None)), vec![OK]);
    assert_eq!(local_device(&mut n).applications[0].alias, "renamed");
}

#[test]
fn app_update_port() {
    let mut n = node();
    let token = register_and_get_token(&mut n, "myapp", 9001, 1);
    assert_eq!(update(&mut n, &update_packet(&token, None, Some(9999))), vec![OK]);
    assert_eq!(local_device(&mut n).applications[0].host.port, 9999);
}

#[test]
fn app_update_unknown_token_returns_error() {
    let mut n = node();
    let reply = update(&mut n, &update_packet(&[0xFFu8; 16], Some("x"), None));
    assert_eq!(reply[0], STATUS_ERR);
    assert_eq!(reply[1], ERR_TOKEN_UNKNOWN);
}

#[test]
fn an_alias_that_no_writer_takes_is_put_back() {
    let mut n = node();
    let token = register_and_get_token(&mut n, "stays", 9001, 1);
    local_device(&mut n).applications[0].user_approved = true;
    let reply = update(&mut n, &update_packet(&token, Some("lost"), None));
    assert_eq!(reply[0], STATUS_ERR);
    assert_eq!(local_device(&mut n).applications[0].alias, "stays");
}

// Pings.

#[test]
fn sg_ping_replies_with_pong_and_echoed_nonce() {
    let nonce: Uuid = *b"test_nonce_12345";
    let reply = only_sent(&sg_ping(v4(5000), &nonce));
    assert_eq!(reply.len(), 17);
    assert_eq!(reply[0], SG_PONG_OP);
    assert_eq!(reply[1..17], nonce);
    assert!(is_pong(&reply, &nonce));
    assert!(!is_pong(&reply, &[0; 16]));
    assert!(!is_pong(&reply[..16], &nonce));
    assert_eq!(ping_packet(&nonce)[1..], nonce);
}

// The directory.

#[test]
fn app_get_data_returns_app_and_node_tree() {
    let mut n = node();
    let token = register_and_get_token(&mut n, "myapp", 9001, 1);
    let reply = only_sent(&app_get_data(&n, v4(5000), &token));
    assert_eq!(reply[0], OK);
    let mut pos = 1usize;
    pos += 16;
    assert_eq!(read_str(&reply, &mut pos).unwrap(), "myapp");
    pos += 4 + 2;
    assert_eq!(reply[pos], 0);
    pos += 1;
    let token_back: Uuid = reply[pos..pos + 16].try_into().unwrap();
    pos += 16;
    assert_eq!(token_back, token);
    pos += 16;
    let owner_alias = read_str(&reply, &mut pos).unwrap();
    assert!(!owner_alias.is_empty());
    pos += 16;
    assert_eq!(reply[pos], 1);
    pos += 1;
    pos += 16;
    let _dev_alias = read_str(&reply, &mut pos).unwrap();
    pos += 1 + 1;
    let host_count = reply[pos] as usize;
    pos += 1;
    for _ in 0..host_count {
        read_str(&reply, &mut pos).unwrap();
    }
    let app_count = reply[pos] as usize;
    pos += 1;
    assert_eq!(app_count, 1);
    for _ in 0..app_count {
        pos += 16;
        read_str(&reply, &mut pos).unwrap();
        pos += 4 + 2 + 1;
    }
    assert_eq!(reply[pos], 0);
}

#[test]
fn app_get_data_unknown_token_returns_error() {
    let n = node();
    let reply = only_sent(&app_get_data(&n, v4(5000), &[0xFFu8; 16]));
    assert_eq!(reply, vec![STATUS_ERR, ERR_TOKEN_UNKNOWN]);
}

#[test]
fn app_get_data_does_not_leak_foreign_tokens_or_keys() {
    let mut n = node();
    let token_a = register_and_get_token(&mut n, "app-a", 9001, 0x31);
    let token_b = register_and_get_token(&mut n, "app-b", 9002, 0x32);
    n.owner.key_pair = KeyPair { public_key: [0xA5; 32], private_key: [0x5A; 32] };
    let mut phone =
        device([0x61; 16], "bob-phone", DeviceGrade::DG, None, vec!["10.0.0.9:7777".to_string()]);
    phone.applications.push(app(app_uuid(77), "secret-pending", 9000, false, [0xF1; 16]));
    phone.applications.push(app(app_uuid(78), "bob-chat", 9001, true, [0xF2; 16]));
    n.owner.contact_users.push(contact([0x62; 16], [0xCC; 32], vec![phone]));

    let reply = only_sent(&app_get_data(&n, v4(5000), &token_a));
    assert_eq!(reply[0], OK);
    let has16 = |needle: Uuid| reply.windows(16).any(|w| w == needle);
    let has32 = |needle: [u8; 32]| reply.windows(32).any(|w| w == needle);
    assert_eq!(reply.windows(16).filter(|w| *w == token_a).count(), 1, "own token appears once");
    assert!(!has16(token_b), "must not leak sibling app token");
    assert!(!has16([0xF1; 16]), "must not leak unapproved contact app token");
    assert!(!has16([0xF2; 16]), "must not leak approved contact app token");
    assert!(!has32([0x5A; 32]), "must not leak owner private key");
    assert!(!has32([0xCC; 32]), "must not leak contact public keys");
    assert!(!has16(app_uuid(77)), "unapproved contact apps are left out");
    assert!(has16(app_uuid(78)), "approved contact apps are visible by id");
}

#[test]
fn the_directory_does_not_depend_on_what_contacts_keep_to_themselves() {
    let tell = |secret: bool| {
        let mut n = node();
        let token = register_and_get_token(&mut n, "app-a", 9001, 0x31);
        let mut phone = device([0x61; 16], "bob-phone", DeviceGrade::DG, None, Vec::new());
        if secret {
            phone.applications.push(app(app_uuid(77), "pending", 9000, false, [0xF1; 16]));
        }
        let (port, of) = if secret { (9001, [0xF2; 16]) } else { (9002, [0xF3; 16]) };
        phone.applications.push(app(app_uuid(78), "bob-chat", port, true, of));
        n.owner.contact_users.push(contact([0x62; 16], [secret as u8; 32], vec![phone]));
        only_sent(&app_get_data(&n, v4(5000), &token))
    };
    assert_eq!(tell(true), tell(false));
}

#[test]
fn the_writer_is_needed_only_for_what_is_published() {
    let mut n = node();
    promote_local_to_sg(&mut n, 1);
    let chat = register_packet("chat", 9001, "udp");
    assert!(!registration_needs_writer(&n, v4(5000), &chat, false));
    assert!(registration_needs_writer(&n, v4(5000), &chat, true));
    assert!(!registration_needs_writer(&n, v4(5000), &chat[..3], true));
    let token = register_and_get_token(&mut n, "chat", 9001, 1);
    assert!(!registration_needs_writer(&n, v4(5000), &chat, true), "it is known already");
    assert!(update_needs_writer(&n, &update_packet(&token, Some("other"), None)));
    assert!(!update_needs_writer(&n, &update_packet(&token, Some("chat"), None)));
    assert!(!update_needs_writer(&n, &update_packet(&token, None, Some(9002))));
    assert!(!update_needs_writer(&n, &update_packet(&[9; 16], Some("other"), None)));
    assert!(!update_needs_writer(&n, &token));
}

// Sending.

#[test]
fn a_packet_to_be_sent_shows_its_token_if_it_is_whole() {
    let whole = send_packet(&[7; 16], [1; 16], [2; 16], &[]);
    assert_eq!(send_token(&whole), Some([7; 16]));
    assert_eq!(send_token(&whole[..47]), None);
    let n = node();
    for allowed in [true, false] {
        let e = app_send_packet(&n, v4(5000), &whole[..47], allowed, NOW, MAX_APP_PAYLOAD);
        assert_eq!(only_sent(&e), vec![STATUS_ERR, ERR_BAD_PACKET]);
    }
}

fn send_packet(token: &Uuid, dest_device: Uuid, dest_app: Uuid, payload: &[u8]) -> Vec<u8> {
    let mut buf = Vec::new();
    buf.extend_from_slice(token);
    buf.extend_from_slice(&dest_device);
    buf.extend_from_slice(&dest_app);
    buf.extend_from_slice(payload);
    buf
}

fn send(n: &Node, packet: &[u8]) -> Vec<Effect> {
    app_send_packet(n, v4(5000), packet, true, NOW, MAX_APP_PAYLOAD)
}

#[test]
fn app_send_packet_rejects_bad_packet() {
    let n = node();
    assert_eq!(only_sent(&send(&n, &[0u8; 10])), vec![STATUS_ERR, ERR_BAD_PACKET]);
}

#[test]
fn app_send_packet_rejects_unknown_token() {
    let n = node();
    let p = send_packet(&[0xFF; 16], [0xAA; 16], [0xAA; 16], b"hi");
    assert_eq!(only_sent(&send(&n, &p)), vec![STATUS_ERR, ERR_TOKEN_UNKNOWN]);
}

#[test]
fn app_send_packet_rejects_unapproved_app() {
    let mut n = node();
    let token = register_and_get_token(&mut n, "pending", 9001, 1);
    let p = send_packet(&token, [0xBB; 16], [0xBB; 16], b"hi");
    assert_eq!(only_sent(&send(&n, &p)), vec![STATUS_ERR, ERR_NOT_APPROVED]);
}

#[test]
fn app_send_packet_rejects_no_route() {
    let mut n = node();
    let token = register_and_get_token(&mut n, "sender", 9001, 1);
    local_device(&mut n).applications[0].user_approved = true;
    let p = send_packet(&token, [0xCC; 16], [0xDD; 16], b"hi");
    assert_eq!(only_sent(&send(&n, &p)), vec![STATUS_ERR, ERR_NO_ROUTE]);
}

#[test]
fn app_send_packet_rejects_payload_too_large() {
    let mut n = node();
    let token = register_and_get_token(&mut n, "big", 9001, 1);
    local_device(&mut n).applications[0].user_approved = true;
    let p = send_packet(&token, [0xEE; 16], [0xEE; 16], &vec![0u8; MAX_APP_PAYLOAD + 1]);
    assert_eq!(only_sent(&send(&n, &p)), vec![STATUS_ERR, ERR_PAYLOAD_TOO_LARGE]);
}

#[test]
fn app_send_packet_is_rate_limited() {
    let n = node();
    let p = send_packet(&[0xFF; 16], [0xAA; 16], [0xAA; 16], b"hi");
    let e = app_send_packet(&n, v4(5000), &p, false, NOW, MAX_APP_PAYLOAD);
    assert_eq!(only_sent(&e), vec![STATUS_ERR, ERR_RATE_LIMITED]);
}

#[test]
fn a_packet_takes_the_direct_session_a_server_or_a_tunnel() {
    let mut n = node();
    let token = register_and_get_token(&mut n, "sender", 9001, 1);
    local_device(&mut n).applications[0].user_approved = true;
    let own_id = local_device(&mut n).applications[0].id;
    let dest = [0xCC; 16];
    let p = send_packet(&token, dest, [0xDD; 16], b"hi");
    let mut inner = [0xDD; 16].to_vec();
    inner.extend_from_slice(&own_id);
    inner.extend_from_slice(b"hi");

    let sg = add_peer_sg(&mut n, 1, true, None);
    let relayed = sealed(&send(&n, &p));
    assert_eq!(relayed.len(), 1);
    assert_eq!(relayed[0].0.device_uuid, sg);
    assert_eq!(relayed[0].1, RELAY_PACKET_OP);
    assert_eq!(relayed[0].2[..16], dest);
    assert_eq!(relayed[0].2[16..], inner[..]);

    n.owner.active_connections.push(conn(9, dest, 7001));
    let direct = sealed(&send(&n, &p));
    assert_eq!(direct[0].0.device_uuid, dest);
    assert_eq!(direct[0].1, APP_PACKET_OP);
    assert_eq!(direct[0].2, inner);

    n.owner.dg_tunnel_map.push(TunnelLeg { tunnel_id: 77, conn_id: 9 });
    let e = send(&n, &p);
    assert!(matches!(
        &e[0],
        Effect::SealTunnel { conn, via, tunnel_id, body }
            if conn.device_uuid == dest && via.device_uuid == sg && *tunnel_id == 77 && *body == inner
    ));
}

// Keepalives.

#[test]
fn keepalive_dg_fans_out_to_own_and_contact_sgs() {
    let mut n = node();
    let own_sg = [0x51; 16];
    let contact_sg = [0x52; 16];
    n.owner.user.devices.push(device(
        own_sg,
        "own-sg",
        DeviceGrade::SG,
        Some(1),
        vec!["127.0.0.1:7777".to_string()],
    ));
    n.owner.contact_users.push(contact([0x53; 16], [1; 32], vec![sg_device(contact_sg)]));
    n.owner.active_connections.push(conn(1, own_sg, 1001));
    n.owner.active_connections.push(conn(2, contact_sg, 1002));
    let s = sealed(&keepalive_dg(&n));
    assert_eq!(s.len(), 2);
    assert!(s.iter().all(|x| x.1 == DG_KEEPALIVE_OP && x.2.is_empty()));
    assert!(s.iter().any(|x| x.0.device_uuid == own_sg));
    assert!(s.iter().any(|x| x.0.device_uuid == contact_sg));
}

#[test]
fn dg_keepalive_receive_refreshes_peer_addr() {
    let mut n = node();
    let mut c = conn(5, [0x54; 16], 1111);
    c.timeout = NOW + 60;
    n.owner.active_connections.push(c);
    let mut data = 5u16.to_be_bytes().to_vec();
    data.extend_from_slice(&[0u8; 40]);
    dg_keepalive_receive(&mut n, v4(2222), &data, true, NOW, times());
    assert_eq!(n.owner.active_connections[0].peer_addr, v4(2222));
    assert!(n.owner.active_connections[0].timeout > NOW + 60, "timeout should be refreshed");
    let e = dg_keepalive_receive(&mut n, v4(3333), &data, false, NOW, times());
    assert_eq!(n.owner.active_connections[0].peer_addr, v4(2222));
    assert_eq!(only_sent(&e)[0], 0x13, "a keepalive that cannot be read resets the session");
}

#[test]
fn a_reset_drops_the_sessions_with_its_sender() {
    let mut n = node();
    n.owner.active_connections.push(conn(5, [0x54; 16], 1111));
    let mut far = conn(6, [0x55; 16], 1111);
    far.peer_addr =
        PeerAddr::V4(HostAddr { ip: Ipv4 { a: 10, b: 0, c: 0, d: 1 }, port: 1111 });
    n.owner.active_connections.push(far);
    let e = conn_reset(&mut n, v4(9));
    assert_eq!(n.owner.active_connections.len(), 1);
    assert_eq!(n.owner.active_connections[0].id, 6);
    assert!(e.iter().any(|x| matches!(x, Effect::Schedule { task: Task::MaintainConnections, .. })));
}

// Who connects to whom.

fn set_local_identity(n: &mut Node, uuid: Uuid, grade: DeviceGrade) {
    let old = n.device_uuid;
    n.device_uuid = uuid;
    for d in n.owner.user.devices.iter_mut() {
        if d.uuid == old {
            d.uuid = uuid;
            d.grade = grade;
            d.sg_rank = if grade == DeviceGrade::SG { Some(1) } else { None };
        }
    }
    n.owner.key_pair = keys(3);
}

fn cache() -> Vec<ResolvedHost> {
    vec![ResolvedHost { host: "127.0.0.1:9000".to_string(), addr: host(9000) }]
}

fn pending_peers(n: &Node) -> Vec<Uuid> {
    n.owner.pending_connections.iter().map(|p| p.peer_device_uuid).collect()
}

#[test]
fn sg_initiates_only_to_higher_uuid_sg() {
    let mut n = node();
    set_local_identity(&mut n, [0x80; 16], DeviceGrade::SG);
    let higher: Uuid = [0xff; 16];
    let lower: Uuid = [0x00; 16];
    n.owner.contact_users.push(contact([1; 16], [1; 32], vec![sg_device(higher)]));
    n.owner.contact_users.push(contact([2; 16], [2; 32], vec![sg_device(lower)]));
    let e = maintain_connections(&mut n, &cache(), &vec![keys(8), keys(9)], NOW, times());
    let pend = pending_peers(&n);
    assert!(pend.contains(&higher), "SG must initiate to a higher-uuid SG peer");
    assert!(!pend.contains(&lower), "SG must not initiate to a lower-uuid SG peer");
    assert!(e.iter().any(|x| matches!(
        x,
        Effect::SendSigned { bytes, .. } if bytes[0] == CONNECT_REQUEST_OP
    )));
}

#[test]
fn dg_initiates_to_sg_regardless_of_uuid() {
    let mut n = node();
    set_local_identity(&mut n, [0x80; 16], DeviceGrade::DG);
    let lower_sg: Uuid = [0x00; 16];
    n.owner.contact_users.push(contact([1; 16], [1; 32], vec![sg_device(lower_sg)]));
    maintain_connections(&mut n, &cache(), &vec![keys(8)], NOW, times());
    assert!(pending_peers(&n).contains(&lower_sg));
}

#[test]
fn a_pending_session_is_not_asked_for_twice() {
    let mut n = node();
    set_local_identity(&mut n, [0x80; 16], DeviceGrade::DG);
    n.owner.contact_users.push(contact([1; 16], [1; 32], vec![sg_device([0; 16])]));
    maintain_connections(&mut n, &cache(), &vec![keys(8)], NOW, times());
    maintain_connections(&mut n, &cache(), &vec![keys(9)], NOW + 1, times());
    assert_eq!(n.owner.pending_connections.len(), 1);
    maintain_connections(&mut n, &cache(), &vec![keys(9)], NOW + 31, times());
    assert_eq!(n.owner.pending_connections.len(), 1, "a stale wish makes room for a new one");
    assert_eq!(n.owner.pending_connections[0].created_at, NOW + 31);
}

// Connecting.

fn add_contact_with_device(n: &mut Node) -> (Uuid, [u8; 32]) {
    let device_uuid = [0x71; 16];
    let pk = [0x72; 32];
    let d = device(
        device_uuid,
        "peer-device",
        DeviceGrade::SG,
        Some(1),
        vec!["127.0.0.1:9999".to_string()],
    );
    n.owner.contact_users.push(contact([0x73; 16], pk, vec![d]));
    (device_uuid, pk)
}

fn connect_request_buf(conn_id: u16, device_uuid: &Uuid, ephemeral: &[u8; 32], longterm: &[u8; 32]) -> Vec<u8> {
    let mut buf = vec![0u8; 146];
    buf[0..2].copy_from_slice(&conn_id.to_be_bytes());
    buf[2..18].copy_from_slice(device_uuid);
    buf[18..50].copy_from_slice(ephemeral);
    buf[50..82].copy_from_slice(longterm);
    buf[82..146].copy_from_slice(&[0x99; 64]);
    buf
}

#[test]
fn connect_request_valid_signature_accepted() {
    let mut n = node();
    let (device_uuid, pk) = add_contact_with_device(&mut n);
    let buf = connect_request_buf(1, &device_uuid, &[4; 32], &pk);
    let part = connect_request_signature(&buf).unwrap();
    assert_eq!(part.signer, pk);
    assert_eq!(part.message[0], CONNECT_REQUEST_OP);
    assert_eq!(part.message[1..], buf[..82]);
    assert_eq!(part.signature, vec![0x99; 64]);
    let e = connect_request(&mut n, v4(5000), &buf, true, keys(5), NOW, times());
    assert_eq!(n.owner.active_connections.len(), 1);
    assert_eq!(n.owner.active_connections[0].device_uuid, device_uuid);
    assert_eq!(n.owner.active_connections[0].timeout, NOW + 3600);
    assert!(e.iter().any(|x| matches!(
        x,
        Effect::SendSigned { bytes, .. } if bytes[0] == CONNECT_ACK_OP
    )));
}

#[test]
fn connect_request_invalid_signature_rejected() {
    let mut n = node();
    let (device_uuid, pk) = add_contact_with_device(&mut n);
    let buf = connect_request_buf(1, &device_uuid, &[4; 32], &pk);
    connect_request(&mut n, v4(5000), &buf, false, keys(5), NOW, times());
    assert!(n.owner.active_connections.is_empty());
}

#[test]
fn connect_request_from_a_stranger_is_rejected() {
    let mut n = node();
    let buf = connect_request_buf(1, &[0x71; 16], &[4; 32], &[0x72; 32]);
    connect_request(&mut n, v4(5000), &buf, true, keys(5), NOW, times());
    assert!(n.owner.active_connections.is_empty());
}

fn pending(our_conn_id: u16, peer_device_uuid: Uuid) -> PendingConnection {
    PendingConnection {
        our_conn_id,
        our_key_pair: keys(6),
        peer_device_uuid,
        peer_longterm_pk: [0x74; 32],
        created_at: NOW,
    }
}

fn connect_ack_buf(responder_conn_id: u16, our_conn_id: u16) -> Vec<u8> {
    let mut buf = vec![0u8; 100];
    buf[0..2].copy_from_slice(&responder_conn_id.to_be_bytes());
    buf[2..4].copy_from_slice(&our_conn_id.to_be_bytes());
    buf[4..36].copy_from_slice(&[7; 32]);
    buf[36..100].copy_from_slice(&[0x98; 64]);
    buf
}

#[test]
fn connect_ack_valid_signature_promotes_pending() {
    let mut n = node();
    let peer = [0x75; 16];
    n.owner.pending_connections.push(pending(42, peer));
    let buf = connect_ack_buf(7, 42);
    let part = connect_ack_signature(&n, &buf).unwrap();
    assert_eq!(part.signer, [0x74; 32]);
    assert_eq!(part.message[0], CONNECT_ACK_OP);
    assert_eq!(part.message[1..], buf[..36]);
    connect_ack(&mut n, v4(5000), &buf, true, NOW, times());
    assert!(n.owner.pending_connections.is_empty());
    assert_eq!(n.owner.active_connections.len(), 1);
    assert_eq!(n.owner.active_connections[0].device_uuid, peer);
    assert_eq!(n.owner.active_connections[0].peer_active_connection_id, 7);
}

#[test]
fn connect_ack_invalid_signature_preserves_pending() {
    let mut n = node();
    n.owner.pending_connections.push(pending(42, [0x75; 16]));
    connect_ack(&mut n, v4(5000), &connect_ack_buf(7, 42), false, NOW, times());
    assert!(n.owner.active_connections.is_empty());
    assert_eq!(n.owner.pending_connections[0].our_conn_id, 42);
}

#[test]
fn a_session_id_is_never_taken_twice() {
    let mut n = node();
    let first = allocate_conn_id(&n);
    n.owner.active_connections.push(conn(first, [1; 16], 1));
    let second = allocate_conn_id(&n);
    assert_ne!(first, second);
    n.owner.pending_connections.push(pending(second, [2; 16]));
    let third = allocate_conn_id(&n);
    assert_ne!(third, first);
    assert_ne!(third, second);
}

#[test]
fn a_new_session_replaces_the_older_one_with_its_device() {
    let mut conns = vec![conn(1, [1; 16], 1), conn(2, [2; 16], 2)];
    put_conn(&mut conns, conn(3, [1; 16], 3), true);
    assert_eq!(conns.iter().filter(|c| c.device_uuid == [1; 16]).count(), 1);
    assert!(conns.iter().any(|c| c.id == 3));
    assert!(conns.iter().any(|c| c.id == 2));
}

// Polling.

#[test]
fn polling_covers_every_known_server_and_records_what_it_found() {
    let mut n = node();
    let sg = add_peer_sg(&mut n, 1, false, None);
    n.owner.contact_users.push(contact([1; 16], [1; 32], vec![sg_device([0x77; 16])]));
    let targets = poll_targets(&n);
    assert_eq!(targets.len(), 2);
    assert!(targets.iter().any(|t| t.device_uuid == sg && t.host == "127.0.0.1:9001"));
    record_sg_status(&mut n, sg, "127.0.0.1:9001".to_string(), Some(12_000_000), 5);
    assert_eq!(n.sg_statuses.len(), 1);
    assert!(n.sg_statuses[0].status.up);
    assert_eq!(n.sg_statuses[0].status.last_rtt, Some(12_000_000));
    record_sg_status(&mut n, sg, "127.0.0.1:9001".to_string(), None, 6);
    assert_eq!(n.sg_statuses.len(), 1);
    assert!(!n.sg_statuses[0].status.up);
}

// Routing.

#[test]
fn sg_candidates_for_dest_includes_own_and_contact_sgs() {
    let mut n = node();
    let own_sg = [0x81; 16];
    let contact_sg = [0x82; 16];
    let dest = [0x83; 16];
    n.owner.user.devices.push(sg_device(own_sg));
    n.owner.contact_users.push(contact(
        [0x84; 16],
        [1; 32],
        vec![
            sg_device(contact_sg),
            device(dest, "dest", DeviceGrade::DG, None, vec!["127.0.0.1:9001".to_string()]),
        ],
    ));
    let c = sg_candidates_for_dest(&n, &dest);
    assert!(c.contains(&own_sg));
    assert!(c.contains(&contact_sg));
    assert!(!c.contains(&dest));
}

#[test]
fn best_sg_connection_picks_lowest_rtt() {
    let mut n = node();
    let slow = [0x85; 16];
    let fast = [0x86; 16];
    n.owner.active_connections.push(conn(1, slow, 0));
    n.owner.active_connections.push(conn(2, fast, 0));
    n.sg_statuses.push(status(slow, "slow", true, Some(80)));
    n.sg_statuses.push(status(fast, "fast", true, Some(20)));
    let best = best_sg_connection(&n, &[slow, fast]).unwrap();
    assert_eq!(best.device_uuid, fast);
}

#[test]
fn a_server_that_is_faster_by_less_than_a_millisecond_is_preferred() {
    let mut n = node();
    let (slow, fast) = ([0x85; 16], [0x86; 16]);
    n.owner.active_connections.push(conn(1, slow, 0));
    n.owner.active_connections.push(conn(2, fast, 0));
    record_sg_status(&mut n, slow, "slow".to_string(), Some(20_900_000), 1);
    record_sg_status(&mut n, fast, "fast".to_string(), Some(20_100_000), 1);
    assert_eq!(best_sg_connection(&n, &[slow, fast]).unwrap().device_uuid, fast);
}

#[test]
fn best_sg_connection_falls_back_when_unpolled() {
    let mut n = node();
    let sg = [0x87; 16];
    n.owner.active_connections.push(conn(1, sg, 0));
    let best = best_sg_connection(&n, &[sg]);
    assert!(best.is_some());
    assert_eq!(best.unwrap().device_uuid, sg);
}

#[test]
fn the_best_ranked_connected_server_of_a_device_carries_for_it() {
    let mut n = node();
    add_peer_sg(&mut n, 1, false, None);
    let second = add_peer_sg(&mut n, 2, true, None);
    let c = top_ranked_sg_for_device(&n, &LOCAL).unwrap();
    assert_eq!(c.device_uuid, second);
    assert!(top_ranked_sg_for_device(&n, &[0xEF; 16]).is_none());
}

#[test]
fn an_address_is_an_ipv4_one_or_stands_for_one() {
    assert_eq!(ipv4_from(v4(1)), Some(Ipv4 { a: 127, b: 0, c: 0, d: 1 }));
    let mapped = PeerAddr::V6 { high: 0, low: 0x0000_ffff_0a00_0001, port: 1, flow: 0, zone: 0 };
    assert_eq!(ipv4_from(mapped), Some(Ipv4 { a: 10, b: 0, c: 0, d: 1 }));
    let plain = PeerAddr::V6 { high: 0x2001_0db8_0000_0000, low: 1, port: 1, flow: 0, zone: 0 };
    assert_eq!(ipv4_from(plain), None);
}

// Who writes.

#[test]
fn find_writer_dg_with_no_own_sgs_is_unreachable() {
    assert_eq!(find_writer_sg(&node()), WriterTarget::Unreachable);
}

#[test]
fn find_writer_dg_with_one_reachable_sg_returns_remote() {
    let mut n = node();
    let sg = add_peer_sg(&mut n, 1, true, Some(true));
    assert_eq!(find_writer_sg(&n), WriterTarget::Remote(sg));
    assert_eq!(find_pull_source(&n), WriterTarget::Remote(sg));
}

#[test]
fn find_writer_dg_optimistic_when_unpolled() {
    let mut n = node();
    let sg = add_peer_sg(&mut n, 1, true, None);
    assert_eq!(find_writer_sg(&n), WriterTarget::Remote(sg));
}

#[test]
fn find_writer_dg_skips_sg_marked_down() {
    let mut n = node();
    add_peer_sg(&mut n, 1, true, Some(false));
    assert_eq!(find_writer_sg(&n), WriterTarget::Unreachable);
}

#[test]
fn find_writer_dg_skips_sg_with_no_connection() {
    let mut n = node();
    add_peer_sg(&mut n, 1, false, Some(true));
    assert_eq!(find_writer_sg(&n), WriterTarget::Unreachable);
}

#[test]
fn find_writer_dg_prefers_lower_rank() {
    let mut n = node();
    let sg1 = add_peer_sg(&mut n, 1, true, Some(true));
    add_peer_sg(&mut n, 2, true, Some(true));
    assert_eq!(find_writer_sg(&n), WriterTarget::Remote(sg1));
}

#[test]
fn find_writer_dg_falls_over_when_top_rank_down() {
    let mut n = node();
    add_peer_sg(&mut n, 1, true, Some(false));
    let sg2 = add_peer_sg(&mut n, 2, true, Some(true));
    assert_eq!(find_writer_sg(&n), WriterTarget::Remote(sg2));
}

#[test]
fn find_writer_local_sg_alone_is_local() {
    let mut n = node();
    promote_local_to_sg(&mut n, 1);
    assert_eq!(find_writer_sg(&n), WriterTarget::Local);
}

#[test]
fn find_writer_local_rank2_with_rank1_reachable_returns_remote() {
    let mut n = node();
    promote_local_to_sg(&mut n, 2);
    let sg1 = add_peer_sg(&mut n, 1, true, Some(true));
    assert_eq!(find_writer_sg(&n), WriterTarget::Remote(sg1));
}

#[test]
fn find_writer_local_rank2_takes_over_when_rank1_down() {
    let mut n = node();
    promote_local_to_sg(&mut n, 2);
    add_peer_sg(&mut n, 1, true, Some(false));
    assert_eq!(find_writer_sg(&n), WriterTarget::Local);
}

#[test]
fn find_writer_local_rank2_disconnected_from_rank1_is_unreachable() {
    let mut n = node();
    promote_local_to_sg(&mut n, 2);
    add_peer_sg(&mut n, 1, false, Some(true));
    assert_eq!(find_writer_sg(&n), WriterTarget::Unreachable);
}

// Hosts.

#[test]
fn resolve_host_entry_parses_ip_port() {
    let addr = parse_host_entry("127.0.0.1:9001").unwrap();
    assert_eq!(addr.port, 9001);
    assert_eq!(addr.ip, Ipv4 { a: 127, b: 0, c: 0, d: 1 });
}

#[test]
fn resolve_host_entry_defaults_port() {
    let addr = parse_host_entry("127.0.0.1").unwrap();
    assert_eq!(addr.port, 7777);
}

#[test]
fn resolve_host_entry_rejects_unresolvable() {
    assert!(parse_host_entry("this.name.definitely.does.not.exist.invalid").is_none());
}

fn resolved(entries: &[&str]) -> Vec<ResolvedHost> {
    entries
        .iter()
        .map(|e| ResolvedHost { host: e.to_string(), addr: parse_host_entry(e).unwrap() })
        .collect()
}

#[test]
fn best_address_for_device_picks_lowest_rtt_up() {
    let mut n = node();
    let u = [0x91; 16];
    let hosts = vec!["127.0.0.1:9001".to_string(), "127.0.0.1:9002".to_string()];
    n.owner.user.devices.push(device(u, "sg", DeviceGrade::SG, Some(1), hosts));
    n.sg_statuses.push(status(u, "127.0.0.1:9001", true, Some(80)));
    n.sg_statuses.push(status(u, "127.0.0.1:9002", true, Some(20)));
    let cache = resolved(&["127.0.0.1:9001", "127.0.0.1:9002"]);
    let addr = best_address_for_device(&n, &cache, &u).unwrap();
    assert_eq!(addr.port, 9002);
}

#[test]
fn best_address_for_device_falls_back_to_first_resolvable() {
    let mut n = node();
    let u = [0x92; 16];
    let hosts = vec!["127.0.0.1:9003".to_string()];
    n.owner.user.devices.push(device(u, "sg", DeviceGrade::SG, Some(1), hosts));
    let addr = best_address_for_device(&n, &resolved(&["127.0.0.1:9003"]), &u).unwrap();
    assert_eq!(addr.port, 9003);
}

// Relaying.

fn limits() -> RelayLimits {
    RelayLimits { max_payload: MAX_APP_PAYLOAD, tunnel_threshold: 3, counter_window_ms: 1000 }
}

fn relay_node(dest: Uuid) -> Node {
    let mut n = node();
    n.owner.active_connections.push(conn(1, [0xA0; 16], 1));
    n.owner.active_connections.push(conn(2, dest, 2));
    n.owner.contact_users.push(contact(
        [0xA1; 16],
        [1; 32],
        vec![device(dest, "dest-dg", DeviceGrade::DG, None, Vec::new())],
    ));
    n
}

fn relay_body(dest: Uuid, payload: &[u8]) -> Vec<u8> {
    let mut b = dest.to_vec();
    b.extend_from_slice(&app_uuid(5));
    b.extend_from_slice(&app_uuid(3));
    b.extend_from_slice(payload);
    b
}

#[test]
fn relay_packet_forwards_app_packet_to_dest() {
    let dest = [0xA2; 16];
    let mut n = relay_node(dest);
    let e = relay_packet(&mut n, 1, &relay_body(dest, b"payload"), 0, limits());
    let s = sealed(&e);
    assert_eq!(s.len(), 1);
    assert_eq!(s[0].0.device_uuid, dest);
    assert_eq!(s[0].1, APP_PACKET_OP);
    assert_eq!(s[0].2[0..16], app_uuid(5));
    assert_eq!(s[0].2[16..32], app_uuid(3));
    assert_eq!(&s[0].2[32..], b"payload");
}

#[test]
fn relay_packet_drops_oversized_app_payload() {
    let dest = [0xA2; 16];
    let mut n = relay_node(dest);
    let e = relay_packet(&mut n, 1, &relay_body(dest, &vec![0u8; MAX_APP_PAYLOAD + 1]), 0, limits());
    assert!(sealed(&e).is_empty());
}

#[test]
fn busy_pairs_get_a_tunnel() {
    let dest = [0xA2; 16];
    let mut n = relay_node(dest);
    let body = relay_body(dest, b"payload");
    relay_packet(&mut n, 1, &body, 0, limits());
    relay_packet(&mut n, 1, &body, 1, limits());
    let e = relay_packet(&mut n, 1, &body, 2, limits());
    assert!(e.iter().any(|x| matches!(
        x,
        Effect::Schedule { task: Task::SetupTunnel { sender_uuid, dest_uuid }, delay_ms: 0 }
            if *sender_uuid == [0xA0; 16] && *dest_uuid == dest
    )));
    assert!(n.owner.tunnel_counters.is_empty());
    let mut counters: Vec<TunnelCounter> = Vec::new();
    assert!(!count_relayed(&mut counters, [1; 16], [2; 16], 0, limits()));
    assert!(!count_relayed(&mut counters, [1; 16], [2; 16], 1000, limits()));
    assert_eq!(counters[0].count, 1, "an old window starts anew");
}

#[test]
fn app_packet_delivers_to_local_app() {
    let mut n = node();
    local_device(&mut n).applications.push(app(app_uuid(9), "myapp", 5001, true, [1; 16]));
    let mut body = app_uuid(9).to_vec();
    body.extend_from_slice(&app_uuid(3));
    body.extend_from_slice(b"hello app");
    let e = app_packet(&n, &body, MAX_APP_PAYLOAD);
    assert!(matches!(&e[0], Effect::Send { dest, .. } if *dest == v4(5001)));
    let push = only_sent(&e);
    assert_eq!(push[0], APP_PUSH_OP);
    assert_eq!(push[1..17], app_uuid(3));
    assert_eq!(&push[17..], b"hello app");
}

#[test]
fn app_packet_drops_oversized_app_payload() {
    let mut n = node();
    local_device(&mut n).applications.push(app(app_uuid(9), "myapp", 5001, true, [1; 16]));
    let mut body = app_uuid(9).to_vec();
    body.extend_from_slice(&app_uuid(3));
    body.extend_from_slice(&vec![0u8; MAX_APP_PAYLOAD + 1]);
    assert!(app_packet(&n, &body, MAX_APP_PAYLOAD).is_empty());
}

#[test]
fn app_packet_skips_unapproved_app() {
    let mut n = node();
    local_device(&mut n).applications.push(app(app_uuid(9), "pending", 5001, false, [1; 16]));
    let mut body = app_uuid(9).to_vec();
    body.extend_from_slice(&app_uuid(3));
    body.extend_from_slice(b"should not land");
    assert!(app_packet(&n, &body, MAX_APP_PAYLOAD).is_empty());
}

#[test]
fn relay_packet_local_delivery_skips_unapproved_app() {
    let mut n = node();
    n.owner.active_connections.push(conn(1, [0xA0; 16], 1));
    local_device(&mut n).applications.push(app(app_uuid(5), "pending", 5001, false, [1; 16]));
    let body = relay_body(LOCAL, b"nope");
    assert!(sent(&relay_packet(&mut n, 1, &body, 0, limits())).is_empty());
    local_device(&mut n).applications[0].user_approved = true;
    assert_eq!(sent(&relay_packet(&mut n, 1, &body, 0, limits())).len(), 1);
}

// Tunnels.

#[test]
fn tunnel_delivery_skips_unapproved_app() {
    let mut n = node();
    local_device(&mut n).applications.push(app(app_uuid(11), "pending", 5001, false, [1; 16]));
    n.owner.active_connections.push(conn(42, [0xB0; 16], 1));
    n.owner.dg_tunnel_map.push(TunnelLeg { tunnel_id: 7, conn_id: 42 });
    let mut buf = 7u16.to_be_bytes().to_vec();
    buf.extend_from_slice(&[1; 24]);
    buf.extend_from_slice(&[2; 40]);
    let parts = tunnel_delivery_parts(&n, &buf).unwrap();
    assert_eq!(parts.conn.id, 42);
    assert_eq!(parts.nonce, vec![1; 24]);
    assert_eq!(parts.ciphertext, vec![2; 40]);
    let mut plaintext = app_uuid(11).to_vec();
    plaintext.extend_from_slice(&app_uuid(4));
    plaintext.extend_from_slice(b"tunnel payload");
    assert!(tunnel_delivery(&n, &plaintext, MAX_APP_PAYLOAD).is_empty());
    local_device(&mut n).applications[0].user_approved = true;
    let push = only_sent(&tunnel_delivery(&n, &plaintext, MAX_APP_PAYLOAD));
    assert_eq!(&push[17..], b"tunnel payload");
}

#[test]
fn a_tunnel_is_set_up_between_two_ends() {
    let a = [0xC1; 16];
    let b = [0xC2; 16];
    let mut server = node();
    server.owner.active_connections.push(conn(1, a, 1001));
    server.owner.active_connections.push(conn(2, b, 1002));
    let id = allocate_tunnel_id(&server);
    let inits = setup_tunnel(&mut server, a, b);
    assert_eq!(server.owner.pending_tunnels.len(), 1);
    assert_eq!(server.owner.pending_tunnels[0].tunnel_id, id);
    let offers = sent(&inits);
    assert!(!offers.is_empty());

    let mut sender = Node::new(a, [1; 16]);
    let req = tunnel_init(&mut sender, v4(7), &offers[0][1..], keys(1));
    assert_eq!(sender.owner.pending_tunnel_connections.len(), 1);
    let req_bytes = sent(&req);
    assert_eq!(req_bytes.len(), 1);
    let fwd = tunnel_connect_request(&mut server, v4(1001), &req_bytes[0][1..], keys(2), NOW, 3600);
    let fwd_bytes = sent(&fwd);
    assert_eq!(fwd_bytes.len(), 1);

    let mut dest = Node::new(b, [2; 16]);
    let ack = tunnel_connect_request(&mut dest, v4(7), &fwd_bytes[0][1..], keys(3), NOW, 3600);
    assert_eq!(dest.owner.dg_tunnel_map.len(), 1);
    let ack_bytes = sent(&ack);
    let back = tunnel_connect_ack(&mut server, v4(1002), &ack_bytes[0][1..], 5, NOW, 3600);
    assert_eq!(server.owner.active_tunnels.len(), 1);
    let back_bytes = sent(&back);
    tunnel_connect_ack(&mut sender, v4(7), &back_bytes[0][1..], 5, NOW, 3600);
    assert_eq!(sender.owner.dg_tunnel_map.len(), 1);
    assert!(sender.owner.pending_tunnel_connections.is_empty());
}

#[test]
fn a_tunnel_carries_both_ways_and_is_forgotten_when_idle() {
    let mut n = node();
    n.owner.active_connections.push(conn(1, [0xC1; 16], 1001));
    n.owner.active_connections.push(conn(2, [0xC2; 16], 1002));
    n.owner.active_tunnels.push(ActiveTunnel {
        id: 9,
        connection_a_id: 1,
        connection_b_id: 2,
        last_used_at: 0,
    });
    let p = tunnel_forward_packet(1, 9, &[3; 24], &[4; 20]);
    let e = tunnel_forward(&mut n, &p[1..], 50, 2000);
    assert!(matches!(&e[0], Effect::Send { dest, .. } if *dest == v4(1002)));
    assert_eq!(n.owner.active_tunnels[0].last_used_at, 50);
    let p = tunnel_forward_packet(2, 9, &[3; 24], &[4; 20]);
    let e = tunnel_forward(&mut n, &p[1..], 60, 2000);
    assert!(matches!(&e[0], Effect::Send { dest, .. } if *dest == v4(1001)));
    cleanup_tunnels(&mut n, 60 + 299_999, NOW, 1000);
    assert_eq!(n.owner.active_tunnels.len(), 1);
    cleanup_tunnels(&mut n, 60 + 300_001, NOW, 1000);
    assert!(n.owner.active_tunnels.is_empty());
}

#[test]
fn devices_are_found_by_identifier() {
    let n = node();
    assert_eq!(find_device(&n.owner.user.devices, &LOCAL), Some(0));
    assert_eq!(find_device(&n.owner.user.devices, &[0; 16]), None);
}
