//! Setup, the admin pages, what the program is started with, and the modules.
use pnet::admin_apps::{approve_app, reject_app, rename_app, UI_ERR_PUBLISH_FAILED};
use pnet::diagnostics::render_diagnostics;
use pnet::dispatch::{read_packet, Packet};
use pnet::effects::{Effect, Task};
use pnet::forms::{
    decoded_field, form_field, hex_bytes, html_escape, html_escape_quotes, query_param, url_decode,
    uuid_from_hex, uuid_hex,
};
use pnet::hosts::{
    http_bind_ip, http_port, known_hosts, parse_host_entry, parse_http_bind, parse_ipv4,
    parse_pnet_hosts, switched_on, udp_port,
};
use pnet::http::{
    body_len, ends_headers, find_header, parse_request_line, redirect, redirect_with_error,
    render_reply, Reply, MAX_BODY,
};
use pnet::invite::encode_invitation_code;
use pnet::layout::{layout, partition_banner, setup_layout, show_host};
use pnet::modules::{
    all, EnabledModules, HttpRequest, Module, ModuleCtx, PacketSource, PacketTarget, SendError,
};
use pnet::numbers::read_number;
use pnet::order::{sort_texts, sort_uuids};
use pnet::pages::{
    render_applications, render_contacts, render_dashboard, render_devices, render_invitations,
    render_pending_apps, ui_error_banner, Flash,
};
use pnet::routing::{ResolvedHost, WriterTarget};
use pnet::scheduler::{Job, Schedule, ScheduleRequest, KEEPALIVE_DG_INTERVAL, POLL_SG_INTERVAL};
use pnet::setup::{
    apply_new_user_setup, complete_join_setup, complete_set_password, complete_setup,
    is_initialized, new_password, validate_new_password,
};
use pnet::setup_pages::{
    render_login, render_set_password, render_setup, render_setup_code_entry,
    render_setup_new_user_form,
};
use pnet::text::{join_texts, lower_text, split_text, trim};
use pnet::types::{
    ActiveConnection, Application, Contact, Device, DeviceGrade, HostAddr, Ipv4, KeyPair, Node,
    PeerAddr, PeerWatermarks, ReceivedProposal, Scope, SgHostStatus, SgStatus, SyncVersion, User,
    Uuid,
};
use pnet::ui::{
    find_route, login_attempt, ui_request, with_cookie, Route, SessionStep, UiOutcome, UiRequest,
    UiWith,
};

const NOW: u64 = 1_700_000_000;
const RETENTION: u64 = 30 * 86_400;
const LOCAL: Uuid = [0x10; 16];
const PEER: Uuid = [0x60; 16];
const LOOPBACK: Ipv4 = Ipv4 { a: 127, b: 0, c: 0, d: 1 };
const ANY: Ipv4 = Ipv4 { a: 0, b: 0, c: 0, d: 0 };

fn node() -> Node {
    Node::new(LOCAL, [0x20; 16])
}

fn keys(seed: u8) -> KeyPair {
    KeyPair { public_key: [seed; 32], private_key: [seed ^ 0xFF; 32] }
}

fn host(port: u16) -> HostAddr {
    HostAddr { ip: LOOPBACK, port }
}

fn app(id: Uuid, alias: &str, user_approved: bool) -> Application {
    Application {
        id,
        alias: alias.to_string(),
        protocol: "udp".to_string(),
        host: host(9000),
        user_approved,
        token: [0x77; 16],
    }
}

fn device_of(n: &Node, uuid: Uuid) -> &Device {
    n.owner.user.devices.iter().find(|d| d.uuid == uuid).unwrap()
}

fn device_mut(n: &mut Node, uuid: Uuid) -> &mut Device {
    n.owner.user.devices.iter_mut().find(|d| d.uuid == uuid).unwrap()
}

fn promote_local_to_sg(n: &mut Node, rank: u32) {
    let d = device_mut(n, LOCAL);
    d.grade = DeviceGrade::SG;
    d.sg_rank = Some(rank);
}

fn sg_peer(hosts: &[&str]) -> Device {
    Device {
        uuid: PEER,
        alias: "sg-peer".to_string(),
        grade: DeviceGrade::SG,
        sg_rank: Some(2),
        hosts: hosts.iter().map(|h| h.to_string()).collect(),
        applications: Vec::new(),
    }
}

fn status(host: &str, up: bool) -> SgHostStatus {
    SgHostStatus {
        device_uuid: PEER,
        host: host.to_string(),
        status: SgStatus { up, last_rtt: if up { Some(8_900_000) } else { None }, last_polled: 0 },
    }
}

// Applications in the admin pages.

const APP: Uuid = [0xA9; 16];

fn with_app(alias: &str, approved: bool) -> Node {
    let mut n = node();
    device_mut(&mut n, LOCAL).applications.push(app(APP, alias, approved));
    n
}

fn id_body(tail: &str) -> Vec<u8> {
    format!("id={}{}", uuid_hex(&APP), tail).into_bytes()
}

#[test]
fn approve_app_success_publishes_and_returns_none() {
    let mut n = with_app("pending", false);
    promote_local_to_sg(&mut n, 1);
    let (r, _) = approve_app(&mut n, &id_body(""), WriterTarget::Local, NOW, RETENTION);
    assert_eq!(r, None);
    assert!(device_of(&n, LOCAL).applications[0].user_approved);
    assert_eq!(n.owner.public_version.epoch, 1);
}

#[test]
fn approve_app_unreachable_rolls_back_and_returns_publish_failed() {
    let mut n = with_app("pending", false);
    let (r, _) = approve_app(&mut n, &id_body(""), WriterTarget::Unreachable, NOW, RETENTION);
    assert_eq!(r, Some(UI_ERR_PUBLISH_FAILED));
    assert!(!device_of(&n, LOCAL).applications[0].user_approved);
}

#[test]
fn reject_app_success_publishes_and_returns_none() {
    let mut n = with_app("doomed", true);
    promote_local_to_sg(&mut n, 1);
    n.owner.bump_version(Scope::Public, LOCAL);
    let before = n.owner.public_version;
    let (r, _) = reject_app(&mut n, &id_body(""), WriterTarget::Local, NOW, RETENTION);
    assert_eq!(r, None);
    assert!(device_of(&n, LOCAL).applications.is_empty());
    assert_eq!(n.owner.public_version.seq, before.seq + 1);
}

#[test]
fn reject_app_unreachable_rolls_back_and_returns_publish_failed() {
    let mut n = with_app("doomed", true);
    let (r, _) = reject_app(&mut n, &id_body(""), WriterTarget::Unreachable, NOW, RETENTION);
    assert_eq!(r, Some(UI_ERR_PUBLISH_FAILED));
    assert_eq!(device_of(&n, LOCAL).applications[0].alias, "doomed");
}

#[test]
fn rename_app_success_publishes_and_returns_none() {
    let mut n = with_app("old", true);
    promote_local_to_sg(&mut n, 1);
    n.owner.bump_version(Scope::Public, LOCAL);
    let before = n.owner.public_version;
    let body = id_body("&alias=new+name");
    let (r, _) = rename_app(&mut n, &body, WriterTarget::Local, NOW, RETENTION);
    assert_eq!(r, None);
    assert_eq!(device_of(&n, LOCAL).applications[0].alias, "new name");
    assert_eq!(n.owner.public_version.seq, before.seq + 1);
}

#[test]
fn rename_app_unreachable_rolls_back_and_returns_publish_failed() {
    let mut n = with_app("stays", true);
    let body = id_body("&alias=attempted");
    let (r, _) = rename_app(&mut n, &body, WriterTarget::Unreachable, NOW, RETENTION);
    assert_eq!(r, Some(UI_ERR_PUBLISH_FAILED));
    assert_eq!(device_of(&n, LOCAL).applications[0].alias, "stays");
}

#[test]
fn rename_app_can_rename_peer_own_sg_device_app() {
    let mut n = node();
    promote_local_to_sg(&mut n, 1);
    let mut d = sg_peer(&["peer-host:7777"]);
    d.applications.push(app(APP, "peer-app", true));
    n.owner.user.devices.push(d);
    let body = id_body("&alias=renamed");
    let (r, _) = rename_app(&mut n, &body, WriterTarget::Local, NOW, RETENTION);
    assert_eq!(r, None);
    assert_eq!(device_of(&n, PEER).applications[0].alias, "renamed");
}

#[test]
fn rename_app_no_op_when_alias_unchanged() {
    let mut n = with_app("same", true);
    promote_local_to_sg(&mut n, 1);
    let before = n.owner.public_version;
    let body = id_body("&alias=same");
    let (r, _) = rename_app(&mut n, &body, WriterTarget::Local, NOW, RETENTION);
    assert_eq!(r, None);
    assert_eq!(n.owner.public_version, before);
    assert!(n.owner.write_log.is_empty());
}

// The banner and the diagnostics.

#[test]
fn partition_banner_empty_with_no_own_sg_peers() {
    assert!(partition_banner(&node()).is_empty());
}

#[test]
fn partition_banner_empty_when_peer_unpolled() {
    let mut n = node();
    n.owner.user.devices.push(sg_peer(&["peer-host:7777"]));
    assert!(partition_banner(&n).is_empty());
}

#[test]
fn partition_banner_fires_when_all_peer_hosts_down() {
    let mut n = node();
    n.owner.user.devices.push(sg_peer(&["peer-host:7777"]));
    n.sg_statuses.push(status("peer-host:7777", false));
    let banner = partition_banner(&n);
    assert!(banner.contains("sg-peer"));
    assert!(banner.contains("Partition detected"));
}

#[test]
fn partition_banner_silent_when_any_host_up() {
    let mut n = node();
    n.owner.user.devices.push(sg_peer(&["host-a:7777", "host-b:7777"]));
    n.sg_statuses.push(status("host-a:7777", false));
    n.sg_statuses.push(status("host-b:7777", true));
    assert!(partition_banner(&n).is_empty());
}

#[test]
fn render_diagnostics_smoke() {
    let mut n = node();
    n.owner.user.devices.push(sg_peer(&["peer-host:7777"]));
    let mark = SyncVersion { writer_sg_uuid: PEER, epoch: 3, seq: 17 };
    n.owner.last_watermarks.push(PeerWatermarks { peer: PEER, marks: vec![mark] });
    n.owner.received_merge_proposals.push(ReceivedProposal { peer: PEER, entries: Vec::new() });
    let html = render_diagnostics(&n, RETENTION);
    assert!(html.contains("Diagnostics"));
    assert!(html.contains("Local node"));
    assert!(html.contains("sg-peer"));
    assert!(html.contains("epoch=3"));
    assert!(html.contains("seq=17"));
    assert!(html.contains("Buffered merge proposals"));
}

#[test]
fn a_round_trip_is_shown_in_whole_milliseconds() {
    let mut n = node();
    n.owner.user.devices.push(sg_peer(&["host-b:7777"]));
    n.sg_statuses.push(status("host-b:7777", true));
    assert!(render_diagnostics(&n, RETENTION).contains("(rtt 8ms)"));
}

// Setup.

#[test]
fn apply_new_user_setup_initializes_node_and_local_device() {
    let mut n = node();
    assert!(!is_initialized(&n));
    let (r, _) = apply_new_user_setup(
        &mut n,
        "alice",
        "alice-laptop",
        DeviceGrade::SG,
        Some(2),
        keys(3),
        "sg.example:7777, 10.0.0.1",
    );
    assert!(r.is_none(), "setup should succeed");
    assert!(is_initialized(&n));
    assert_eq!(n.owner.user.alias, "alice");
    let d = device_of(&n, LOCAL);
    assert_eq!(d.alias, "alice-laptop");
    assert_eq!(d.grade, DeviceGrade::SG);
    assert_eq!(d.sg_rank, Some(2));
    assert_eq!(d.hosts, vec!["sg.example:7777".to_string(), "10.0.0.1".to_string()]);
}

#[test]
fn apply_new_user_setup_dg_clears_sg_rank() {
    let mut n = node();
    let (r, _) =
        apply_new_user_setup(&mut n, "bob", "bob-phone", DeviceGrade::DG, None, keys(3), "");
    assert!(r.is_none());
    let d = device_of(&n, LOCAL);
    assert_eq!(d.grade, DeviceGrade::DG);
    assert_eq!(d.sg_rank, None);
}

#[test]
fn apply_new_user_setup_rejects_empty_aliases() {
    let mut n = node();
    let (r, _) =
        apply_new_user_setup(&mut n, "", "device", DeviceGrade::SG, Some(1), keys(3), "");
    assert_eq!(r, Some("fields"));
    let (r, _) = apply_new_user_setup(&mut n, "user", "", DeviceGrade::SG, Some(1), keys(3), "");
    assert_eq!(r, Some("fields"));
    assert!(!is_initialized(&n));
}

const SETUP: &[u8] = b"alias=Alice&device_alias=Home&grade=sg&sg_rank=1\
    &password=secretpass&password_confirm=secretpass";

#[test]
fn complete_setup_stores_password_hash_and_returns_session() {
    let mut n = node();
    let (r, _) = complete_setup(&mut n, SETUP, keys(3), "", "HASH".to_string());
    assert_eq!(r, Ok(()));
    assert!(is_initialized(&n));
    assert_eq!(n.admin_password_hash.as_deref(), Some("HASH"));
    let a = login_attempt(&n, b"password=secretpass").unwrap();
    assert_eq!((a.password.as_str(), a.stored.as_str()), ("secretpass", "HASH"));
}

#[test]
fn complete_setup_rejects_short_password() {
    let mut n = node();
    let body = b"alias=Alice&device_alias=Home&grade=sg&password=short&password_confirm=short";
    let (r, e) = complete_setup(&mut n, body, keys(3), "", "HASH".to_string());
    assert_eq!(r, Err("password_short"));
    assert!(e.is_empty());
    assert!(!is_initialized(&n));
    assert!(n.admin_password_hash.is_none());
}

#[test]
fn a_new_password_is_long_and_given_twice() {
    assert_eq!(validate_new_password("secretpass", "secretpass"), Ok(()));
    assert_eq!(validate_new_password("secretpas", "secretpass"), Err("password_mismatch"));
    assert_eq!(validate_new_password("1234567", "1234567"), Err("password_short"));
    assert_eq!(new_password(SETUP), Ok("secretpass".to_string()));
    let mut n = node();
    let (r, _) = complete_set_password(&mut n, b"password=abcdefgh&password_confirm=abcdefgh", "H".to_string());
    assert_eq!(r, Ok(()));
    assert_eq!(n.admin_password_hash.as_deref(), Some("H"));
}

#[test]
fn a_join_stores_the_password_before_it_asks() {
    let mut n = node();
    let code = encode_invitation_code(&[1; 16], &[2; 32], &vec!["127.0.0.1:7777".to_string()]);
    let cache = vec![ResolvedHost { host: "127.0.0.1:7777".to_string(), addr: host(7777) }];
    let body = format!(
        "code={code}&device_alias=tab&grade=dg&password=secretpass&password_confirm=secretpass"
    );
    let (r, e) = complete_join_setup(&mut n, body.as_bytes(), &cache, keys(4), "H".to_string());
    assert_eq!(r, Ok(()));
    assert_eq!(n.admin_password_hash.as_deref(), Some("H"));
    assert_eq!(n.owner.pending_bootstrap.as_ref().unwrap().device_alias, "tab");
    assert!(e.iter().any(|x| matches!(x, Effect::Send { .. })));
}

// Forms.

#[test]
fn form_fields_are_found_and_decoded() {
    assert_eq!(form_field(b"a=1&bb=two+words&c=%41", "bb"), Some("two+words".to_string()));
    assert_eq!(form_field(b"a=1", "b"), None);
    assert_eq!(decoded_field(b"a=two+words%21", "a"), "two words!");
    assert_eq!(query_param("x=1&error=bad", "error"), Some("bad".to_string()));
    assert_eq!(url_decode("%C3%A9+x%2"), "\u{c3}\u{a9} x%2");
}

#[test]
fn markup_is_escaped() {
    assert_eq!(html_escape("<a href=\"x\">&</a>"), "&lt;a href=\"x\"&gt;&amp;&lt;/a&gt;".replace('"', "&quot;"));
    assert!(!html_escape_quotes("'\"<>").contains(|c| matches!(c, '<' | '>' | '"')));
}

#[test]
fn identifiers_are_written_in_hex_and_read_back() {
    let u: Uuid = [0, 1, 2, 3, 4, 5, 6, 7, 8, 9, 10, 11, 0xFC, 0xFD, 0xFE, 0xFF];
    assert_eq!(uuid_hex(&u), "000102030405060708090a0bfcfdfeff");
    assert_eq!(uuid_from_hex("000102030405060708090A0Bfcfdfeff"), Some(u));
    assert_eq!(uuid_from_hex("0001"), None);
    assert_eq!(uuid_from_hex("zz0102030405060708090a0bfcfdfeff"), None);
    assert_eq!(hex_bytes(&[0xDE, 0xAD]), "dead");
}

#[test]
fn texts_are_cut_and_joined() {
    assert_eq!(trim("  a b\t\n"), "a b");
    assert_eq!(split_text("a,,b", ','), vec!["a", "", "b"]);
    assert_eq!(join_texts(&vec!["a".to_string(), "b".to_string()], ", "), "a, b");
    assert_eq!(lower_text("AbC\u{c9}"), "abc\u{c9}");
    assert_eq!(read_number("42", 100), Some(42));
    assert_eq!(read_number("+42", 100), Some(42));
    assert_eq!(read_number("101", 100), None);
    assert_eq!(read_number("", 100), None);
    assert_eq!(sort_uuids(&vec![[2; 16], [1; 16]]), vec![[1; 16], [2; 16]]);
    assert_eq!(sort_texts(&vec!["b".to_string(), "a".to_string()]), vec!["a", "b"]);
}

// What the program is started with.

#[test]
fn http_bind_defaults_to_loopback() {
    assert_eq!(parse_http_bind(None, false), LOOPBACK);
    assert_eq!(parse_http_bind(Some(""), false), LOOPBACK);
    assert_eq!(parse_http_bind(Some("   "), false), LOOPBACK);
}

#[test]
fn http_bind_opt_in_all_interfaces() {
    assert_eq!(parse_http_bind(Some("0.0.0.0"), false), ANY);
    assert_eq!(parse_http_bind(Some(" 0.0.0.0 "), false), ANY);
}

#[test]
fn http_bind_accepts_localhost_alias_and_specific_ip() {
    assert_eq!(parse_http_bind(Some("localhost"), false), LOOPBACK);
    assert_eq!(parse_http_bind(Some("127.0.0.1"), false), LOOPBACK);
    let ip = Ipv4 { a: 192, b: 168, c: 1, d: 10 };
    assert_eq!(parse_http_bind(Some("192.168.1.10"), false), ip);
}

#[test]
fn http_bind_invalid_falls_back_to_loopback() {
    assert_eq!(parse_http_bind(Some("not-an-ip"), false), LOOPBACK);
    assert_eq!(parse_http_bind(Some("::1"), false), LOOPBACK);
}

#[test]
fn http_bind_legacy_bind_all_alias() {
    assert_eq!(parse_http_bind(None, true), ANY);
    assert_eq!(parse_http_bind(Some("127.0.0.1"), true), LOOPBACK);
    assert_eq!(http_bind_ip(None, Some("1")), ANY);
    assert_eq!(http_bind_ip(None, Some("0")), LOOPBACK);
}

#[test]
fn ports_and_switches_have_defaults() {
    assert_eq!(http_port(None), 8777);
    assert_eq!(http_port(Some("9000")), 9000);
    assert_eq!(http_port(Some("70000")), 8777);
    assert_eq!(udp_port(None), 7777);
    assert_eq!(udp_port(Some("x")), 7777);
    assert!(switched_on(Some("1")));
    assert!(!switched_on(None));
    assert_eq!(parse_ipv4("256.0.0.1"), None);
    assert_eq!(parse_ipv4("1.2.3"), None);
    assert_eq!(parse_ipv4("1.2.3.4.5"), None);
    assert_eq!(parse_host_entry("1.2.3.4:0"), Some(HostAddr { ip: Ipv4 { a: 1, b: 2, c: 3, d: 4 }, port: 0 }));
    assert_eq!(parse_host_entry("1.2.3.4:99999"), None);
}

#[test]
fn hosts_are_listed_once_each() {
    assert_eq!(parse_pnet_hosts(" a:1 ,, b "), vec!["a:1", "b"]);
    assert!(parse_pnet_hosts("").is_empty());
    let mut n = node();
    n.owner.user.devices.push(sg_peer(&["a:1", "b:2"]));
    let mut n_hosts = known_hosts(&n);
    n_hosts.sort();
    assert_eq!(n_hosts, vec!["a:1", "b:2"]);
}

// HTTP.

fn lines(v: &[&str]) -> Vec<String> {
    v.iter().map(|l| l.to_string()).collect()
}

#[test]
fn requests_are_read() {
    let r = parse_request_line("GET /login?error=bad HTTP/1.1\r\n").unwrap();
    assert_eq!((r.method.as_str(), r.path.as_str(), r.query.as_str()), ("GET", "/login", "error=bad"));
    let r = parse_request_line("POST /logout HTTP/1.1").unwrap();
    assert_eq!((r.path.as_str(), r.query.as_str()), ("/logout", ""));
    assert!(parse_request_line("").is_none());
    assert!(ends_headers("\r\n"));
    assert!(!ends_headers("Cookie: a\r\n"));
    let h = lines(&["Content-Length: 12\r\n", "COOKIE:  sid=1; x=2\r\n"]);
    assert_eq!(find_header(&h, "cookie:"), "sid=1; x=2");
    assert_eq!(body_len(&h), 12);
    assert_eq!(body_len(&lines(&["content-length: 99999999"])), MAX_BODY);
    assert_eq!(body_len(&lines(&["content-length: x"])), 0);
}

#[test]
fn replies_are_written() {
    let page = Reply::Page { status: 404, html: "\u{e9}!".to_string() };
    assert_eq!(
        render_reply(&page),
        "HTTP/1.1 404 Not Found\r\nContent-Type: text/html; charset=utf-8\r\n\
         Content-Length: 3\r\nConnection: close\r\n\r\n\u{e9}!"
    );
    let there = with_cookie(redirect("/dashboard"), "pnet_session=1".to_string());
    assert_eq!(
        render_reply(&there),
        "HTTP/1.1 302 Found\r\nLocation: /dashboard\r\nSet-Cookie: pnet_session=1\r\n\
         Content-Length: 0\r\nConnection: close\r\n\r\n"
    );
    assert_eq!(redirect_with_error("/applications", Some("x")), "/applications?error=x");
    assert_eq!(redirect_with_error("/applications", None), "/applications");
}

// Pages.

#[test]
fn pages_show_what_is_there_and_escape_it() {
    let mut n = with_app("<b>", false);
    device_mut(&mut n, LOCAL).applications.push(app([0xAA; 16], "chat & more", true));
    n.owner.contact_users.push(Contact {
        user: User { alias: "<i>chad".to_string(), uuid: [0xC0; 16], devices: vec![sg_peer(&["h:1"])] },
        public_key: [1; 32],
        last_seen_public_version: SyncVersion::zero(),
    });
    let pending = render_pending_apps(&n, "");
    assert!(pending.contains("&lt;b&gt;"));
    assert!(!pending.contains("<b>"));
    assert!(!pending.contains("chat &amp; more"));
    let apps = render_applications(&n, "error=publish_failed");
    assert!(apps.contains("chat &amp; more"));
    assert!(apps.contains(&ui_error_banner("error=publish_failed")));
    assert!(ui_error_banner("error=other").is_empty());
    assert!(render_contacts(&n).contains("&lt;i&gt;chad"));
    assert!(render_devices(&n).contains("Device"));
    assert!(render_dashboard(&n).contains("Owner"));
    let flash = Some(Flash::DeviceCode("THECODE".to_string()));
    assert!(render_invitations(&n, "", flash).contains("THECODE"));
    assert!(!render_invitations(&n, "", None).contains("THECODE"));
    assert_eq!(show_host(host(9000)), "127.0.0.1:9000");
}

#[test]
fn every_page_has_its_title_and_body() {
    let page = layout(&node(), "Title", "<p>body</p>");
    assert!(page.contains("Title") && page.contains("<p>body</p>"));
    assert!(setup_layout("<p>body</p>").contains("<p>body</p>"));
    assert!(render_setup("").contains("setup"));
    assert!(render_setup_new_user_form("").contains("/setup/create"));
    assert!(render_setup_code_entry("dg", "").contains("/setup/join"));
    assert!(render_login("").contains("password"));
    assert_ne!(render_login("bad"), render_login(""));
    assert!(render_set_password("").contains("/set-password"));
}

// Requests to the admin pages.

fn request(method: &str, path: &str, body: &[u8]) -> UiRequest {
    UiRequest {
        method: method.to_string(),
        path: path.to_string(),
        query: String::new(),
        body: body.to_vec(),
    }
}

fn with(authed: bool) -> UiWith {
    UiWith {
        authed,
        csrf_ok: true,
        password_ok: false,
        hash: "HASH".to_string(),
        identity: keys(3),
        fresh: keys(4),
        exchange_key: [5; 32],
        pnet_hosts: String::new(),
        cache: Vec::new(),
        target: WriterTarget::Local,
        flash: None,
        minted: None,
        now: NOW,
        retention: RETENTION,
    }
}

fn location(o: &UiOutcome) -> &str {
    match &o.reply {
        Reply::Redirect { location, .. } => location,
        Reply::Page { .. } => "",
    }
}

fn page_status(o: &UiOutcome) -> u16 {
    match &o.reply {
        Reply::Page { status, .. } => *status,
        Reply::Redirect { .. } => 302,
    }
}

fn ready() -> Node {
    let mut n = with_app("chat", false);
    n.owner.key_pair = keys(3);
    n.admin_password_hash = Some("HASH".to_string());
    promote_local_to_sg(&mut n, 1);
    n
}

#[test]
fn a_fresh_node_only_shows_its_setup() {
    let mut n = node();
    let o = ui_request(&mut n, &request("GET", "/dashboard", b""), with(true));
    assert_eq!(location(&o), "/setup");
    let o = ui_request(&mut n, &request("GET", "/setup", b""), with(false));
    assert_eq!(page_status(&o), 200);
    let o = ui_request(&mut n, &request("POST", "/setup/create", SETUP), with(false));
    assert_eq!(location(&o), "/dashboard");
    assert_eq!(o.session, SessionStep::Open);
    assert!(is_initialized(&n));
    let o = ui_request(&mut n, &request("GET", "/dashboard", b""), with(false));
    assert_eq!(location(&o), "/login");
}

#[test]
fn without_a_password_one_is_asked_for() {
    let mut n = ready();
    n.admin_password_hash = None;
    let o = ui_request(&mut n, &request("GET", "/dashboard", b""), with(false));
    assert_eq!(location(&o), "/set-password");
    let body = b"password=abcdefgh&password_confirm=abcdefgh";
    let o = ui_request(&mut n, &request("POST", "/set-password", body), with(false));
    assert_eq!(o.session, SessionStep::Open);
    assert!(n.admin_password_hash.is_some());
}

#[test]
fn without_a_session_nothing_changes() {
    let mut n = ready();
    let o = ui_request(&mut n, &request("POST", "/pending-apps/approve", &id_body("")), with(false));
    assert_eq!(location(&o), "/login");
    assert!(o.effects.is_empty());
    assert!(!device_of(&n, LOCAL).applications[0].user_approved);
}

#[test]
fn a_form_from_elsewhere_changes_nothing() {
    let mut n = ready();
    let mut w = with(true);
    w.csrf_ok = false;
    let o = ui_request(&mut n, &request("POST", "/pending-apps/approve", &id_body("")), w);
    assert_eq!(page_status(&o), 403);
    assert!(!device_of(&n, LOCAL).applications[0].user_approved);
}

#[test]
fn a_login_needs_the_password() {
    let mut n = ready();
    let o = ui_request(&mut n, &request("POST", "/login", b"password=x"), with(false));
    assert_eq!(location(&o), "/login?error=bad");
    assert_eq!(o.session, SessionStep::Keep);
    let mut w = with(false);
    w.password_ok = true;
    let o = ui_request(&mut n, &request("POST", "/login", b"password=x"), w);
    assert_eq!(location(&o), "/dashboard");
    assert_eq!(o.session, SessionStep::Open);
    let o = ui_request(&mut n, &request("POST", "/logout", b""), with(true));
    assert_eq!(o.session, SessionStep::Close);
}

#[test]
fn actions_lead_back_to_their_page() {
    let mut n = ready();
    let o = ui_request(&mut n, &request("POST", "/pending-apps/approve", &id_body("")), with(true));
    assert_eq!(location(&o), "/pending-apps");
    assert!(device_of(&n, LOCAL).applications[0].user_approved);
    let mut w = with(true);
    w.target = WriterTarget::Unreachable;
    let o = ui_request(&mut n, &request("POST", "/applications/delete", &id_body("")), w);
    assert_eq!(location(&o), "/applications?error=publish_failed");
    let o = ui_request(&mut n, &request("POST", "/applications/rename", &id_body("&alias=z")), with(true));
    assert_eq!(location(&o), "/applications");
    assert_eq!(device_of(&n, LOCAL).applications[0].alias, "z");
    let o = ui_request(&mut n, &request("GET", "/nowhere", b""), with(true));
    assert_eq!(page_status(&o), 404);
    let o = ui_request(&mut n, &request("GET", "/", b""), with(true));
    assert_eq!(location(&o), "/dashboard");
}

#[test]
fn an_invitation_code_is_shown_once_and_never_in_an_address() {
    let mut n = ready();
    let mut w = with(true);
    w.minted = Some("THECODE".to_string());
    let o = ui_request(&mut n, &request("POST", "/invitations/device", b""), w);
    assert!(!location(&o).contains("THECODE"));
    assert_eq!(o.session, SessionStep::Show(Flash::DeviceCode("THECODE".to_string())));
    let o = ui_request(&mut n, &request("POST", "/invitations/contact", b""), with(true));
    assert_eq!(location(&o), "/invitations?error=no_host");
}

#[test]
fn routes_are_told_apart_by_method_and_path() {
    assert_eq!(find_route("GET", "/login"), Route::Login);
    assert_eq!(find_route("POST", "/login"), Route::TryLogin);
    assert_eq!(find_route("DELETE", "/login"), Route::NotFound);
}

// Packets.

#[test]
fn op_bytes_map_to_correct_action_variants() {
    let cases = [
        (0x00u8, Packet::AppRegister),
        (0x01, Packet::AppUpdate),
        (0x02, Packet::AppGetData),
        (0x03, Packet::AppSendPacket),
        (0x20, Packet::ConnectRequest),
        (0x21, Packet::ConnectAck),
        (0x30, Packet::BootstrapRequest),
        (0x31, Packet::BootstrapResponse),
        (0x32, Packet::DeviceRegistration),
        (0x70, Packet::SyncWriteRequest),
        (0x71, Packet::SyncWriteAck),
        (0x72, Packet::SyncUpdateAvailable),
        (0x73, Packet::SyncPullRequest),
        (0x74, Packet::SyncPullResponse),
        (0x78, Packet::MergeProposal),
        (0x7A, Packet::WatermarkProbeRequest),
    ];
    for (op, want) in cases {
        assert_eq!(read_packet(&[op, 0xAA, 0xBB]), Some(want));
    }
    let mut ping = vec![0x10u8];
    ping.extend_from_slice(&[0u8; 16]);
    assert_eq!(read_packet(&ping), Some(Packet::SgPing { nonce: [0; 16] }));
    assert_eq!(read_packet(&ping[..16]), None);
}

#[test]
fn unknown_op_byte_is_ignored() {
    assert_eq!(read_packet(&[0xFF, 0x01]), None);
    assert_eq!(read_packet(&[]), None);
}

// The scheduler.

#[test]
fn one_shot_request_fires_after_delay() {
    let mut s = Schedule::new(0);
    let request = ScheduleRequest { task: Task::MaintainConnections, delay_ms: 20 };
    assert!(!s.tick(10, &vec![request]).contains(&Job::Once(Task::MaintainConnections)));
    assert!(!s.tick(20, &Vec::new()).contains(&Job::Once(Task::MaintainConnections)));
    assert!(s.tick(30, &Vec::new()).contains(&Job::Once(Task::MaintainConnections)));
    assert!(!s.tick(40, &Vec::new()).contains(&Job::Once(Task::MaintainConnections)));
}

#[test]
fn jobs_come_back_in_their_time() {
    let mut s = Schedule::new(0);
    let first = s.tick(0, &Vec::new());
    assert!(!s.tick(1, &Vec::new()).contains(&Job::PollSg));
    assert!(s.tick(KEEPALIVE_DG_INTERVAL, &Vec::new()).contains(&Job::KeepAliveDg));
    assert!(s.tick(POLL_SG_INTERVAL, &Vec::new()).contains(&Job::PollSg) || first.contains(&Job::PollSg));
}

// Modules.

fn ctx(n: &Node) -> ModuleCtx<'_> {
    ModuleCtx {
        node: n,
        module: 1,
        states: Vec::new(),
        enabled: vec![EnabledModules { user: n.owner.user.uuid, modules: vec![1] }],
        peers: vec!["127.0.0.1:7777".to_string()],
        effects: Vec::new(),
        now: NOW,
    }
}

fn connected() -> Node {
    let mut n = node();
    n.owner.user.devices.push(sg_peer(&["h:1"]));
    n.owner.active_connections.push(ActiveConnection {
        id: 1,
        timeout: NOW + 60,
        key_pair: keys(1),
        peer_public_key: [2; 32],
        peer_active_connection_id: 3,
        device_uuid: PEER,
        peer_addr: PeerAddr::V4(host(7777)),
    });
    n
}

#[test]
fn what_a_module_stores_it_loads() {
    let n = node();
    let mut c = ctx(&n);
    assert_eq!(c.load_state(), None);
    c.save_state(vec![1, 2, 3]);
    c.save_state(vec![4]);
    assert_eq!(c.load_state(), Some(vec![4]));
    c.module = 2;
    assert_eq!(c.load_state(), None);
    assert_eq!(c.read(|n: &Node| n.device_uuid), LOCAL);
}

#[test]
fn a_module_sends_where_there_is_a_way() {
    let n = connected();
    let mut c = ctx(&n);
    let target = PacketTarget { user: n.owner.user.uuid, device: PEER, module: 1 };
    assert_eq!(c.send(target, b"hi"), Ok(()));
    assert!(matches!(&c.effects[..], [Effect::Seal { conn, .. }] if conn.device_uuid == PEER));
    let alone = node();
    let mut c = ctx(&alone);
    assert_eq!(c.send(target, b"hi"), Err(SendError::NoPath));
    assert!(c.effects.is_empty());
}

#[test]
fn the_debug_module_keeps_the_last_hundred_packets() {
    let n = node();
    let mut c = ctx(&n);
    let mut m = pnet::debug::Debug::new();
    let from = PacketSource { user: [1; 16], device: [2; 16], module: 1 };
    for i in 0..120u8 {
        m.on_receive(from, &[i], &mut c);
    }
    assert_eq!(m.inbox.len(), pnet::debug::INBOX_CAP);
    assert_eq!(m.inbox[0].payload, vec![20]);
    assert_eq!(m.inbox[99].payload, vec![119]);
    assert_eq!(m.inbox[99].at, NOW);
}

#[test]
fn the_debug_module_shows_and_sends() {
    let mut n = connected();
    n.sg_statuses.push(status("h\"1", true));
    let mut c = ctx(&n);
    let mut m = all().remove(0);
    assert_eq!((m.id(), m.slug(), m.alias()), (1, "debug", "Debug"));
    m.on_receive(PacketSource { user: [1; 16], device: [2; 16], module: 1 }, b"<hello>", &mut c);
    let get = HttpRequest {
        method: "GET".to_string(),
        path: "/".to_string(),
        query: String::new(),
        body: Vec::new(),
    };
    let page = m.on_http(&get, &mut c).unwrap();
    assert_eq!(page.status, 200);
    let html = String::from_utf8(page.body).unwrap();
    assert!(html.contains("&lt;hello&gt;"));
    assert!(html.contains("8.9ms"), "a round trip is shown as a duration");
    let post = HttpRequest {
        method: "POST".to_string(),
        path: "/send".to_string(),
        query: String::new(),
        body: format!("device={}&payload=hi+there", uuid_hex(&PEER)).into_bytes(),
    };
    let page = m.on_http(&post, &mut c).unwrap();
    assert!(String::from_utf8(page.body).unwrap().contains("Sent 8 bytes to device"));
    assert_eq!(c.effects.len(), 1);
    let other = HttpRequest {
        method: "GET".to_string(),
        path: "/x".to_string(),
        query: String::new(),
        body: Vec::new(),
    };
    assert!(m.on_http(&other, &mut c).is_none());
}
