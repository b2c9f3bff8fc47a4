//! The edge to the applications of this device: registering, updating, reading
//! the directory and sending.
use crate::apply;
use crate::apply::remove_apps;
use crate::change::{Change, ChangeView};
use crate::cross_user;
use crate::cross_user::push_contact_device;
use crate::device_wire;
use crate::device_wire::push_device;
use crate::effects::{push_all, Effect, EffectView};
use crate::find;
use crate::find::{find_app, find_app_by_token, find_device};
use crate::keys;
use crate::lists;
use crate::model;
use crate::relay;
use crate::relay::RelayLimits;
use crate::routing;
use crate::routing::{find_carrier, ipv4_from, WriterTarget};
use crate::sync;
use crate::sync::{find_session_by_id, request_change, WriteOutcome};
use crate::text::is_empty;
use crate::types;
use crate::types::{
    uuid_eq, ActiveConnection, Application, ApplicationView, Contact, ContactView, Device,
    DeviceView, HostAddr, Node, NodeView, PeerAddr, TunnelLeg, Uuid,
};
use crate::wire;
use crate::wire::{
    push_bytes, push_str, push_u16, push_uuid, read_str, read_u16, slice_uuid, APP_PACKET_OP,
    ERR_BAD_PACKET, ERR_NOT_APPROVED, ERR_NO_ROUTE, ERR_NO_WRITER, ERR_PAYLOAD_TOO_LARGE,
    ERR_RATE_LIMITED, ERR_TOKEN_UNKNOWN, OK, RELAY_PACKET_OP, STATUS_ERR,
};
use vstd::prelude::*;

verus! {

/// An answer with an error code.
pub open spec fn refusal(src: PeerAddr, code: u8) -> Seq<EffectView> {
    seq![EffectView::Send { dest: src, bytes: seq![STATUS_ERR, code] }]
}

/// An answer with an error code.
pub fn send_error(src: PeerAddr, code: u8) -> (r: Vec<Effect>)
    ensures
        model::views(r@) == refusal(src, code),
{
    broadcast use model::group_views;

    let mut bytes: Vec<u8> = Vec::new();
    bytes.push(STATUS_ERR);
    bytes.push(code);
    assert(bytes@ =~= seq![STATUS_ERR, code]);
    let mut out: Vec<Effect> = Vec::new();
    out.push(Effect::Send { dest: src, bytes });
    assert(model::views(out@) =~= refusal(src, code));
    out
}

/// The position of this device among the user's devices.
pub open spec fn own_index(n: NodeView) -> Option<int> {
    model::first_where(n.owner.user.devices, find::device_is(n.device_uuid))
}

/// The applications of this device.
pub open spec fn own_apps(n: NodeView) -> Seq<ApplicationView> {
    n.owner.user.devices[own_index(n).unwrap()].applications
}

/// The state with other applications on this device.
pub open spec fn with_own_apps(n: NodeView, apps: Seq<ApplicationView>) -> NodeView {
    NodeView { owner: n.owner.with_apps(own_index(n).unwrap(), apps), ..n }
}

/// A registration: how the application is called, what it speaks and where it
/// listens.
pub struct RegistrationView {
    pub alias: Seq<char>,
    pub protocol: Seq<char>,
    pub host: HostAddr,
}

/// What a registration says. The address is the one that it came from.
pub open spec fn parse_registration(d: Seq<u8>, src: PeerAddr) -> Option<RegistrationView> {
    match wire::parse_str(d, 0) {
        Some((alias, p)) => match wire::parse_u16(d, p) {
            Some((port, q)) => match wire::parse_str(d, q) {
                Some((protocol, _)) => match routing::ipv4_of(src) {
                    Some(ip) => if alias.len() > 0 && port != 0 && protocol.len() > 0 {
                        Some(
                            RegistrationView { alias, protocol, host: HostAddr { ip, port } },
                        )
                    } else {
                        None
                    },
                    None => None,
                },
                None => None,
            },
            None => None,
        },
        None => None,
    }
}

fn read_registration(data: &[u8], src: PeerAddr) -> (r: Option<(String, String, HostAddr)>)
    ensures
        match parse_registration(data@, src) {
            Some(g) => r matches Some((a, p, h)) && a@ == g.alias && p@ == g.protocol && h
                == g.host,
            None => r is None,
        },
{
    let mut pos: usize = 0;
    let alias = match read_str(data, &mut pos) {
        Some(s) => s,
        None => { return None; },
    };
    let port: u16 = match read_u16(data, &mut pos) {
        Some(x) => x,
        None => { return None; },
    };
    let protocol = match read_str(data, &mut pos) {
        Some(s) => s,
        None => { return None; },
    };
    let ip = match ipv4_from(src) {
        Some(ip) => ip,
        None => { return None; },
    };
    if is_empty(&alias) || port == 0 || is_empty(&protocol) {
        return None;
    }
    Some((alias, protocol, HostAddr { ip, port }))
}

pub open spec fn app_at(alias: Seq<char>, host: HostAddr) -> spec_fn(ApplicationView) -> bool {
    |a: ApplicationView| a.alias == alias && a.host == host
}

fn find_app_at(v: &Vec<Application>, alias: &String, host: HostAddr) -> (r: Option<usize>)
    ensures
        match model::first_where(model::views(v@), app_at(alias@, host)) {
            Some(i) => r == Some(i as usize) && 0 <= i < v@.len() && i == r->0,
            None => r is None,
        },
{
    broadcast use model::group_views;

    let ghost s = model::views(v@);
    let ghost p = app_at(alias@, host);
    let mut i: usize = 0;
    while i < v.len()
        invariant
            i <= v@.len(),
            s == model::views(v@),
            p == app_at(alias@, host),
            forall|j: int| 0 <= j < i ==> !p(#[trigger] s[j]),
        decreases v@.len() - i,
    {
        if v[i].alias == *alias && v[i].host == host {
            proof {
                assert(p(s[i as int]));
                model::lemma_first_at(s, p, i as int);
            }
            return Some(i);
        }
        i += 1;
    }
    proof {
        model::lemma_first_none(s, p);
    }
    None
}

/// The answer to a registration that was accepted.
pub open spec fn token_reply(src: PeerAddr, token: Uuid) -> EffectView {
    EffectView::Send { dest: src, bytes: seq![OK] + token@ }
}

/// What comes with a registration: whether new applications are approved at
/// once, an identifier and a token for a new one, and where changes go.
#[derive(Clone, Copy, PartialEq, Eq, Debug)]
pub struct RegisterWith {
    pub auto_approve: bool,
    pub fresh_id: Uuid,
    pub fresh_token: Uuid,
    pub target: WriterTarget,
    pub now: u64,
    pub retention: u64,
}

/// What a registration leads to. An application that registers again from the
/// same place under the same name keeps its identifier and token; a new one is
/// added, and, if it is approved at once, published. Where that fails the
/// application is taken out again.
pub open spec fn registered(
    n: NodeView,
    src: PeerAddr,
    g: RegistrationView,
    w: RegisterWith,
) -> (NodeView, Seq<EffectView>) {
    let apps = own_apps(n);
    match model::first_where(apps, app_at(g.alias, g.host)) {
        Some(i) => (n, seq![EffectView::Save, token_reply(src, apps[i].token)]),
        None => {
            let m = with_own_apps(
                n,
                apps.push(
                    ApplicationView {
                        id: w.fresh_id,
                        alias: g.alias,
                        protocol: g.protocol,
                        host: g.host,
                        user_approved: w.auto_approve,
                        token: w.fresh_token,
                    },
                ),
            );
            let done = seq![EffectView::Save, token_reply(src, w.fresh_token)];
            if !w.auto_approve {
                (m, done)
            } else {
                let c = ChangeView::AddApplication {
                    device_uuid: n.device_uuid,
                    app_id: w.fresh_id,
                    app_alias: g.alias,
                };
                let (outcome, k, e) = sync::requested(
                    m,
                    c,
                    w.target,
                    true,
                    w.now,
                    w.retention,
                );
                if outcome == WriteOutcome::Done {
                    (k, e + done)
                } else {
                    (
                        with_own_apps(k, model::keep(own_apps(k), find::app_is_not(w.fresh_id))),
                        e + seq![EffectView::Save] + refusal(src, ERR_NO_WRITER),
                    )
                }
            }
        },
    }
}

/// What a packet that registers an application leads to, by whether its sender may
/// send one now.
pub open spec fn registration_answered(
    n: NodeView,
    src: PeerAddr,
    d: Seq<u8>,
    allowed: bool,
    with: RegisterWith,
) -> (NodeView, Seq<EffectView>) {
    if !allowed {
        (n, refusal(src, ERR_RATE_LIMITED))
    } else {
        match parse_registration(d, src) {
            Some(g) => registered(n, src, g, with),
            None => (n, refusal(src, ERR_BAD_PACKET)),
        }
    }
}

/// Registers an application. `allowed` tells whether the sender keeps within
/// its rate.
pub fn app_register(
    node: &mut Node,
    src: PeerAddr,
    data: &[u8],
    allowed: bool,
    with: RegisterWith,
) -> (r: Vec<Effect>)
    requires
        own_index(old(node)@) is Some,
        old(node).owner.public_version.room(2),
    ensures
        (final(node)@, model::views(r@)) == registration_answered(
            old(node)@,
            src,
            data@,
            allowed,
            with,
        ),
        keys::keyed(old(node)@) ==> keys::keyed(final(node)@),
{
    broadcast use model::group_views;

    proof {
        if let Some(g) = parse_registration(data@, src) {
            keys::lemma_registered(node@, src, g, with);
        }
    }
    if !allowed {
        return send_error(src, ERR_RATE_LIMITED);
    }
    let (alias, protocol, host) = match read_registration(data, src) {
        Some(x) => x,
        None => {
            return send_error(src, ERR_BAD_PACKET);
        },
    };
    let ghost g = parse_registration(data@, src).unwrap();
    let ghost n = node@;
    let device_uuid = node.device_uuid;
    let i: usize = match find_device(&node.owner.user.devices, &device_uuid) {
        Some(i) => i,
        None => {
            return Vec::new();
        },
    };
    let mut out: Vec<Effect> = Vec::new();
    let known = find_app_at(&node.owner.user.devices[i].applications, &alias, host);
    let token: Uuid = match known {
        Some(k) => node.owner.user.devices[i].applications[k].token,
        None => {
            let published = alias.clone();
            let app = Application {
                id: with.fresh_id,
                alias,
                protocol,
                host,
                user_approved: with.auto_approve,
                token: with.fresh_token,
            };
            let ghost av = app@;
            node.owner.user.devices[i].applications.push(app);
            let ghost m = with_own_apps(n, own_apps(n).push(av));
            assert(node@ =~= m);
            if with.auto_approve {
                let change = Change::AddApplication {
                    device_uuid,
                    app_id: with.fresh_id,
                    app_alias: published,
                };
                let (done, e) = request_change(node, change, with.target, with.now, with.retention);
                push_all(&mut out, e);
                if done.is_err() {
                    proof {
                        lemma_same_index(n, own_apps(n).push(av));
                        assert(node@ == m);
                        assert(own_index(node@) == Some(i as int));
                    }
                    let ghost k = node@;
                    remove_apps(&mut node.owner.user.devices[i].applications, &with.fresh_id);
                    assert(node@ =~= with_own_apps(
                        k,
                        model::keep(own_apps(k), find::app_is_not(with.fresh_id)),
                    ));
                    out.push(Effect::Save);
                    push_all(&mut out, send_error(src, ERR_NO_WRITER));
                    assert(model::views(out@) =~= registered(n, src, g, with).1);
                    return out;
                }
            }
            with.fresh_token
        },
    };
    out.push(Effect::Save);
    let mut bytes: Vec<u8> = Vec::new();
    bytes.push(OK);
    push_uuid(&mut bytes, &token);
    assert(bytes@ =~= seq![OK] + token@);
    out.push(Effect::Send { dest: src, bytes });
    assert(model::views(out@) =~= registered(n, src, g, with).1);
    out
}

/// Other applications do not move this device.
pub proof fn lemma_same_index(n: NodeView, apps: Seq<ApplicationView>)
    requires
        own_index(n) is Some,
    ensures
        own_index(with_own_apps(n, apps)) == own_index(n),
        own_apps(with_own_apps(n, apps)) == apps,
{
    model::lemma_first_where(n.owner.user.devices, find::device_is(n.device_uuid));
    apply::lemma_same_device(n.owner, n.device_uuid, own_index(n).unwrap(), apps);
}

/// An application that registers again from the same place under the same name
/// gets the token it has, and nothing is added.
pub proof fn law_register_again(
    n: NodeView,
    src: PeerAddr,
    g: RegistrationView,
    w: RegisterWith,
    again: RegisterWith,
)
    requires
        own_index(n) is Some,
        !w.auto_approve || w.target != WriterTarget::Unreachable,
    ensures
        ({
            let m = registered(n, src, g, w).0;
            let apps = own_apps(m);
            &&& model::first_where(apps, app_at(g.alias, g.host)) is Some
            &&& registered(m, src, g, again) == (
                m,
                seq![
                    EffectView::Save,
                    token_reply(
                        src,
                        apps[model::first_where(apps, app_at(g.alias, g.host)).unwrap()].token,
                    ),
                ],
            )
        }),
{
    let apps = own_apps(n);
    let p = app_at(g.alias, g.host);
    model::lemma_first_where(apps, p);
    if model::first_where(apps, p) is None {
        let a = ApplicationView {
            id: w.fresh_id,
            alias: g.alias,
            protocol: g.protocol,
            host: g.host,
            user_approved: w.auto_approve,
            token: w.fresh_token,
        };
        let more = apps.push(a);
        let m = with_own_apps(n, more);
        lemma_same_index(n, more);
        let i = apps.len() as int;
        assert forall|j: int| 0 <= j < i implies !p(#[trigger] more[j]) by {
            assert(more[j] == apps[j]);
        }
        assert(p(more[i]));
        model::lemma_first_at(more, p, i);
        if w.auto_approve {
            let c = ChangeView::AddApplication {
                device_uuid: n.device_uuid,
                app_id: w.fresh_id,
                app_alias: g.alias,
            };
            assert(find::app_is(w.fresh_id)(more[i]));
            assert(apply::applied(m.owner, c) == Some((false, m.owner)));
            let (_, k, _) = sync::requested(m, c, w.target, true, w.now, w.retention);
            assert(k.owner.user == m.owner.user);
            assert(k.device_uuid == m.device_uuid);
            assert(own_apps(k) == more);
        }
    }
}

/// An update: which application, and its new name and port, if any.
pub struct UpdateView {
    pub token: Uuid,
    pub alias: Option<Seq<char>>,
    pub port: Option<u16>,
}

/// The name in an update, where the flags announce one. It must not be empty.
pub open spec fn parse_new_alias(d: Seq<u8>) -> Option<(Option<Seq<char>>, int)> {
    if d[16] & 0x01 != 0 {
        match wire::parse_str(d, 17) {
            Some((s, p)) => if s.len() > 0 {
                Some((Some(s), p))
            } else {
                None
            },
            None => None,
        }
    } else {
        Some((None, 17int))
    }
}

/// What an update says.
pub open spec fn parse_update(d: Seq<u8>) -> Option<UpdateView> {
    if d.len() < 17 {
        None
    } else {
        let token = wire::uuid_of(d.subrange(0, 16));
        match parse_new_alias(d) {
            Some((alias, p)) => if d[16] & 0x02 != 0 {
                match wire::parse_u16(d, p) {
                    Some((port, _)) => Some(UpdateView { token, alias, port: Some(port) }),
                    None => None,
                }
            } else {
                Some(UpdateView { token, alias, port: None })
            },
            None => None,
        }
    }
}

fn read_update(data: &[u8]) -> (r: Option<(Uuid, Option<String>, Option<u16>)>)
    ensures
        match parse_update(data@) {
            Some(u) => {
                &&& r matches Some((t, a, p))
                &&& t == u.token
                &&& p == u.port
                &&& types::string_view(a) == u.alias
            },
            None => r is None,
        },
{
    if data.len() < 17 {
        return None;
    }
    let token = match slice_uuid(data, 0) {
        Some(u) => u,
        None => { return None; },
    };
    let flags: u8 = data[16];
    let mut pos: usize = 17;
    let mut alias: Option<String> = None;
    if flags & 0x01 != 0 {
        match read_str(data, &mut pos) {
            Some(s) => {
                if is_empty(&s) {
                    return None;
                }
                alias = Some(s);
            },
            None => { return None; },
        }
    }
    assert(parse_new_alias(data@) == Some((types::string_view(alias), pos as int)));
    if flags & 0x02 != 0 {
        match read_u16(data, &mut pos) {
            Some(port) => Some((token, alias, Some(port))),
            None => None,
        }
    } else {
        Some((token, alias, None))
    }
}

pub open spec fn ok_reply(src: PeerAddr) -> EffectView {
    EffectView::Send { dest: src, bytes: seq![OK] }
}

/// The application, updated.
pub open spec fn updated_app(a: ApplicationView, u: UpdateView, src: PeerAddr) -> ApplicationView {
    ApplicationView {
        alias: match u.alias {
            Some(s) => s,
            None => a.alias,
        },
        host: match (u.port, routing::ipv4_of(src)) {
            (Some(port), Some(ip)) => HostAddr { ip, port },
            _ => a.host,
        },
        ..a
    }
}

/// The state with another name for the application `id` of this device.
pub open spec fn with_alias(n: NodeView, id: Uuid, alias: Seq<char>) -> NodeView {
    match model::first_where(own_apps(n), find::app_is(id)) {
        Some(j) => with_own_apps(
            n,
            own_apps(n).update(j, ApplicationView { alias, ..own_apps(n)[j] }),
        ),
        None => n,
    }
}

/// What an update leads to. A new name is published; where that fails the
/// application gets its old name back. A new port stays on this device.
pub open spec fn updated(
    n: NodeView,
    src: PeerAddr,
    u: UpdateView,
    target: WriterTarget,
    now: u64,
    retention: u64,
) -> (NodeView, Seq<EffectView>) {
    let apps = own_apps(n);
    match model::first_where(apps, find::app_has_token(u.token)) {
        None => (n, refusal(src, ERR_TOKEN_UNKNOWN)),
        Some(i) => {
            let a = apps[i];
            let b = updated_app(a, u, src);
            let m = with_own_apps(n, apps.update(i, b));
            if b.alias == a.alias {
                (m, seq![EffectView::Save, ok_reply(src)])
            } else {
                let j = model::first_where(own_apps(m), find::app_is(a.id)).unwrap();
                let c = ChangeView::UpdateApplicationAlias {
                    device_uuid: n.device_uuid,
                    app_id: a.id,
                    new_alias: own_apps(m)[j].alias,
                };
                let (outcome, k, e) = sync::requested(m, c, target, true, now, retention);
                if outcome == WriteOutcome::Done {
                    (k, seq![EffectView::Save] + e + seq![ok_reply(src)])
                } else {
                    (
                        with_alias(k, a.id, a.alias),
                        seq![EffectView::Save] + e + seq![EffectView::Save] + refusal(
                            src,
                            ERR_NO_WRITER,
                        ),
                    )
                }
            }
        },
    }
}

/// What a packet that updates an application leads to.
pub open spec fn update_answered(
    n: NodeView,
    src: PeerAddr,
    d: Seq<u8>,
    target: WriterTarget,
    now: u64,
    retention: u64,
) -> (NodeView, Seq<EffectView>) {
    match parse_update(d) {
        Some(u) => updated(n, src, u, target, now, retention),
        None => (n, refusal(src, ERR_BAD_PACKET)),
    }
}

/// Updates the name or the port of an application.
pub fn app_update(
    node: &mut Node,
    src: PeerAddr,
    data: &[u8],
    target: WriterTarget,
    now: u64,
    retention: u64,
) -> (r: Vec<Effect>)
    requires
        own_index(old(node)@) is Some,
        old(node).owner.public_version.room(2),
    ensures
        (final(node)@, model::views(r@)) == update_answered(
            old(node)@,
            src,
            data@,
            target,
            now,
            retention,
        ),
        keys::keyed(old(node)@) ==> keys::keyed(final(node)@),
{
    broadcast use model::group_views;

    proof {
        if let Some(u) = parse_update(data@) {
            keys::lemma_updated(node@, src, u, target, now, retention);
        }
    }
    let (token, new_alias, new_port) = match read_update(data) {
        Some(x) => x,
        None => {
            return send_error(src, ERR_BAD_PACKET);
        },
    };
    let ghost u = parse_update(data@).unwrap();
    let ghost n = node@;
    let device_uuid = node.device_uuid;
    let d: usize = match find_device(&node.owner.user.devices, &device_uuid) {
        Some(d) => d,
        None => {
            return Vec::new();
        },
    };
    let i: usize = match find_app_by_token(&node.owner.user.devices[d].applications, &token) {
        Some(i) => i,
        None => {
            return send_error(src, ERR_TOKEN_UNKNOWN);
        },
    };
    let app_id = node.owner.user.devices[d].applications[i].id;
    let old_alias = node.owner.user.devices[d].applications[i].alias.clone();
    let mut renamed = false;
    if let Some(alias) = new_alias {
        if old_alias != alias {
            renamed = true;
            node.owner.user.devices[d].applications[i].alias = alias;
        }
    }
    if let Some(port) = new_port {
        if let Some(ip) = ipv4_from(src) {
            node.owner.user.devices[d].applications[i].host = HostAddr { ip, port };
        }
    }
    let ghost a = own_apps(n)[i as int];
    let ghost b = updated_app(a, u, src);
    let ghost more = own_apps(n).update(i as int, b);
    let ghost m = with_own_apps(n, more);
    proof {
        lemma_same_index(n, more);
        let now_apps = node.owner.user.devices@[d as int].applications@;
        assert(now_apps[i as int]@ =~= b);
        assert(model::views(now_apps) =~= more);
        assert(node@.owner.user.devices =~= m.owner.user.devices);
        assert(node@ =~= m);
    }
    let mut out: Vec<Effect> = Vec::new();
    out.push(Effect::Save);
    if renamed {
        proof {
            assert(find::app_is(a.id)(more[i as int]));
            model::lemma_first_some(more, find::app_is(a.id), i as int);
        }
        let j: usize = match find_app(&node.owner.user.devices[d].applications, &app_id) {
            Some(j) => j,
            None => {
                return out;
            },
        };
        let published = node.owner.user.devices[d].applications[j].alias.clone();
        let change = Change::UpdateApplicationAlias { device_uuid, app_id, new_alias: published };
        let (done, e) = request_change(node, change, target, now, retention);
        push_all(&mut out, e);
        if done.is_err() {
            let ghost k = node@;
            assert(k == m);
            node.owner.user.devices[d].applications[j].alias = old_alias;
            assert(model::views(node.owner.user.devices@[d as int].applications@)
                =~= own_apps(k).update(
                j as int,
                ApplicationView { alias: a.alias, ..own_apps(k)[j as int] },
            ));
            assert(node@.owner.user.devices =~= with_alias(k, a.id, a.alias).owner.user.devices);
            assert(node@ =~= with_alias(k, a.id, a.alias));
            out.push(Effect::Save);
            push_all(&mut out, send_error(src, ERR_NO_WRITER));
            assert(model::views(out@) =~= updated(n, src, u, target, now, retention).1);
            return out;
        }
    }
    let mut bytes: Vec<u8> = Vec::new();
    bytes.push(OK);
    assert(bytes@ =~= seq![OK]);
    out.push(Effect::Send { dest: src, bytes });
    assert(model::views(out@) =~= updated(n, src, u, target, now, retention).1);
    out
}

/// An IPv4 address and a port.
pub open spec fn enc_host(h: HostAddr) -> Seq<u8> {
    seq![h.ip.a, h.ip.b, h.ip.c, h.ip.d] + wire::enc_u16(h.port)
}

pub open spec fn flag(b: bool) -> u8 {
    if b {
        1
    } else {
        0
    }
}

/// An application as the others on the user's devices see it: no token.
pub open spec fn enc_own_app(a: ApplicationView) -> Seq<u8> {
    a.id@ + wire::enc_str(a.alias) + enc_host(a.host) + seq![flag(a.user_approved)]
}

pub open spec fn own_app_enc() -> spec_fn(ApplicationView) -> Seq<u8> {
    |a: ApplicationView| enc_own_app(a)
}

/// One of the user's devices. The count of applications is a byte that wraps.
pub open spec fn enc_own_device(d: DeviceView) -> Seq<u8> {
    device_wire::enc_device_fields(d.uuid, d.alias, d.grade, d.sg_rank, d.hosts) + seq![
        (d.applications.len() % 256) as u8,
    ] + lists::enc_all(d.applications, own_app_enc())
}

pub open spec fn own_device_enc() -> spec_fn(DeviceView) -> Seq<u8> {
    |d: DeviceView| enc_own_device(d)
}

/// A contact, with the approved applications of its devices. The count of
/// devices is a byte that wraps.
pub open spec fn enc_known_contact(c: ContactView) -> Seq<u8> {
    wire::enc_str(c.user.alias) + c.user.uuid@ + seq![(c.user.devices.len() % 256) as u8]
        + lists::enc_all(
        cross_user::approved_cards(c.user.devices),
        cross_user::contact_device_enc(),
    )
}

pub open spec fn known_contact_enc() -> spec_fn(ContactView) -> Seq<u8> {
    |c: ContactView| enc_known_contact(c)
}

/// What an application gets to see: itself, the user's devices and the contacts.
pub open spec fn directory(n: NodeView, a: ApplicationView) -> Seq<u8> {
    seq![OK] + enc_own_app(a) + a.token@ + n.device_uuid@ + wire::enc_str(n.owner.user.alias)
        + n.owner.user.uuid@ + seq![(n.owner.user.devices.len() % 256) as u8] + lists::enc_all(
        n.owner.user.devices,
        own_device_enc(),
    ) + seq![(n.owner.contact_users.len() % 256) as u8] + lists::enc_all(
        n.owner.contact_users,
        known_contact_enc(),
    )
}

fn push_host(buf: &mut Vec<u8>, h: HostAddr)
    ensures
        final(buf)@ == old(buf)@ + enc_host(h),
{
    buf.push(h.ip.a);
    buf.push(h.ip.b);
    buf.push(h.ip.c);
    buf.push(h.ip.d);
    push_u16(buf, h.port);
    assert(buf@ =~= old(buf)@ + enc_host(h));
}

fn push_own_app(buf: &mut Vec<u8>, a: &Application)
    ensures
        final(buf)@ == old(buf)@ + enc_own_app(a@),
{
    push_uuid(buf, &a.id);
    push_str(buf, a.alias.as_str());
    push_host(buf, a.host);
    buf.push(if a.user_approved { 1 } else { 0 });
    assert(buf@ =~= old(buf)@ + enc_own_app(a@));
}

fn push_own_device(buf: &mut Vec<u8>, d: &Device)
    ensures
        final(buf)@ == old(buf)@ + enc_own_device(d@),
{
    broadcast use model::group_views;

    push_device(buf, d);
    buf.push((d.applications.len() % 256) as u8);
    let ghost start = buf@;
    let ghost s = d@.applications;
    let mut i: usize = 0;
    assert(buf@ =~= start + lists::enc_all(s.take(0), own_app_enc()));
    while i < d.applications.len()
        invariant
            i <= d.applications@.len(),
            s == model::views(d.applications@),
            buf@ == start + lists::enc_all(s.take(i as int), own_app_enc()),
        decreases d.applications@.len() - i,
    {
        push_own_app(buf, &d.applications[i]);
        proof {
            lists::lemma_enc_step(s, own_app_enc(), i as int);
        }
        i += 1;
        assert(buf@ =~= start + lists::enc_all(s.take(i as int), own_app_enc()));
    }
    assert(s.take(s.len() as int) =~= s);
    assert(buf@ =~= old(buf)@ + enc_own_device(d@));
}

fn push_known_contact(buf: &mut Vec<u8>, c: &Contact)
    ensures
        final(buf)@ == old(buf)@ + enc_known_contact(c@),
{
    broadcast use model::group_views;

    push_str(buf, c.user.alias.as_str());
    push_uuid(buf, &c.user.uuid);
    buf.push((c.user.devices.len() % 256) as u8);
    let ghost start = buf@;
    let ghost s = cross_user::approved_cards(c@.user.devices);
    let ghost f = cross_user::contact_device_enc();
    let mut i: usize = 0;
    assert(buf@ =~= start + lists::enc_all(s.take(0), f));
    while i < c.user.devices.len()
        invariant
            i <= c.user.devices@.len(),
            s == cross_user::approved_cards(model::views(c.user.devices@)),
            f == cross_user::contact_device_enc(),
            buf@ == start + lists::enc_all(s.take(i as int), f),
        decreases c.user.devices@.len() - i,
    {
        push_contact_device(buf, &c.user.devices[i]);
        proof {
            lists::lemma_enc_step(s, f, i as int);
        }
        i += 1;
        assert(buf@ =~= start + lists::enc_all(s.take(i as int), f));
    }
    assert(s.take(s.len() as int) =~= s);
    assert(buf@ =~= old(buf)@ + enc_known_contact(c@));
}

fn directory_bytes(node: &Node, app: &Application) -> (r: Vec<u8>)
    ensures
        r@ == directory(node@, app@),
{
    broadcast use model::group_views;

    let mut buf: Vec<u8> = Vec::new();
    buf.push(OK);
    push_own_app(&mut buf, app);
    push_uuid(&mut buf, &app.token);
    push_uuid(&mut buf, &node.device_uuid);
    push_str(&mut buf, node.owner.user.alias.as_str());
    push_uuid(&mut buf, &node.owner.user.uuid);
    buf.push((node.owner.user.devices.len() % 256) as u8);
    let ghost head = buf@;
    let ghost s = node@.owner.user.devices;
    let mut i: usize = 0;
    assert(buf@ =~= head + lists::enc_all(s.take(0), own_device_enc()));
    while i < node.owner.user.devices.len()
        invariant
            i <= node.owner.user.devices@.len(),
            s == node@.owner.user.devices,
            buf@ == head + lists::enc_all(s.take(i as int), own_device_enc()),
        decreases node.owner.user.devices@.len() - i,
    {
        push_own_device(&mut buf, &node.owner.user.devices[i]);
        proof {
            lists::lemma_enc_step(s, own_device_enc(), i as int);
        }
        i += 1;
        assert(buf@ =~= head + lists::enc_all(s.take(i as int), own_device_enc()));
    }
    assert(s.take(s.len() as int) =~= s);
    buf.push((node.owner.contact_users.len() % 256) as u8);
    let ghost middle = buf@;
    let ghost cs = node@.owner.contact_users;
    let mut k: usize = 0;
    assert(buf@ =~= middle + lists::enc_all(cs.take(0), known_contact_enc()));
    while k < node.owner.contact_users.len()
        invariant
            k <= node.owner.contact_users@.len(),
            cs == node@.owner.contact_users,
            buf@ == middle + lists::enc_all(cs.take(k as int), known_contact_enc()),
        decreases node.owner.contact_users@.len() - k,
    {
        push_known_contact(&mut buf, &node.owner.contact_users[k]);
        proof {
            lists::lemma_enc_step(cs, known_contact_enc(), k as int);
        }
        k += 1;
        assert(buf@ =~= middle + lists::enc_all(cs.take(k as int), known_contact_enc()));
    }
    assert(cs.take(cs.len() as int) =~= cs);
    assert(buf@ =~= directory(node@, app@));
    buf
}

/// What a request for the directory leads to.
pub open spec fn looked_up(n: NodeView, src: PeerAddr, d: Seq<u8>) -> Seq<EffectView> {
    if d.len() < 16 {
        refusal(src, ERR_BAD_PACKET)
    } else {
        let apps = own_apps(n);
        match model::first_where(apps, find::app_has_token(wire::uuid_of(d.subrange(0, 16)))) {
            Some(i) => seq![EffectView::Send { dest: src, bytes: directory(n, apps[i]) }],
            None => refusal(src, ERR_TOKEN_UNKNOWN),
        }
    }
}

/// Answers an application, known by its token, with the directory.
pub fn app_get_data(node: &Node, src: PeerAddr, data: &[u8]) -> (r: Vec<Effect>)
    requires
        own_index(node@) is Some,
    ensures
        model::views(r@) == looked_up(node@, src, data@),
{
    broadcast use model::group_views;

    let token = match slice_uuid(data, 0) {
        Some(t) => t,
        None => {
            return send_error(src, ERR_BAD_PACKET);
        },
    };
    let d: usize = match find_device(&node.owner.user.devices, &node.device_uuid) {
        Some(d) => d,
        None => {
            return Vec::new();
        },
    };
    match find_app_by_token(&node.owner.user.devices[d].applications, &token) {
        Some(i) => {
            let bytes = directory_bytes(node, &node.owner.user.devices[d].applications[i]);
            let mut out: Vec<Effect> = Vec::new();
            out.push(Effect::Send { dest: src, bytes });
            assert(model::views(out@) =~= looked_up(node@, src, data@));
            out
        },
        None => send_error(src, ERR_TOKEN_UNKNOWN),
    }
}

/// The applications of a device with other tokens.
pub open spec fn same_but_tokens(a: DeviceView, b: DeviceView) -> bool {
    &&& b == (DeviceView { applications: b.applications, ..a })
    &&& a.applications.len() == b.applications.len()
    &&& forall|i: int|
        0 <= i < a.applications.len() ==> #[trigger] b.applications[i] == (ApplicationView {
            token: b.applications[i].token,
            ..a.applications[i]
        })
}

/// Two contacts that look the same to applications: under their devices stand
/// the same approved applications, by identifier and alias. What else there is
/// of applications, and keys, may differ.
pub open spec fn same_to_apps(a: ContactView, b: ContactView) -> bool {
    &&& a.user.alias == b.user.alias
    &&& a.user.uuid == b.user.uuid
    &&& a.user.devices.len() == b.user.devices.len()
    &&& forall|i: int|
        0 <= i < a.user.devices.len() ==> cross_user::approved_card(#[trigger] a.user.devices[i])
            == cross_user::approved_card(b.user.devices[i])
}

/// Two states that tell applications the same: they differ at most in tokens,
/// in keys, in what contacts' devices have besides approved applications, in the
/// addresses of those, and in what is not in the directory at all.
pub open spec fn alike(a: NodeView, b: NodeView) -> bool {
    &&& a.device_uuid == b.device_uuid
    &&& a.owner.user.alias == b.owner.user.alias
    &&& a.owner.user.uuid == b.owner.user.uuid
    &&& a.owner.user.devices.len() == b.owner.user.devices.len()
    &&& forall|i: int|
        0 <= i < a.owner.user.devices.len() ==> same_but_tokens(
            #[trigger] a.owner.user.devices[i],
            b.owner.user.devices[i],
        )
    &&& a.owner.contact_users.len() == b.owner.contact_users.len()
    &&& forall|i: int|
        0 <= i < a.owner.contact_users.len() ==> same_to_apps(
            #[trigger] a.owner.contact_users[i],
            b.owner.contact_users[i],
        )
}

/// The directory that an application gets holds no token but its own, no key,
/// and of contacts' applications the approved ones alone, without token and
/// address: it does not depend on the rest.
pub proof fn law_directory_hides_secrets(a: NodeView, b: NodeView, app: ApplicationView)
    requires
        alike(a, b),
    ensures
        directory(a, app) == directory(b, app),
{
    assert forall|i: int| 0 <= i < a.owner.user.devices.len() implies own_device_enc()(
        #[trigger] a.owner.user.devices[i],
    ) == own_device_enc()(b.owner.user.devices[i]) by {
        let x = a.owner.user.devices[i];
        let y = b.owner.user.devices[i];
        assert(same_but_tokens(x, y));
        assert forall|k: int| 0 <= k < x.applications.len() implies own_app_enc()(
            #[trigger] x.applications[k],
        ) == own_app_enc()(y.applications[k]) by {
            assert(y.applications[k] == (ApplicationView {
                token: y.applications[k].token,
                ..x.applications[k]
            }));
        }
        lists::lemma_enc_same(x.applications, y.applications, own_app_enc());
    }
    lists::lemma_enc_same(a.owner.user.devices, b.owner.user.devices, own_device_enc());
    assert forall|i: int| 0 <= i < a.owner.contact_users.len() implies known_contact_enc()(
        #[trigger] a.owner.contact_users[i],
    ) == known_contact_enc()(b.owner.contact_users[i]) by {
        let x = a.owner.contact_users[i];
        let y = b.owner.contact_users[i];
        assert(same_to_apps(x, y));
        assert(cross_user::approved_cards(x.user.devices) =~= cross_user::approved_cards(
            y.user.devices,
        ));
    }
    lists::lemma_enc_same(a.owner.contact_users, b.owner.contact_users, known_contact_enc());
}

/// A leg of a tunnel whose other end is the device.
pub open spec fn leg_to(n: NodeView, dest: Uuid) -> spec_fn(TunnelLeg) -> bool {
    |l: TunnelLeg| sync::session(n, l.conn_id) matches Some(c) && c.device_uuid == dest
}

pub open spec fn leg_on(id: u16) -> spec_fn(TunnelLeg) -> bool {
    |l: TunnelLeg| l.conn_id == id
}

/// A session with the device that has not run out and belongs to no tunnel.
pub open spec fn direct(n: NodeView, dest: Uuid, now: u64) -> spec_fn(ActiveConnection) -> bool {
    |c: ActiveConnection|
        c.device_uuid == dest && c.timeout > now && !model::any_where(
            n.owner.dg_tunnel_map,
            leg_on(c.id),
        )
}

/// The packet that carries a payload to an application of another device: in
/// a tunnel, if there is one and a server to carry it; else over a direct
/// session; else through a server. `None` where there is no way.
pub open spec fn routed(n: NodeView, dest: Uuid, inner: Seq<u8>, now: u64) -> Option<EffectView> {
    let via = routing::carrier(n, dest);
    let legs = n.owner.dg_tunnel_map;
    let leg = model::first_where(legs, leg_to(n, dest));
    if leg is Some && via is Some {
        Some(
            EffectView::SealTunnel {
                conn: sync::session(n, legs[leg.unwrap()].conn_id).unwrap(),
                via: via.unwrap(),
                tunnel_id: legs[leg.unwrap()].tunnel_id,
                body: inner,
            },
        )
    } else {
        match model::first_where(n.owner.active_connections, direct(n, dest, now)) {
            Some(i) => Some(
                EffectView::Seal {
                    conn: n.owner.active_connections[i],
                    op: APP_PACKET_OP,
                    body: inner,
                },
            ),
            None => match via {
                Some(conn) => Some(
                    EffectView::Seal { conn, op: RELAY_PACKET_OP, body: dest@ + inner },
                ),
                None => None,
            },
        }
    }
}

/// The application that a token belongs to, on this device.
pub open spec fn app_of_token(n: NodeView, token: Uuid) -> Option<ApplicationView> {
    match own_index(n) {
        Some(i) => match model::first_where(
            n.owner.user.devices[i].applications,
            find::app_has_token(token),
        ) {
            Some(k) => Some(n.owner.user.devices[i].applications[k]),
            None => None,
        },
        None => None,
    }
}

/// What an application's packet leads to.
pub open spec fn app_sent(
    n: NodeView,
    src: PeerAddr,
    d: Seq<u8>,
    allowed: bool,
    now: u64,
    max_payload: int,
) -> Seq<EffectView> {
    if d.len() < 48 {
        refusal(src, ERR_BAD_PACKET)
    } else if !allowed {
        refusal(src, ERR_RATE_LIMITED)
    } else if d.len() - 48 > max_payload {
        refusal(src, ERR_PAYLOAD_TOO_LARGE)
    } else {
        match app_of_token(n, wire::uuid_of(d.subrange(0, 16))) {
            None => refusal(src, ERR_TOKEN_UNKNOWN),
            Some(app) => if !app.user_approved {
                refusal(src, ERR_NOT_APPROVED)
            } else {
                let inner = d.subrange(32, 48) + app.id@ + d.skip(48);
                match routed(n, wire::uuid_of(d.subrange(16, 32)), inner, now) {
                    Some(e) => seq![e],
                    None => refusal(src, ERR_NO_ROUTE),
                }
            },
        }
    }
}

fn find_leg_to(node: &Node, dest: &Uuid) -> (r: Option<usize>)
    ensures
        match model::first_where(node@.owner.dg_tunnel_map, leg_to(node@, *dest)) {
            Some(i) => r == Some(i as usize) && 0 <= i < node.owner.dg_tunnel_map@.len() && i
                == r->0,
            None => r is None,
        },
{
    let v = &node.owner.dg_tunnel_map;
    let mut i: usize = 0;
    while i < v.len()
        invariant
            i <= v@.len(),
            v@ == node@.owner.dg_tunnel_map,
            forall|j: int| 0 <= j < i ==> !leg_to(node@, *dest)(#[trigger] v@[j]),
        decreases v@.len() - i,
    {
        if let Some(c) = find_session_by_id(node, v[i].conn_id) {
            if uuid_eq(&c.device_uuid, dest) {
                proof {
                    assert(leg_to(node@, *dest)(v@[i as int]));
                    model::lemma_first_at(v@, leg_to(node@, *dest), i as int);
                }
                return Some(i);
            }
        }
        assert(!leg_to(node@, *dest)(v@[i as int]));
        i += 1;
    }
    proof {
        model::lemma_first_none(v@, leg_to(node@, *dest));
    }
    None
}

fn is_leg(v: &Vec<TunnelLeg>, id: u16) -> (r: bool)
    ensures
        r == model::any_where(v@, leg_on(id)),
{
    let mut i: usize = 0;
    while i < v.len()
        invariant
            i <= v@.len(),
            forall|j: int| 0 <= j < i ==> !leg_on(id)(#[trigger] v@[j]),
        decreases v@.len() - i,
    {
        if v[i].conn_id == id {
            assert(leg_on(id)(v@[i as int]));
            return true;
        }
        i += 1;
    }
    false
}

fn find_direct(node: &Node, dest: &Uuid, now: u64) -> (r: Option<usize>)
    ensures
        match model::first_where(node@.owner.active_connections, direct(node@, *dest, now)) {
            Some(i) => r == Some(i as usize) && 0 <= i < node.owner.active_connections@.len() && i
                == r->0,
            None => r is None,
        },
{
    let v = &node.owner.active_connections;
    let mut i: usize = 0;
    while i < v.len()
        invariant
            i <= v@.len(),
            v@ == node@.owner.active_connections,
            forall|j: int| 0 <= j < i ==> !direct(node@, *dest, now)(#[trigger] v@[j]),
        decreases v@.len() - i,
    {
        let c = v[i];
        if uuid_eq(&c.device_uuid, dest) && c.timeout > now && !is_leg(
            &node.owner.dg_tunnel_map,
            c.id,
        ) {
            proof {
                assert(direct(node@, *dest, now)(v@[i as int]));
                model::lemma_first_at(v@, direct(node@, *dest, now), i as int);
            }
            return Some(i);
        }
        i += 1;
    }
    proof {
        model::lemma_first_none(v@, direct(node@, *dest, now));
    }
    None
}

/// The packet that carries a payload to another device, if there is a way.
pub fn route(node: &Node, dest: &Uuid, inner: Vec<u8>, now: u64) -> (r: Option<Effect>)
    ensures
        match routed(node@, *dest, inner@, now) {
            Some(e) => r matches Some(x) && x@ == e,
            None => r is None,
        },
{
    let via = find_carrier(node, dest);
    if let Some(i) = find_leg_to(node, dest) {
        if let Some(via) = via {
            let l = node.owner.dg_tunnel_map[i];
            proof {
                model::lemma_first_where(node@.owner.dg_tunnel_map, leg_to(node@, *dest));
                assert(leg_to(node@, *dest)(l));
            }
            match find_session_by_id(node, l.conn_id) {
                Some(conn) => {
                    return Some(
                        Effect::SealTunnel { conn, via, tunnel_id: l.tunnel_id, body: inner },
                    );
                },
                None => {},
            }
        }
    }
    if let Some(i) = find_direct(node, dest, now) {
        let conn = node.owner.active_connections[i];
        return Some(Effect::Seal { conn, op: APP_PACKET_OP, body: inner });
    }
    match via {
        Some(conn) => {
            let mut body: Vec<u8> = Vec::new();
            push_uuid(&mut body, dest);
            push_bytes(&mut body, inner.as_slice());
            assert(body@ =~= dest@ + inner@);
            Some(Effect::Seal { conn, op: RELAY_PACKET_OP, body })
        },
        None => None,
    }
}

/// Sends a packet of an approved application, known by its token, to an
/// application of another device. `allowed` tells whether the sender keeps
/// within its rate. Nothing is answered where a packet goes out.
pub fn app_send_packet(
    node: &Node,
    src: PeerAddr,
    data: &[u8],
    allowed: bool,
    now: u64,
    max_payload: usize,
) -> (r: Vec<Effect>)
    ensures
        model::views(r@) == app_sent(node@, src, data@, allowed, now, max_payload as int),
{
    broadcast use model::group_views;

    if data.len() < 48 {
        return send_error(src, ERR_BAD_PACKET);
    }
    let token = match slice_uuid(data, 0) {
        Some(u) => u,
        None => {
            return send_error(src, ERR_BAD_PACKET);
        },
    };
    let dest = match slice_uuid(data, 16) {
        Some(u) => u,
        None => {
            return send_error(src, ERR_BAD_PACKET);
        },
    };
    if !allowed {
        return send_error(src, ERR_RATE_LIMITED);
    }
    if data.len() - 48 > max_payload {
        return send_error(src, ERR_PAYLOAD_TOO_LARGE);
    }
    let d: usize = match find_device(&node.owner.user.devices, &node.device_uuid) {
        Some(d) => d,
        None => {
            return send_error(src, ERR_TOKEN_UNKNOWN);
        },
    };
    let apps = &node.owner.user.devices[d].applications;
    let i: usize = match find_app_by_token(apps, &token) {
        Some(i) => i,
        None => {
            return send_error(src, ERR_TOKEN_UNKNOWN);
        },
    };
    if !apps[i].user_approved {
        return send_error(src, ERR_NOT_APPROVED);
    }
    let mut inner: Vec<u8> = Vec::new();
    push_bytes(&mut inner, &data[32..48]);
    push_uuid(&mut inner, &apps[i].id);
    push_bytes(&mut inner, &data[48..data.len()]);
    assert(data@.subrange(48, data@.len() as int) =~= data@.skip(48));
    assert(inner@ =~= data@.subrange(32, 48) + apps@[i as int].id@ + data@.skip(48));
    match route(node, &dest, inner, now) {
        Some(e) => {
            let mut out: Vec<Effect> = Vec::new();
            out.push(e);
            assert(model::views(out@) =~= seq![e@]);
            out
        },
        None => send_error(src, ERR_NO_ROUTE),
    }
}

/// Whatever became of tunnels, a packet goes out wherever a server can carry it.
pub proof fn law_tunnels_block_nothing(n: NodeView, dest: Uuid, inner: Seq<u8>, now: u64)
    requires
        routing::carrier(n, dest) is Some,
    ensures
        routed(n, dest, inner, now) is Some,
{
}

/// An application that is not approved sends nothing.
pub proof fn law_unapproved_sends_nothing(
    n: NodeView,
    src: PeerAddr,
    d: Seq<u8>,
    allowed: bool,
    now: u64,
    max_payload: int,
)
    requires
        d.len() >= 48,
        app_of_token(n, wire::uuid_of(d.subrange(0, 16))) matches Some(a) ==> !a.user_approved,
    ensures
        exists|code: u8|
            app_sent(n, src, d, allowed, now, max_payload) == #[trigger] refusal(src, code),
{
    let code = if !allowed {
        ERR_RATE_LIMITED
    } else if d.len() - 48 > max_payload {
        ERR_PAYLOAD_TOO_LARGE
    } else if app_of_token(n, wire::uuid_of(d.subrange(0, 16))) is None {
        ERR_TOKEN_UNKNOWN
    } else {
        ERR_NOT_APPROVED
    };
    assert(app_sent(n, src, d, allowed, now, max_payload) == refusal(src, code));
}

/// The token that a new application is given is the one it is known by, and it
/// may send exactly if it was approved at once.
pub proof fn law_token_is_known(
    n: NodeView,
    src: PeerAddr,
    g: RegistrationView,
    w: RegisterWith,
)
    requires
        own_index(n) is Some,
        !w.auto_approve || w.target != WriterTarget::Unreachable,
        model::first_where(own_apps(n), app_at(g.alias, g.host)) is None,
        forall|k: int| 0 <= k < own_apps(n).len() ==> (#[trigger] own_apps(n)[k]).token
            != w.fresh_token,
    ensures
        app_of_token(registered(n, src, g, w).0, w.fresh_token) == Some(
            ApplicationView {
                id: w.fresh_id,
                alias: g.alias,
                protocol: g.protocol,
                host: g.host,
                user_approved: w.auto_approve,
                token: w.fresh_token,
            },
        ),
        registered(n, src, g, w).1.last() == token_reply(src, w.fresh_token),
{
    let apps = own_apps(n);
    let a = ApplicationView {
        id: w.fresh_id,
        alias: g.alias,
        protocol: g.protocol,
        host: g.host,
        user_approved: w.auto_approve,
        token: w.fresh_token,
    };
    let more = apps.push(a);
    let m = with_own_apps(n, more);
    let i = apps.len() as int;
    let p = find::app_has_token(w.fresh_token);
    lemma_same_index(n, more);
    assert forall|j: int| 0 <= j < i implies !p(#[trigger] more[j]) by {
        assert(more[j] == apps[j]);
    }
    assert(p(more[i]));
    model::lemma_first_at(more, p, i);
    if w.auto_approve {
        let c = ChangeView::AddApplication {
            device_uuid: n.device_uuid,
            app_id: w.fresh_id,
            app_alias: g.alias,
        };
        assert(find::app_is(w.fresh_id)(more[i]));
        assert(apply::applied(m.owner, c) == Some((false, m.owner)));
        let (_, k, _) = sync::requested(m, c, w.target, true, w.now, w.retention);
        assert(k.owner.user == m.owner.user);
        assert(k.device_uuid == m.device_uuid);
    }
}

/// A packet for an application, as the sender's application hands it in.
pub open spec fn send_request(token: Uuid, dest: Uuid, dest_app: Uuid, payload: Seq<u8>) -> Seq<
    u8,
> {
    token@ + dest@ + dest_app@ + payload
}

/// A message arrives whole, whichever way it goes. What an approved application
/// sends leaves in one packet wherever there is a way. The packet is for the
/// device itself, in a tunnel or over a session, or for a server, and a server
/// with a session to the device passes it on. There the application that it is
/// for gets the payload as it was sent, behind the sender's identifier.
pub proof fn law_message_arrives(
    a: NodeView,
    src: PeerAddr,
    token: Uuid,
    dest_app: Uuid,
    payload: Seq<u8>,
    now: u64,
    server: NodeView,
    conn_id: u16,
    now_ms: u64,
    limits: RelayLimits,
    b: NodeView,
    host: HostAddr,
)
    requires
        payload.len() <= limits.max_payload,
        app_of_token(a, token) matches Some(app) && app.user_approved,
        relay::approved_host(b, dest_app) == Some(host),
        server.device_uuid != b.device_uuid,
        routing::session_with(server, b.device_uuid) is Some,
    ensures
        ({
            let sender = app_of_token(a, token).unwrap().id;
            let dest = b.device_uuid;
            let max = limits.max_payload as int;
            let inner = dest_app@ + sender@ + payload;
            let got = seq![
                EffectView::Send {
                    dest: PeerAddr::V4(host),
                    bytes: relay::push_packet(sender, payload),
                },
            ];
            let sent = app_sent(
                a,
                src,
                send_request(token, dest, dest_app, payload),
                true,
                now,
                max,
            );
            match routed(a, dest, inner, now) {
                None => sent == refusal(src, ERR_NO_ROUTE),
                Some(e) => sent == seq![e] && match e {
                    EffectView::SealTunnel { body, .. } => relay::delivered(b, body, max) == got,
                    EffectView::Seal { op, body, .. } => if op == APP_PACKET_OP {
                        relay::delivered(b, body, max) == got
                    } else {
                        &&& op == RELAY_PACKET_OP
                        &&& relay::relayed(b, conn_id, body, now_ms, limits).1 == got
                        &&& relay::relayed(server, conn_id, body, now_ms, limits).1[0] == (
                        EffectView::Seal {
                            conn: routing::session_with(server, dest).unwrap(),
                            op: APP_PACKET_OP,
                            body: inner,
                        })
                        &&& relay::delivered(b, inner, max) == got
                    },
                    _ => false,
                },
            }
        }),
{
    let sender = app_of_token(a, token).unwrap().id;
    let dest = b.device_uuid;
    let d = send_request(token, dest, dest_app, payload);
    let inner = dest_app@ + sender@ + payload;
    assert(d.subrange(0, 16) =~= token@);
    assert(d.subrange(16, 32) =~= dest@);
    assert(d.subrange(32, 48) =~= dest_app@);
    assert(d.skip(48) =~= payload);
    wire::lemma_uuid_of(token);
    wire::lemma_uuid_of(dest);
    relay::law_delivered_whole(b, dest_app, sender, payload, limits.max_payload as int, host);
    relay::law_relayed_whole(server, conn_id, dest, inner, now_ms, limits);
    let pt = dest@ + inner;
    assert(pt.subrange(0, 16) =~= dest@);
    assert(pt.skip(16) =~= inner);
}

/// A registration is to be published: it adds an application that is approved at
/// once.
pub open spec fn registration_published(
    n: NodeView,
    src: PeerAddr,
    d: Seq<u8>,
    auto_approve: bool,
) -> bool {
    &&& auto_approve
    &&& parse_registration(d, src) matches Some(g) && model::first_where(
        own_apps(n),
        app_at(g.alias, g.host),
    ) is None
}

/// Whether a registration is to be published, and so needs the writer.
pub fn registration_needs_writer(
    node: &Node,
    src: PeerAddr,
    data: &[u8],
    auto_approve: bool,
) -> (r: bool)
    requires
        own_index(node@) is Some,
    ensures
        r == registration_published(node@, src, data@, auto_approve),
{
    broadcast use model::group_views;

    if !auto_approve {
        return false;
    }
    let (alias, _, host) = match read_registration(data, src) {
        Some(x) => x,
        None => {
            return false;
        },
    };
    match find_device(&node.owner.user.devices, &node.device_uuid) {
        Some(i) => find_app_at(&node.owner.user.devices[i].applications, &alias, host).is_none(),
        None => false,
    }
}

/// An update is to be published: it gives an application another name.
pub open spec fn update_published(n: NodeView, d: Seq<u8>) -> bool {
    match parse_update(d) {
        Some(u) => match model::first_where(own_apps(n), find::app_has_token(u.token)) {
            Some(i) => u.alias matches Some(a) && a != own_apps(n)[i].alias,
            None => false,
        },
        None => false,
    }
}

/// Whether an update is to be published, and so needs the writer.
pub fn update_needs_writer(node: &Node, data: &[u8]) -> (r: bool)
    requires
        own_index(node@) is Some,
    ensures
        r == update_published(node@, data@),
{
    broadcast use model::group_views;

    let (token, new_alias, _) = match read_update(data) {
        Some(x) => x,
        None => {
            return false;
        },
    };
    let d: usize = match find_device(&node.owner.user.devices, &node.device_uuid) {
        Some(d) => d,
        None => {
            return false;
        },
    };
    match (
        find_app_by_token(&node.owner.user.devices[d].applications, &token),
        new_alias,
    ) {
        (Some(i), Some(alias)) => node.owner.user.devices[d].applications[i].alias != alias,
        _ => false,
    }
}

/// Who writes does not matter for a registration that is not to be published.
pub proof fn law_registration_without_writer(
    n: NodeView,
    src: PeerAddr,
    d: Seq<u8>,
    w: RegisterWith,
    target: WriterTarget,
)
    requires
        !registration_published(n, src, d, w.auto_approve),
    ensures
        parse_registration(d, src) matches Some(g) ==> registered(n, src, g, w) == registered(
            n,
            src,
            g,
            RegisterWith { target, ..w },
        ),
{
}

/// Who writes does not matter for an update that is not to be published.
pub proof fn law_update_without_writer(
    n: NodeView,
    src: PeerAddr,
    d: Seq<u8>,
    a: WriterTarget,
    b: WriterTarget,
    now: u64,
    retention: u64,
)
    requires
        !update_published(n, d),
    ensures
        parse_update(d) matches Some(u) ==> updated(n, src, u, a, now, retention) == updated(
            n,
            src,
            u,
            b,
            now,
            retention,
        ),
{
}

/// The token that an application's packet comes with, if it is long enough to
/// be one: by whom the rate of packets is counted.
pub fn send_token(data: &[u8]) -> (r: Option<Uuid>)
    ensures
        r == if data@.len() >= 48 {
            Some(wire::uuid_of(data@.subrange(0, 16)))
        } else {
            None
        },
{
    if data.len() < 48 {
        None
    } else {
        slice_uuid(data, 0)
    }
}

/// The rate of packets does not matter for one without a token.
pub proof fn law_short_packet_is_refused_as_such(
    n: NodeView,
    src: PeerAddr,
    d: Seq<u8>,
    allowed: bool,
    now: u64,
    max_payload: int,
)
    requires
        d.len() < 48,
    ensures
        app_sent(n, src, d, allowed, now, max_payload) == refusal(src, ERR_BAD_PACKET),
{
}

} // verus!
