//! A module to look into a node: what it holds, which packets came, and a form
//! to send one.
use crate::effects::EffectView;
use crate::find;
use crate::find::{find_contact_of_device, find_device};
use crate::forms;
use crate::forms::{form_field, hex_bytes, html_escape_quotes, url_decode_bytes, uuid_from_hex};
use crate::layout::put_hex;
use crate::markup;
use crate::model;
use crate::modules;
use crate::modules::{
    EnabledModulesView, HttpRequest, HttpResponse, Module, ModuleCtx, ModuleCtxView, ModuleId,
    PacketSource, PacketTarget,
};
use crate::pages;
use crate::text;
use crate::text::{blank, is_empty, join_texts, owned, put, put_dec, text_eq, utf8_text};
use crate::types::{
    uuid_eq, Contact, ContactView, Device, DeviceGrade, DeviceView, Node, NodeView, SgHostStatus,
    SgHostStatusView, Uuid,
};
use crate::wire::push_bytes;
use vstd::prelude::*;

verus! {

pub const MODULE_ID: ModuleId = 1;

pub const MODULE_SLUG: &'static str = "debug";

pub const MODULE_ALIAS: &'static str = "Debug";

/// So many packets are kept.
pub const INBOX_CAP: usize = 100;

/// A packet that came. `at` is in seconds since the Unix epoch.
#[derive(Debug, PartialEq, Eq)]
pub struct Received {
    pub at: u64,
    pub from_user: Uuid,
    pub from_device: Uuid,
    pub payload: Vec<u8>,
}

#[verifier::ext_equal]
pub struct ReceivedView {
    pub at: u64,
    pub from_user: Uuid,
    pub from_device: Uuid,
    pub payload: Seq<u8>,
}

impl View for Received {
    type V = ReceivedView;

    open spec fn view(&self) -> ReceivedView {
        ReceivedView {
            at: self.at,
            from_user: self.from_user,
            from_device: self.from_device,
            payload: self.payload@,
        }
    }
}

/// The module, with the packets that came.
pub struct Debug {
    pub inbox: Vec<Received>,
}

impl View for Debug {
    type V = Seq<ReceivedView>;

    open spec fn view(&self) -> Seq<ReceivedView> {
        model::views(self.inbox@)
    }
}

impl Debug {
    /// The module, before any packet came.
    pub fn new() -> (r: Debug)
        ensures
            r@ == Seq::<ReceivedView>::empty(),
    {
        let inbox: Vec<Received> = Vec::new();
        assert(model::views(inbox@) =~= Seq::empty());
        Debug { inbox }
    }
}

/// The packets that are kept once one more came: it and those that came last.
pub open spec fn kept(inbox: Seq<ReceivedView>, r: ReceivedView) -> Seq<ReceivedView> {
    if inbox.len() < INBOX_CAP {
        inbox.push(r)
    } else {
        inbox.skip(inbox.len() - INBOX_CAP + 1).push(r)
    }
}

/// How Rust shows a piece of text in quotes.
pub uninterp spec fn quoted(s: Seq<char>) -> Seq<char>;

/// Text in quotes, as the `Debug` format of `str` writes it: with `\"`, `\n` and
/// the like for characters that cannot stand there.
#[verifier::external_body]
fn quote_text(s: &str) -> (r: String)
    ensures
        r@ == quoted(s@),
{
    format!("{:?}", s)
}

/// How Rust shows so many nanoseconds.
pub uninterp spec fn nanos_shown(ns: u64) -> Seq<char>;

/// So many nanoseconds, as the `Debug` format of `std::time::Duration` writes
/// them.
#[verifier::external_body]
fn show_nanos(ns: u64) -> (r: String)
    ensures
        r@ == nanos_shown(ns),
{
    format!("{:?}", std::time::Duration::from_nanos(ns))
}

/// Pieces of text in a list.
pub open spec fn listed(s: Seq<Seq<char>>) -> Seq<char> {
    "["@ + text::joined(s, ", "@) + "]"@
}

fn show_list(v: &Vec<String>) -> (r: String)
    ensures
        r@ == listed(model::views(v@)),
{
    let mut s = owned("[");
    put(&mut s, join_texts(v, ", ").as_str());
    put(&mut s, "]");
    s
}

/// Hosts in a list.
pub open spec fn hosts_listed(h: Seq<Seq<char>>) -> Seq<char> {
    listed(Seq::new(h.len(), |i: int| quoted(h[i])))
}

fn show_hosts(h: &Vec<String>) -> (r: String)
    ensures
        r@ == hosts_listed(model::views(h@)),
{
    broadcast use model::group_views;

    let ghost s = model::views(h@);
    let ghost want = Seq::new(s.len(), |i: int| quoted(s[i]));
    let mut v: Vec<String> = Vec::new();
    let mut i: usize = 0;
    assert(model::views(v@) =~= want.take(0));
    while i < h.len()
        invariant
            i <= h@.len(),
            s == model::views(h@),
            want == Seq::new(s.len(), |i: int| quoted(s[i])),
            model::views(v@) == want.take(i as int),
        decreases h@.len() - i,
    {
        v.push(quote_text(h[i].as_str()));
        proof {
            model::lemma_take_push(want, i as int);
        }
        i += 1;
    }
    assert(want.take(want.len() as int) =~= want);
    show_list(&v)
}

pub open spec fn enabled_for(u: Uuid) -> spec_fn(EnabledModulesView) -> bool {
    |e: EnabledModulesView| e.user == u
}

/// The modules that a user has turned on.
pub open spec fn modules_of(c: ModuleCtxView, u: Uuid) -> Seq<ModuleId> {
    match model::first_where(c.enabled, enabled_for(u)) {
        Some(i) => c.enabled[i].modules,
        None => Seq::empty(),
    }
}

/// The modules that a user has turned on, in a list.
pub open spec fn modules_listed(c: ModuleCtxView, u: Uuid) -> Seq<char> {
    let m = modules_of(c, u);
    listed(Seq::new(m.len(), |i: int| text::dec(m[i] as nat)))
}

fn show_ids(m: &Vec<ModuleId>) -> (r: String)
    ensures
        r@ == listed(Seq::new(m@.len(), |i: int| text::dec(m@[i] as nat))),
{
    broadcast use model::group_views;

    let ghost want = Seq::new(m@.len(), |i: int| text::dec(m@[i] as nat));
    let mut v: Vec<String> = Vec::new();
    let mut i: usize = 0;
    assert(model::views(v@) =~= want.take(0));
    while i < m.len()
        invariant
            i <= m@.len(),
            want == Seq::new(m@.len(), |i: int| text::dec(m@[i] as nat)),
            model::views(v@) == want.take(i as int),
        decreases m@.len() - i,
    {
        let mut d = blank();
        put_dec(&mut d, m[i] as u64);
        assert(d@ =~= text::dec(m@[i as int] as nat));
        v.push(d);
        proof {
            model::lemma_take_push(want, i as int);
        }
        i += 1;
    }
    assert(want.take(want.len() as int) =~= want);
    show_list(&v)
}

fn show_modules(ctx: &ModuleCtx, u: &Uuid) -> (r: String)
    ensures
        r@ == modules_listed(ctx@, *u),
{
    broadcast use model::group_views;

    let ghost s = model::views(ctx.enabled@);
    let mut i: usize = 0;
    while i < ctx.enabled.len()
        invariant
            i <= ctx.enabled@.len(),
            s == model::views(ctx.enabled@),
            forall|j: int| 0 <= j < i ==> !enabled_for(*u)(#[trigger] s[j]),
        decreases ctx.enabled@.len() - i,
    {
        if uuid_eq(&ctx.enabled[i].user, u) {
            proof {
                assert(enabled_for(*u)(s[i as int]));
                model::lemma_first_at(s, enabled_for(*u), i as int);
            }
            return show_ids(&ctx.enabled[i].modules);
        }
        i += 1;
    }
    proof {
        model::lemma_first_none(s, enabled_for(*u));
    }
    let none: Vec<ModuleId> = Vec::new();
    assert(none@ =~= Seq::empty());
    show_ids(&none)
}

/// What is shown of the user.
pub open spec fn owner_text(c: ModuleCtxView) -> Seq<char> {
    let o = c.node.owner;
    "alias:           "@ + o.user.alias + "\nuuid:            "@ + forms::hex_of(o.user.uuid@)
        + "\npublic_key:      "@ + forms::hex_of(o.key_pair.public_key@) + "\nenabled_modules: "@
        + modules_listed(c, o.user.uuid)
}

fn show_owner(ctx: &ModuleCtx) -> (r: String)
    ensures
        r@ == owner_text(ctx@),
{
    let o = &ctx.node.owner;
    let mut s = owned("alias:           ");
    put(&mut s, o.user.alias.as_str());
    put(&mut s, "\nuuid:            ");
    put_hex(&mut s, &o.user.uuid);
    put(&mut s, "\npublic_key:      ");
    put(&mut s, hex_bytes(o.key_pair.public_key.as_slice()).as_str());
    put(&mut s, "\nenabled_modules: ");
    put(&mut s, show_modules(ctx, &o.user.uuid).as_str());
    s
}

/// A grade by its name.
pub open spec fn grade_text(g: DeviceGrade) -> Seq<char> {
    match g {
        DeviceGrade::SG => "SG"@,
        DeviceGrade::DG => "DG"@,
    }
}

fn put_grade(s: &mut String, g: DeviceGrade)
    ensures
        final(s)@ == old(s)@ + grade_text(g),
{
    match g {
        DeviceGrade::SG => put(s, "SG"),
        DeviceGrade::DG => put(s, "DG"),
    }
}

/// A rank, or that there is none.
pub open spec fn rank_text(r: Option<u32>) -> Seq<char> {
    match r {
        Some(k) => "Some("@ + text::dec(k as nat) + ")"@,
        None => "None"@,
    }
}

fn show_rank(r: Option<u32>) -> (t: String)
    ensures
        t@ == rank_text(r),
{
    match r {
        Some(k) => {
            let mut s = owned("Some(");
            put_dec(&mut s, k as u64);
            put(&mut s, ")");
            s
        },
        None => owned("None"),
    }
}

/// What is shown of this device.
pub open spec fn this_text(n: NodeView) -> Seq<char> {
    match pages::own_device(n) {
        Some(d) => "uuid:    "@ + forms::hex_of(d.uuid@) + "\nalias:   "@ + d.alias
            + "\ngrade:   "@ + grade_text(d.grade) + "\nsg_rank: "@ + rank_text(d.sg_rank)
            + "\nhosts:   "@ + hosts_listed(d.hosts),
        None => "(this device not in owner.devices)"@,
    }
}

fn show_this(node: &Node) -> (r: String)
    ensures
        r@ == this_text(node@),
{
    broadcast use model::group_views;

    match find_device(&node.owner.user.devices, &node.device_uuid) {
        Some(i) => {
            let d = &node.owner.user.devices[i];
            let mut s = owned("uuid:    ");
            put_hex(&mut s, &d.uuid);
            put(&mut s, "\nalias:   ");
            put(&mut s, d.alias.as_str());
            put(&mut s, "\ngrade:   ");
            put_grade(&mut s, d.grade);
            put(&mut s, "\nsg_rank: ");
            put(&mut s, show_rank(d.sg_rank).as_str());
            put(&mut s, "\nhosts:   ");
            put(&mut s, show_hosts(&d.hosts).as_str());
            s
        },
        None => owned("(this device not in owner.devices)"),
    }
}

/// What is shown of a device of the user.
pub open spec fn own_line() -> spec_fn(DeviceView) -> Seq<char> {
    |d: DeviceView|
        "  "@ + d.alias + " ["@ + grade_text(d.grade) + (match d.sg_rank {
            Some(k) => " rank="@ + text::dec(k as nat),
            None => Seq::empty(),
        }) + "]\n  uuid="@ + forms::hex_of(d.uuid@) + "\n  hosts="@ + hosts_listed(d.hosts) + "\n"@
}

fn show_own_device(d: &Device) -> (r: String)
    ensures
        r@ == own_line()(d@),
{
    let rank = match d.sg_rank {
        Some(k) => {
            let mut t = owned(" rank=");
            put_dec(&mut t, k as u64);
            t
        },
        None => blank(),
    };
    let mut s = owned("  ");
    put(&mut s, d.alias.as_str());
    put(&mut s, " [");
    put_grade(&mut s, d.grade);
    put(&mut s, rank.as_str());
    put(&mut s, "]\n  uuid=");
    put_hex(&mut s, &d.uuid);
    put(&mut s, "\n  hosts=");
    put(&mut s, show_hosts(&d.hosts).as_str());
    put(&mut s, "\n");
    s
}

fn show_own_devices(devices: &Vec<Device>) -> (r: String)
    ensures
        r@ == text::rows(model::views(devices@), own_line()),
{
    broadcast use model::group_views;

    let ghost s = model::views(devices@);
    let mut out = blank();
    let mut i: usize = 0;
    proof {
        text::lemma_rows_none(s, own_line());
    }
    while i < devices.len()
        invariant
            i <= devices@.len(),
            s == model::views(devices@),
            out@ == text::rows(s.take(i as int), own_line()),
        decreases devices@.len() - i,
    {
        put(&mut out, show_own_device(&devices[i]).as_str());
        proof {
            text::lemma_rows_step(s, own_line(), i as int);
        }
        i += 1;
    }
    out
}

/// What is shown of a device of a contact.
pub open spec fn contact_device_line() -> spec_fn(DeviceView) -> Seq<char> {
    |d: DeviceView|
        "    "@ + d.alias + " ["@ + grade_text(d.grade) + "] uuid="@ + forms::hex_of(d.uuid@)
            + "\n"@
}

fn show_contact_devices(devices: &Vec<Device>) -> (r: String)
    ensures
        r@ == text::rows(model::views(devices@), contact_device_line()),
{
    broadcast use model::group_views;

    let ghost s = model::views(devices@);
    let mut out = blank();
    let mut i: usize = 0;
    proof {
        text::lemma_rows_none(s, contact_device_line());
    }
    while i < devices.len()
        invariant
            i <= devices@.len(),
            s == model::views(devices@),
            out@ == text::rows(s.take(i as int), contact_device_line()),
        decreases devices@.len() - i,
    {
        let d = &devices[i];
        let mut row = owned("    ");
        put(&mut row, d.alias.as_str());
        put(&mut row, " [");
        put_grade(&mut row, d.grade);
        put(&mut row, "] uuid=");
        put_hex(&mut row, &d.uuid);
        put(&mut row, "\n");
        put(&mut out, row.as_str());
        proof {
            assert(row@ == contact_device_line()(s[i as int]));
            text::lemma_rows_step(s, contact_device_line(), i as int);
        }
        i += 1;
    }
    out
}

/// What is shown of a contact.
pub open spec fn contact_line(c: ModuleCtxView) -> spec_fn(ContactView) -> Seq<char> {
    |k: ContactView|
        "  "@ + k.user.alias + "\n  uuid="@ + forms::hex_of(k.user.uuid@) + "\n  public_key="@
            + forms::hex_of(k.public_key@) + "\n  enabled_modules="@ + modules_listed(
            c,
            k.user.uuid,
        ) + "\n"@ + text::rows(k.user.devices, contact_device_line())
}

fn show_contact(ctx: &ModuleCtx, k: &Contact) -> (r: String)
    ensures
        r@ == contact_line(ctx@)(k@),
{
    let mut s = owned("  ");
    put(&mut s, k.user.alias.as_str());
    put(&mut s, "\n  uuid=");
    put_hex(&mut s, &k.user.uuid);
    put(&mut s, "\n  public_key=");
    put(&mut s, hex_bytes(k.public_key.as_slice()).as_str());
    put(&mut s, "\n  enabled_modules=");
    put(&mut s, show_modules(ctx, &k.user.uuid).as_str());
    put(&mut s, "\n");
    put(&mut s, show_contact_devices(&k.user.devices).as_str());
    s
}

fn show_contacts(ctx: &ModuleCtx) -> (r: String)
    ensures
        r@ == text::rows(ctx@.node.owner.contact_users, contact_line(ctx@)),
{
    broadcast use model::group_views;

    let list: &Vec<Contact> = &ctx.node.owner.contact_users;
    let ghost s = model::views(list@);
    let ghost f = contact_line(ctx@);
    let mut out = blank();
    let mut i: usize = 0;
    proof {
        text::lemma_rows_none(s, f);
    }
    while i < list.len()
        invariant
            i <= list@.len(),
            s == model::views(list@),
            f == contact_line(ctx@),
            out@ == text::rows(s.take(i as int), f),
        decreases list@.len() - i,
    {
        put(&mut out, show_contact(ctx, &list[i]).as_str());
        proof {
            text::lemma_rows_step(s, f, i as int);
        }
        i += 1;
    }
    out
}

/// How many seconds a session lasts; -1 where it has run out.
pub open spec fn left_text(timeout: u64, now: u64) -> Seq<char> {
    if timeout >= now {
        text::dec((timeout - now) as nat)
    } else {
        "-1"@
    }
}

/// What is shown of the session at `i`.
pub open spec fn conn_line(c: ModuleCtxView, i: int) -> Seq<char> {
    let k = c.node.owner.active_connections[i];
    "  conn="@ + text::dec(k.id as nat) + " peer_device="@ + forms::hex_of(k.device_uuid@)
        + " peer_addr="@ + (if i < c.peers.len() {
        c.peers[i]
    } else {
        Seq::empty()
    }) + " timeout=+"@ + left_text(k.timeout, c.now) + "s\n"@
}

/// What is shown of the first `k` sessions.
pub open spec fn conn_lines(c: ModuleCtxView, k: nat) -> Seq<char>
    decreases k,
{
    if k == 0 {
        Seq::empty()
    } else {
        conn_lines(c, (k - 1) as nat) + conn_line(c, k - 1)
    }
}

fn show_conns(ctx: &ModuleCtx) -> (r: String)
    ensures
        r@ == conn_lines(ctx@, ctx@.node.owner.active_connections.len()),
{
    broadcast use model::group_views;

    let list = &ctx.node.owner.active_connections;
    let mut out = blank();
    let mut i: usize = 0;
    while i < list.len()
        invariant
            i <= list@.len(),
            list@ == ctx@.node.owner.active_connections,
            out@ == conn_lines(ctx@, i as nat),
        decreases list@.len() - i,
    {
        let k = list[i];
        let addr = if i < ctx.peers.len() {
            ctx.peers[i].clone()
        } else {
            blank()
        };
        let left = if k.timeout >= ctx.now {
            let mut t = blank();
            put_dec(&mut t, k.timeout - ctx.now);
            assert(t@ =~= text::dec((k.timeout - ctx.now) as nat));
            t
        } else {
            owned("-1")
        };
        let mut row = owned("  conn=");
        put_dec(&mut row, k.id as u64);
        put(&mut row, " peer_device=");
        put_hex(&mut row, &k.device_uuid);
        put(&mut row, " peer_addr=");
        put(&mut row, addr.as_str());
        put(&mut row, " timeout=+");
        put(&mut row, left.as_str());
        put(&mut row, "s\n");
        assert(row@ == conn_line(ctx@, i as int));
        put(&mut out, row.as_str());
        i += 1;
    }
    out
}

/// A round-trip time, or that there is none.
pub open spec fn rtt_text(r: Option<u64>) -> Seq<char> {
    match r {
        Some(ns) => "Some("@ + nanos_shown(ns) + ")"@,
        None => "None"@,
    }
}

/// What is shown of the status of a host.
pub open spec fn status_line() -> spec_fn(SgHostStatusView) -> Seq<char> {
    |s: SgHostStatusView|
        "  device="@ + forms::hex_of(s.device_uuid@) + " host="@ + s.host + " up="@ + (
        if s.status.up {
            "true"@
        } else {
            "false"@
        }) + " rtt="@ + rtt_text(s.status.last_rtt) + "\n"@
}

fn show_status(x: &SgHostStatus) -> (r: String)
    ensures
        r@ == status_line()(x@),
{
    let rtt = match x.status.last_rtt {
        Some(ns) => {
            let mut t = owned("Some(");
            put(&mut t, show_nanos(ns).as_str());
            put(&mut t, ")");
            t
        },
        None => owned("None"),
    };
    let mut s = owned("  device=");
    put_hex(&mut s, &x.device_uuid);
    put(&mut s, " host=");
    put(&mut s, x.host.as_str());
    put(&mut s, " up=");
    if x.status.up {
        put(&mut s, "true");
    } else {
        put(&mut s, "false");
    }
    put(&mut s, " rtt=");
    put(&mut s, rtt.as_str());
    put(&mut s, "\n");
    s
}

fn show_statuses(list: &Vec<SgHostStatus>) -> (r: String)
    ensures
        r@ == text::rows(model::views(list@), status_line()),
{
    broadcast use model::group_views;

    let ghost s = model::views(list@);
    let mut out = blank();
    let mut i: usize = 0;
    proof {
        text::lemma_rows_none(s, status_line());
    }
    while i < list.len()
        invariant
            i <= list@.len(),
            s == model::views(list@),
            out@ == text::rows(s.take(i as int), status_line()),
        decreases list@.len() - i,
    {
        put(&mut out, show_status(&list[i]).as_str());
        proof {
            text::lemma_rows_step(s, status_line(), i as int);
        }
        i += 1;
    }
    out
}

/// A device that a packet can be sent to; `user` is whose it is.
pub open spec fn option_for(user: Seq<char>) -> spec_fn(DeviceView) -> Seq<char> {
    |d: DeviceView|
        markup::DEBUG_OPTION_DEVICE@ + forms::hex_of(d.uuid@) + markup::DEBUG_OPTION_USER@
            + forms::escaped_with(user, true) + markup::DEBUG_OPTION_NAME@ + forms::escaped_with(
            d.alias,
            true,
        ) + markup::DEBUG_OPTION_END@
}

pub open spec fn device_is_not(u: Uuid) -> spec_fn(DeviceView) -> bool {
    |d: DeviceView| d.uuid != u
}

/// The devices of a contact that a packet can be sent to.
pub open spec fn contact_options() -> spec_fn(ContactView) -> Seq<char> {
    |c: ContactView| text::rows(c.user.devices, option_for(c.user.alias))
}

/// The devices that a packet can be sent to: the user's others, then those of
/// the contacts.
pub open spec fn options(n: NodeView) -> Seq<char> {
    text::rows(
        model::keep(n.owner.user.devices, device_is_not(n.device_uuid)),
        option_for(n.owner.user.alias + " (you)"@),
    ) + text::rows(n.owner.contact_users, contact_options())
}

fn show_option(d: &Device, user: &str) -> (r: String)
    ensures
        r@ == option_for(user@)(d@),
{
    let mut s = owned(markup::DEBUG_OPTION_DEVICE);
    put_hex(&mut s, &d.uuid);
    put(&mut s, markup::DEBUG_OPTION_USER);
    put(&mut s, html_escape_quotes(user).as_str());
    put(&mut s, markup::DEBUG_OPTION_NAME);
    put(&mut s, html_escape_quotes(d.alias.as_str()).as_str());
    put(&mut s, markup::DEBUG_OPTION_END);
    s
}

fn show_own_options(node: &Node) -> (r: String)
    ensures
        r@ == text::rows(
            model::keep(node@.owner.user.devices, device_is_not(node.device_uuid)),
            option_for(node@.owner.user.alias + " (you)"@),
        ),
{
    broadcast use model::group_views;

    let devices: &Vec<Device> = &node.owner.user.devices;
    let mut user = node.owner.user.alias.clone();
    put(&mut user, " (you)");
    let ghost s = model::views(devices@);
    let ghost p = device_is_not(node.device_uuid);
    let ghost f = option_for(user@);
    let mut out = blank();
    let mut i: usize = 0;
    assert(s.take(0) =~= Seq::empty());
    while i < devices.len()
        invariant
            i <= devices@.len(),
            s == model::views(devices@),
            p == device_is_not(node.device_uuid),
            f == option_for(user@),
            out@ == text::rows(model::keep(s.take(i as int), p), f),
        decreases devices@.len() - i,
    {
        proof {
            model::lemma_keep_step(s, p, i as int);
            text::lemma_rows_push(model::keep(s.take(i as int), p), f, s[i as int]);
        }
        if !uuid_eq(&devices[i].uuid, &node.device_uuid) {
            put(&mut out, show_option(&devices[i], user.as_str()).as_str());
        }
        i += 1;
    }
    assert(s.take(s.len() as int) =~= s);
    out
}

fn show_contact_options(c: &Contact) -> (r: String)
    ensures
        r@ == contact_options()(c@),
{
    broadcast use model::group_views;

    let devices: &Vec<Device> = &c.user.devices;
    let ghost s = model::views(devices@);
    let ghost f = option_for(c.user.alias@);
    let mut out = blank();
    let mut i: usize = 0;
    proof {
        text::lemma_rows_none(s, f);
    }
    while i < devices.len()
        invariant
            i <= devices@.len(),
            s == model::views(devices@),
            f == option_for(c.user.alias@),
            out@ == text::rows(s.take(i as int), f),
        decreases devices@.len() - i,
    {
        put(&mut out, show_option(&devices[i], c.user.alias.as_str()).as_str());
        proof {
            text::lemma_rows_step(s, f, i as int);
        }
        i += 1;
    }
    out
}

fn show_options(node: &Node) -> (r: String)
    ensures
        r@ == options(node@),
{
    broadcast use model::group_views;

    let mut out = show_own_options(node);
    let list: &Vec<Contact> = &node.owner.contact_users;
    let ghost s = model::views(list@);
    let mut more = blank();
    let mut i: usize = 0;
    proof {
        text::lemma_rows_none(s, contact_options());
    }
    while i < list.len()
        invariant
            i <= list@.len(),
            s == model::views(list@),
            more@ == text::rows(s.take(i as int), contact_options()),
        decreases list@.len() - i,
    {
        put(&mut more, show_contact_options(&list[i]).as_str());
        proof {
            text::lemma_rows_step(s, contact_options(), i as int);
        }
        i += 1;
    }
    put(&mut out, more.as_str());
    out
}

/// The form to send a packet.
pub open spec fn send_form(n: NodeView) -> Seq<char> {
    if options(n).len() == 0 {
        markup::DEBUG_NO_TARGETS@
    } else {
        markup::DEBUG_FORM_OPTIONS@ + options(n) + markup::DEBUG_FORM_END@
    }
}

/// The form to send a packet.
pub fn render_send_form(node: &Node) -> (r: String)
    ensures
        r@ == send_form(node@),
{
    let o = show_options(node);
    if is_empty(&o) {
        owned(markup::DEBUG_NO_TARGETS)
    } else {
        let mut s = owned(markup::DEBUG_FORM_OPTIONS);
        put(&mut s, o.as_str());
        put(&mut s, markup::DEBUG_FORM_END);
        s
    }
}

/// A payload as text, or how long it is.
pub open spec fn payload_text(p: Seq<u8>) -> Seq<char> {
    if vstd::utf8::valid_utf8(p) {
        vstd::utf8::decode_utf8(p)
    } else {
        "<"@ + text::dec(p.len()) + " bytes, non-utf8>"@
    }
}

/// What is shown of a packet that came.
pub open spec fn received_row() -> spec_fn(ReceivedView) -> Seq<char> {
    |r: ReceivedView|
        markup::ROW@ + text::dec(r.at as nat) + markup::DEBUG_RECEIVED_DEVICE@ + forms::hex_of(
            r.from_device@,
        ) + markup::DEBUG_RECEIVED_USER@ + forms::hex_of(r.from_user@)
            + markup::DEBUG_RECEIVED_TEXT@ + forms::escaped_with(payload_text(r.payload), true)
            + markup::DEBUG_RECEIVED_HEX@ + forms::hex_of(r.payload) + markup::DEBUG_RECEIVED_END@
}

/// What is shown of a packet that came.
pub fn render_inbox_row(x: &Received) -> (r: String)
    ensures
        r@ == received_row()(x@),
{
    let shown = match utf8_text(x.payload.as_slice()) {
        Some(t) => owned(t),
        None => {
            let mut t = owned("<");
            put_dec(&mut t, x.payload.len() as u64);
            put(&mut t, " bytes, non-utf8>");
            t
        },
    };
    let mut s = owned(markup::ROW);
    put_dec(&mut s, x.at);
    put(&mut s, markup::DEBUG_RECEIVED_DEVICE);
    put_hex(&mut s, &x.from_device);
    put(&mut s, markup::DEBUG_RECEIVED_USER);
    put_hex(&mut s, &x.from_user);
    put(&mut s, markup::DEBUG_RECEIVED_TEXT);
    put(&mut s, html_escape_quotes(shown.as_str()).as_str());
    put(&mut s, markup::DEBUG_RECEIVED_HEX);
    put(&mut s, hex_bytes(x.payload.as_slice()).as_str());
    put(&mut s, markup::DEBUG_RECEIVED_END);
    s
}

/// The packets that came, the last one first.
pub open spec fn inbox_text(inbox: Seq<ReceivedView>) -> Seq<char> {
    if inbox.len() == 0 {
        markup::DEBUG_INBOX_EMPTY@
    } else {
        markup::DEBUG_INBOX_ROWS@ + text::rows(inbox.reverse(), received_row())
            + markup::TABLE_END@
    }
}

fn show_inbox(inbox: &Vec<Received>) -> (r: String)
    ensures
        r@ == inbox_text(model::views(inbox@)),
{
    broadcast use model::group_views;

    let n: usize = inbox.len();
    if n == 0 {
        return owned(markup::DEBUG_INBOX_EMPTY);
    }
    let ghost s = model::views(inbox@).reverse();
    let mut rows = blank();
    let mut i: usize = 0;
    proof {
        text::lemma_rows_none(s, received_row());
    }
    while i < n
        invariant
            i <= n == inbox@.len(),
            s == model::views(inbox@).reverse(),
            rows@ == text::rows(s.take(i as int), received_row()),
        decreases n - i,
    {
        assert(s[i as int] == inbox@[n - 1 - i]@);
        put(&mut rows, render_inbox_row(&inbox[n - 1 - i]).as_str());
        proof {
            text::lemma_rows_step(s, received_row(), i as int);
        }
        i += 1;
    }
    let mut out = owned(markup::DEBUG_INBOX_ROWS);
    put(&mut out, rows.as_str());
    put(&mut out, markup::TABLE_END);
    out
}

/// A notice above the page.
pub open spec fn notice_text(notice: Seq<char>) -> Seq<char> {
    if notice.len() == 0 {
        Seq::empty()
    } else {
        markup::DEBUG_NOTICE_TEXT@ + forms::escaped_with(notice, true) + markup::DEBUG_NOTICE_END@
    }
}

fn show_notice(notice: &String) -> (r: String)
    ensures
        r@ == notice_text(notice@),
{
    if is_empty(notice) {
        blank()
    } else {
        let mut s = owned(markup::DEBUG_NOTICE_TEXT);
        put(&mut s, html_escape_quotes(notice.as_str()).as_str());
        put(&mut s, markup::DEBUG_NOTICE_END);
        s
    }
}

/// The page of the module.
pub open spec fn index_page(
    c: ModuleCtxView,
    inbox: Seq<ReceivedView>,
    notice: Seq<char>,
) -> Seq<char> {
    let o = c.node.owner;
    markup::DEBUG_INDEX_CSS@ + markup::DEBUG_STYLE@ + markup::DEBUG_INDEX_NOTICE@ + notice_text(
        notice,
    ) + markup::DEBUG_INDEX_OWNER@ + owner_text(c) + markup::DEBUG_INDEX_THIS@ + this_text(c.node)
        + markup::DEBUG_INDEX_OWN_COUNT@ + text::dec(o.user.devices.len()) + markup::DEBUG_LIST@
        + text::rows(o.user.devices, own_line()) + markup::DEBUG_INDEX_CONTACT_COUNT@ + text::dec(
        o.contact_users.len(),
    ) + markup::DEBUG_LIST@ + text::rows(o.contact_users, contact_line(c))
        + markup::DEBUG_INDEX_CONN_COUNT@ + text::dec(o.active_connections.len())
        + markup::DEBUG_LIST@ + conn_lines(c, o.active_connections.len())
        + markup::DEBUG_INDEX_SG_COUNT@ + text::dec(c.node.sg_statuses.len()) + markup::DEBUG_LIST@
        + text::rows(c.node.sg_statuses, status_line()) + markup::DEBUG_INDEX_FORM@ + send_form(
        c.node,
    ) + markup::DEBUG_INDEX_INBOX_COUNT@ + text::dec(inbox.len()) + markup::DEBUG_INDEX_INBOX@
        + inbox_text(inbox) + markup::DEBUG_INDEX_END@
}

/// What answers a request with a page.
pub open spec fn is_page(r: HttpResponse, page: Seq<char>) -> bool {
    &&& r.status == 200
    &&& r.content_type@ == "text/html; charset=utf-8"@
    &&& r.body@ == vstd::utf8::encode_utf8(page)
}

/// Whose device it is.
pub open spec fn user_of(n: NodeView, device: Uuid) -> Option<Uuid> {
    if model::any_where(n.owner.user.devices, find::device_is(device)) {
        Some(n.owner.user.uuid)
    } else {
        match model::first_where(n.owner.contact_users, find::contact_has_device(device)) {
            Some(i) => Some(n.owner.contact_users[i].user.uuid),
            None => None,
        }
    }
}

/// Whose device it is.
pub fn user_for_device(node: &Node, device: &Uuid) -> (r: Option<Uuid>)
    ensures
        r == user_of(node@, *device),
{
    broadcast use model::group_views;

    proof {
        model::lemma_first_where(node@.owner.user.devices, find::device_is(*device));
    }
    if find_device(&node.owner.user.devices, device).is_some() {
        return Some(node.owner.user.uuid);
    }
    match find_contact_of_device(&node.owner.contact_users, device) {
        Some(i) => Some(node.owner.contact_users[i].user.uuid),
        None => None,
    }
}

/// A form value as text; nothing where it is none.
pub open spec fn decoded_text(s: Seq<char>) -> Seq<char> {
    let b = forms::unescaped(vstd::utf8::encode_utf8(s));
    if vstd::utf8::valid_utf8(b) {
        vstd::utf8::decode_utf8(b)
    } else {
        Seq::empty()
    }
}

/// A field of a form as text; nothing where there is none.
pub open spec fn field_text(body: Seq<u8>, name: Seq<char>) -> Seq<char> {
    match forms::field_in(body, name) {
        Some(s) => decoded_text(s),
        None => Seq::empty(),
    }
}

fn read_field(body: &[u8], name: &str) -> (r: String)
    ensures
        r@ == field_text(body@, name@),
{
    match form_field(body, name) {
        Some(s) => {
            let b = url_decode_bytes(s.as_str().as_bytes());
            match utf8_text(b.as_slice()) {
                Some(t) => owned(t),
                None => blank(),
            }
        },
        None => blank(),
    }
}

/// Where the form sends a packet to; `None` where the device is not known.
pub open spec fn send_target(c: ModuleCtxView, body: Seq<u8>) -> Option<PacketTarget> {
    match forms::uuid_in(field_text(body, "device"@)) {
        Some(device) => match user_of(c.node, device) {
            Some(user) => Some(PacketTarget { user, device, module: MODULE_ID }),
            None => None,
        },
        None => None,
    }
}

/// What sending from the form comes to: the packet, and the notice to show.
pub open spec fn sent(c: ModuleCtxView, body: Seq<u8>) -> (Option<EffectView>, Seq<char>) {
    let device = field_text(body, "device"@);
    let payload = vstd::utf8::encode_utf8(field_text(body, "payload"@));
    if forms::uuid_in(device) is None {
        (None, "Bad device id: "@ + device)
    } else {
        match send_target(c, body) {
            None => (None, "Unknown device "@ + device),
            Some(target) => match modules::module_packet(c, target, payload) {
                Some(e) => (
                    Some(e),
                    "Sent "@ + text::dec(payload.len()) + " bytes to device "@ + device,
                ),
                None => (None, "Failed: no route to device "@ + device),
            },
        }
    }
}

/// What a module works with once a packet was sent.
pub open spec fn with_packet(c: ModuleCtxView, e: Option<EffectView>) -> ModuleCtxView {
    match e {
        Some(x) => ModuleCtxView { effects: c.effects.push(x), ..c },
        None => c,
    }
}

fn prefixed(head: &str, tail: &str) -> (r: String)
    ensures
        r@ == head@ + tail@,
{
    let mut s = owned(head);
    put(&mut s, tail);
    s
}

fn send_from_form(body: &[u8], ctx: &mut ModuleCtx) -> (r: String)
    ensures
        r@ == sent(old(ctx)@, body@).1,
        final(ctx)@ == with_packet(old(ctx)@, sent(old(ctx)@, body@).0),
{
    let device_hex = read_field(body, "device");
    let payload = read_field(body, "payload");
    let device = match uuid_from_hex(device_hex.as_str()) {
        Some(u) => u,
        None => {
            return prefixed("Bad device id: ", device_hex.as_str());
        },
    };
    let user = match user_for_device(ctx.node, &device) {
        Some(u) => u,
        None => {
            return prefixed("Unknown device ", device_hex.as_str());
        },
    };
    let target = PacketTarget { user, device, module: MODULE_ID };
    let bytes = payload.as_str().as_bytes();
    match ctx.send(target, bytes) {
        Ok(_) => {
            let mut s = owned("Sent ");
            put_dec(&mut s, bytes.len() as u64);
            put(&mut s, " bytes to device ");
            put(&mut s, device_hex.as_str());
            s
        },
        Err(_) => prefixed("Failed: no route to device ", device_hex.as_str()),
    }
}

impl Debug {
    fn render_index(&self, ctx: &ModuleCtx, notice: &String) -> (r: HttpResponse)
        ensures
            is_page(r, index_page(ctx@, self@, notice@)),
    {
        let node = ctx.node;
        let o = &node.owner;
        let mut s = owned(markup::DEBUG_INDEX_CSS);
        put(&mut s, markup::DEBUG_STYLE);
        put(&mut s, markup::DEBUG_INDEX_NOTICE);
        put(&mut s, show_notice(notice).as_str());
        put(&mut s, markup::DEBUG_INDEX_OWNER);
        put(&mut s, show_owner(ctx).as_str());
        put(&mut s, markup::DEBUG_INDEX_THIS);
        put(&mut s, show_this(node).as_str());
        put(&mut s, markup::DEBUG_INDEX_OWN_COUNT);
        put_dec(&mut s, o.user.devices.len() as u64);
        put(&mut s, markup::DEBUG_LIST);
        put(&mut s, show_own_devices(&o.user.devices).as_str());
        put(&mut s, markup::DEBUG_INDEX_CONTACT_COUNT);
        put_dec(&mut s, o.contact_users.len() as u64);
        put(&mut s, markup::DEBUG_LIST);
        put(&mut s, show_contacts(ctx).as_str());
        put(&mut s, markup::DEBUG_INDEX_CONN_COUNT);
        put_dec(&mut s, o.active_connections.len() as u64);
        put(&mut s, markup::DEBUG_LIST);
        put(&mut s, show_conns(ctx).as_str());
        put(&mut s, markup::DEBUG_INDEX_SG_COUNT);
        put_dec(&mut s, node.sg_statuses.len() as u64);
        put(&mut s, markup::DEBUG_LIST);
        put(&mut s, show_statuses(&node.sg_statuses).as_str());
        put(&mut s, markup::DEBUG_INDEX_FORM);
        put(&mut s, render_send_form(node).as_str());
        put(&mut s, markup::DEBUG_INDEX_INBOX_COUNT);
        put_dec(&mut s, self.inbox.len() as u64);
        put(&mut s, markup::DEBUG_INDEX_INBOX);
        put(&mut s, show_inbox(&self.inbox).as_str());
        put(&mut s, markup::DEBUG_INDEX_END);
        let mut body: Vec<u8> = Vec::new();
        push_bytes(&mut body, s.as_str().as_bytes());
        assert(body@ =~= vstd::utf8::encode_utf8(s@));
        HttpResponse { status: 200, content_type: "text/html; charset=utf-8", body }
    }
}

impl Module for Debug {
    fn id(&self) -> (r: ModuleId)
        ensures
            r == MODULE_ID,
    {
        MODULE_ID
    }

    fn slug(&self) -> (r: &'static str)
        ensures
            r@ == MODULE_SLUG@,
    {
        MODULE_SLUG
    }

    fn alias(&self) -> (r: &'static str)
        ensures
            r@ == MODULE_ALIAS@,
    {
        MODULE_ALIAS
    }

    fn on_receive(&mut self, from: PacketSource, payload: &[u8], ctx: &mut ModuleCtx)
        ensures
            final(self)@ == kept(
                old(self)@,
                ReceivedView {
                    at: old(ctx).now,
                    from_user: from.user,
                    from_device: from.device,
                    payload: payload@,
                },
            ),
            final(ctx)@ == old(ctx)@,
    {
        broadcast use model::group_views;

        let ghost start = model::views(self.inbox@);
        assert(start.skip(0) =~= start);
        let ghost mut gone: int = 0;
        while self.inbox.len() >= INBOX_CAP
            invariant
                0 <= gone <= start.len(),
                start == old(self)@,
                model::views(self.inbox@) == start.skip(gone),
                gone > 0 ==> gone <= start.len() - INBOX_CAP + 1,
            decreases self.inbox@.len(),
        {
            let _ = self.inbox.remove(0);
            proof {
                assert(start.skip(gone).remove(0) =~= start.skip(gone + 1));
                gone = gone + 1;
            }
        }
        let mut bytes: Vec<u8> = Vec::new();
        push_bytes(&mut bytes, payload);
        assert(bytes@ =~= payload@);
        self.inbox.push(
            Received {
                at: ctx.now,
                from_user: from.user,
                from_device: from.device,
                payload: bytes,
            },
        );
    }

    fn on_http(&mut self, req: &HttpRequest, ctx: &mut ModuleCtx) -> (r: Option<HttpResponse>)
        ensures
            final(self)@ == old(self)@,
            if req.method@ == "GET"@ && req.path@ == "/"@ {
                &&& r matches Some(p) && is_page(
                    p,
                    index_page(old(ctx)@, old(self)@, Seq::empty()),
                )
                &&& final(ctx)@ == old(ctx)@
            } else if req.method@ == "POST"@ && req.path@ == "/send"@ {
                let (e, notice) = sent(old(ctx)@, req.body@);
                &&& final(ctx)@ == with_packet(old(ctx)@, e)
                &&& r matches Some(p) && is_page(p, index_page(final(ctx)@, old(self)@, notice))
            } else {
                r is None && final(ctx)@ == old(ctx)@
            },
    {
        if text_eq(req.method.as_str(), "GET") && text_eq(req.path.as_str(), "/") {
            let none = blank();
            return Some(self.render_index(ctx, &none));
        }
        if text_eq(req.method.as_str(), "POST") && text_eq(req.path.as_str(), "/send") {
            let notice = send_from_form(req.body.as_slice(), ctx);
            return Some(self.render_index(ctx, &notice));
        }
        None
    }
}

/// The inbox never grows over its limit, and the newest packet is in it.
pub proof fn law_inbox_is_bounded(inbox: Seq<ReceivedView>, r: ReceivedView)
    ensures
        kept(inbox, r).len() <= INBOX_CAP,
        kept(inbox, r).last() == r,
        inbox.len() < INBOX_CAP ==> kept(inbox, r).drop_last() == inbox,
{
    assert(inbox.push(r).drop_last() =~= inbox);
}

} // verus!
