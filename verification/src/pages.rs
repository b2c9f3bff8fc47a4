//! The admin pages: overview, applications, contacts, devices and invitations.
use crate::admin_apps::UI_ERR_PUBLISH_FAILED;
use crate::app_edge;
use crate::find::find_device;
use crate::forms;
use crate::forms::{hex_bytes, html_escape, query_param};
use crate::layout;
use crate::layout::{host_text, layout, put_escaped, put_hex, show_host};
use crate::markup;
use crate::model;
use crate::text;
use crate::text::{
    blank, chars_of, is_empty, join_texts, owned, put, put_dec, put_dec_wide, string_of, text_eq,
};
use crate::types::{
    uuid_eq, Application, ApplicationView, Contact, ContactView, Device, DeviceView, Invitation,
    Node, NodeView, Uuid,
};
use vstd::prelude::*;

verus! {

/// How many applications run on devices.
pub open spec fn app_total(devices: Seq<DeviceView>) -> nat
    decreases devices.len(),
{
    if devices.len() == 0 {
        0
    } else {
        app_total(devices.drop_last()) + devices.last().applications.len()
    }
}

fn count_apps(devices: &Vec<Device>) -> (r: u128)
    ensures
        r == app_total(model::views(devices@)),
{
    broadcast use model::group_views;

    let ghost s = model::views(devices@);
    let n: usize = devices.len();
    let mut total: u128 = 0;
    let mut i: usize = 0;
    assert(s.take(0) =~= Seq::empty());
    while i < n
        invariant
            i <= n == devices@.len(),
            s == model::views(devices@),
            total == app_total(s.take(i as int)),
            total <= i * (u64::MAX as int),
        decreases n - i,
    {
        proof {
            assert(s.take(i + 1).drop_last() =~= s.take(i as int));
            assert(s.take(i + 1).last() == s[i as int]);
            assert(i * (u64::MAX as int) + u64::MAX as int == (i + 1) * (u64::MAX as int))
                by (nonlinear_arith);
            assert((i + 1) * (u64::MAX as int) <= (u64::MAX as int) * (u64::MAX as int))
                by (nonlinear_arith)
                requires
                    0 <= i + 1 <= u64::MAX,
            ;
        }
        let k: usize = devices[i].applications.len();
        total = total + k as u128;
        i += 1;
    }
    assert(s.take(s.len() as int) =~= s);
    total
}

/// This device, if the user's list has it.
pub open spec fn own_device(n: NodeView) -> Option<DeviceView> {
    match app_edge::own_index(n) {
        Some(i) => Some(n.owner.user.devices[i]),
        None => None,
    }
}

/// The hosts of this device as the overview shows them.
pub open spec fn hosts_line(n: NodeView) -> Seq<char> {
    match own_device(n) {
        Some(d) => if d.hosts.len() == 0 {
            markup::NO_HOSTS@
        } else {
            forms::escaped(text::joined(d.hosts, ", "@))
        },
        None => "unknown"@,
    }
}

/// The name of this device as the overview shows it.
pub open spec fn own_name(n: NodeView) -> Seq<char> {
    match own_device(n) {
        Some(d) => d.alias,
        None => "unknown"@,
    }
}

/// The overview.
pub open spec fn dashboard(n: NodeView) -> Seq<char> {
    layout::page(
        n,
        "Dashboard"@,
        markup::DASHBOARD_CONTACTS@ + text::dec(n.owner.contact_users.len())
            + markup::DASHBOARD_APPS@ + text::dec(app_total(n.owner.user.devices))
            + markup::DASHBOARD_CONNS@ + text::dec(n.owner.active_connections.len())
            + markup::DASHBOARD_OWNER@ + forms::escaped(n.owner.user.alias)
            + markup::DASHBOARD_DEVICE@ + forms::escaped(own_name(n)) + markup::DASHBOARD_HOSTS@
            + hosts_line(n) + markup::DASHBOARD_END@,
    )
}

/// The overview.
pub fn render_dashboard(node: &Node) -> (r: String)
    ensures
        r@ == dashboard(node@),
{
    broadcast use model::group_views;

    let found = find_device(&node.owner.user.devices, &node.device_uuid);
    let name = match found {
        Some(d) => node.owner.user.devices[d].alias.clone(),
        None => owned("unknown"),
    };
    let hosts = match found {
        Some(d) => {
            let h = &node.owner.user.devices[d].hosts;
            if h.len() == 0 {
                owned(markup::NO_HOSTS)
            } else {
                html_escape(join_texts(h, ", ").as_str())
            }
        },
        None => owned("unknown"),
    };
    let mut s = owned(markup::DASHBOARD_CONTACTS);
    put_dec(&mut s, node.owner.contact_users.len() as u64);
    put(&mut s, markup::DASHBOARD_APPS);
    put_dec_wide(&mut s, count_apps(&node.owner.user.devices));
    put(&mut s, markup::DASHBOARD_CONNS);
    put_dec(&mut s, node.owner.active_connections.len() as u64);
    put(&mut s, markup::DASHBOARD_OWNER);
    put_escaped(&mut s, node.owner.user.alias.as_str());
    put(&mut s, markup::DASHBOARD_DEVICE);
    put_escaped(&mut s, name.as_str());
    put(&mut s, markup::DASHBOARD_HOSTS);
    put(&mut s, hosts.as_str());
    put(&mut s, markup::DASHBOARD_END);
    layout(node, "Dashboard", s.as_str())
}

/// The notice for the error that a query names.
pub open spec fn error_notice(query: Seq<char>) -> Seq<char> {
    if forms::param_in(query, "error"@) == Some(UI_ERR_PUBLISH_FAILED@) {
        markup::PUBLISH_FAILED@
    } else {
        Seq::empty()
    }
}

/// The notice for the error that a query names.
pub fn ui_error_banner(query: &str) -> (r: String)
    ensures
        r@ == error_notice(query@),
{
    match query_param(query, "error") {
        Some(code) => if text_eq(code.as_str(), UI_ERR_PUBLISH_FAILED) {
            owned(markup::PUBLISH_FAILED)
        } else {
            blank()
        },
        None => blank(),
    }
}

/// An application that waits for approval.
pub open spec fn pending_row() -> spec_fn(ApplicationView) -> Seq<char> {
    |a: ApplicationView|
        markup::ROW@ + forms::escaped(a.alias) + markup::CELL@ + forms::escaped(a.protocol)
            + markup::CELL@ + forms::escaped(host_text(a.host)) + markup::PENDING_ROW_APPROVE@
            + forms::hex_of(a.id@) + markup::PENDING_ROW_REJECT@ + forms::hex_of(a.id@)
            + markup::PENDING_ROW_END@
}

/// An approved application.
pub open spec fn app_row() -> spec_fn(ApplicationView) -> Seq<char> {
    |a: ApplicationView|
        markup::ROW@ + forms::escaped(a.alias) + markup::CELL@ + forms::escaped(a.protocol)
            + markup::CELL@ + forms::escaped(host_text(a.host)) + markup::APP_ROW_RENAME@
            + forms::hex_of(a.id@) + markup::APP_ROW_NAME@ + forms::escaped(a.alias)
            + markup::APP_ROW_DELETE@ + forms::hex_of(a.id@) + markup::APP_ROW_END@
}

pub open spec fn approved_is(yes: bool) -> spec_fn(ApplicationView) -> bool {
    |a: ApplicationView| a.user_approved == yes
}

/// The applications of this device that are approved, or those that are not.
pub open spec fn shown_apps(n: NodeView, approved: bool) -> Seq<ApplicationView> {
    match own_device(n) {
        Some(d) => model::keep(d.applications, approved_is(approved)),
        None => Seq::empty(),
    }
}

fn show_pending(a: &Application) -> (r: String)
    ensures
        r@ == pending_row()(a@),
{
    let mut s = owned(markup::ROW);
    put_escaped(&mut s, a.alias.as_str());
    put(&mut s, markup::CELL);
    put_escaped(&mut s, a.protocol.as_str());
    put(&mut s, markup::CELL);
    put_escaped(&mut s, show_host(a.host).as_str());
    put(&mut s, markup::PENDING_ROW_APPROVE);
    put_hex(&mut s, &a.id);
    put(&mut s, markup::PENDING_ROW_REJECT);
    put_hex(&mut s, &a.id);
    put(&mut s, markup::PENDING_ROW_END);
    s
}

fn show_approved(a: &Application) -> (r: String)
    ensures
        r@ == app_row()(a@),
{
    let mut s = owned(markup::ROW);
    put_escaped(&mut s, a.alias.as_str());
    put(&mut s, markup::CELL);
    put_escaped(&mut s, a.protocol.as_str());
    put(&mut s, markup::CELL);
    put_escaped(&mut s, show_host(a.host).as_str());
    put(&mut s, markup::APP_ROW_RENAME);
    put_hex(&mut s, &a.id);
    put(&mut s, markup::APP_ROW_NAME);
    put_escaped(&mut s, a.alias.as_str());
    put(&mut s, markup::APP_ROW_DELETE);
    put_hex(&mut s, &a.id);
    put(&mut s, markup::APP_ROW_END);
    s
}

/// How an application is shown on its page.
pub open spec fn row_of(approved: bool) -> spec_fn(ApplicationView) -> Seq<char> {
    if approved {
        app_row()
    } else {
        pending_row()
    }
}

fn show_apps(node: &Node, approved: bool) -> (r: String)
    ensures
        r@ == text::rows(shown_apps(node@, approved), row_of(approved)),
{
    broadcast use model::group_views;

    let d: usize = match find_device(&node.owner.user.devices, &node.device_uuid) {
        Some(d) => d,
        None => {
            return blank();
        },
    };
    let apps: &Vec<Application> = &node.owner.user.devices[d].applications;
    let ghost s = model::views(apps@);
    let ghost p = approved_is(approved);
    let mut out = blank();
    let mut i: usize = 0;
    assert(s.take(0) =~= Seq::empty());
    while i < apps.len()
        invariant
            i <= apps@.len(),
            s == model::views(apps@),
            p == approved_is(approved),
            out@ == text::rows(model::keep(s.take(i as int), p), row_of(approved)),
        decreases apps@.len() - i,
    {
        proof {
            model::lemma_keep_step(s, p, i as int);
            text::lemma_rows_push(
                model::keep(s.take(i as int), p),
                row_of(approved),
                s[i as int],
            );
        }
        if apps[i].user_approved == approved {
            let row = if approved {
                show_approved(&apps[i])
            } else {
                show_pending(&apps[i])
            };
            put(&mut out, row.as_str());
        }
        i += 1;
    }
    assert(s.take(s.len() as int) =~= s);
    out
}

/// The page of the applications that wait for approval.
pub open spec fn pending_apps(n: NodeView, query: Seq<char>) -> Seq<char> {
    let rows = text::rows(shown_apps(n, false), pending_row());
    layout::page(
        n,
        "Pending Apps"@,
        markup::PENDING_BANNER@ + error_notice(query) + if rows.len() == 0 {
            markup::NO_PENDING@
        } else {
            markup::PENDING_TABLE_ROWS@ + rows + markup::TABLE_END@
        },
    )
}

/// The page of the applications that wait for approval.
pub fn render_pending_apps(node: &Node, query: &str) -> (r: String)
    ensures
        r@ == pending_apps(node@, query@),
{
    let rows = show_apps(node, false);
    let table = if is_empty(&rows) {
        owned(markup::NO_PENDING)
    } else {
        let mut t = owned(markup::PENDING_TABLE_ROWS);
        put(&mut t, rows.as_str());
        put(&mut t, markup::TABLE_END);
        t
    };
    let mut s = owned(markup::PENDING_BANNER);
    put(&mut s, ui_error_banner(query).as_str());
    put(&mut s, table.as_str());
    layout(node, "Pending Apps", s.as_str())
}

/// The page of the approved applications.
pub open spec fn applications(n: NodeView, query: Seq<char>) -> Seq<char> {
    let rows = text::rows(shown_apps(n, true), app_row());
    layout::page(
        n,
        "Applications"@,
        markup::APPS_BANNER@ + error_notice(query) + if rows.len() == 0 {
            markup::NO_APPS@
        } else {
            markup::APP_TABLE_ROWS@ + rows + markup::TABLE_END@
        },
    )
}

/// The page of the approved applications.
pub fn render_applications(node: &Node, query: &str) -> (r: String)
    ensures
        r@ == applications(node@, query@),
{
    let rows = show_apps(node, true);
    let table = if is_empty(&rows) {
        owned(markup::NO_APPS)
    } else {
        let mut t = owned(markup::APP_TABLE_ROWS);
        put(&mut t, rows.as_str());
        put(&mut t, markup::TABLE_END);
        t
    };
    let mut s = owned(markup::APPS_BANNER);
    put(&mut s, ui_error_banner(query).as_str());
    put(&mut s, table.as_str());
    layout(node, "Applications", s.as_str())
}

/// A device of a contact, with how many of its applications are approved.
pub open spec fn contact_device_row() -> spec_fn(DeviceView) -> Seq<char> {
    |d: DeviceView|
        {
            let k = model::keep(d.applications, approved_is(true)).len();
            markup::CONTACT_DEVICE_ALIAS@ + forms::escaped(d.alias) + markup::CONTACT_DEVICE_APPS@
                + text::dec(k) + markup::CONTACT_DEVICE_PLURAL@ + (if k == 1 {
                Seq::empty()
            } else {
                "s"@
            }) + markup::CONTACT_DEVICE_END@
        }
}

fn count_approved(apps: &Vec<Application>) -> (r: usize)
    ensures
        r == model::keep(model::views(apps@), approved_is(true)).len(),
{
    broadcast use model::group_views;

    let ghost s = model::views(apps@);
    let n: usize = apps.len();
    let mut k: usize = 0;
    let mut i: usize = 0;
    assert(s.take(0) =~= Seq::empty());
    while i < n
        invariant
            i <= n == apps@.len(),
            s == model::views(apps@),
            k == model::keep(s.take(i as int), approved_is(true)).len(),
            k <= i,
        decreases n - i,
    {
        proof {
            model::lemma_keep_step(s, approved_is(true), i as int);
        }
        if apps[i].user_approved {
            k += 1;
        }
        i += 1;
    }
    assert(s.take(s.len() as int) =~= s);
    k
}

fn show_contact_devices(devices: &Vec<Device>) -> (r: String)
    ensures
        r@ == text::rows(model::views(devices@), contact_device_row()),
{
    broadcast use model::group_views;

    let ghost s = model::views(devices@);
    let mut out = blank();
    let mut i: usize = 0;
    proof {
        text::lemma_rows_none(s, contact_device_row());
    }
    while i < devices.len()
        invariant
            i <= devices@.len(),
            s == model::views(devices@),
            out@ == text::rows(s.take(i as int), contact_device_row()),
        decreases devices@.len() - i,
    {
        let k: usize = count_approved(&devices[i].applications);
        let mut row = owned(markup::CONTACT_DEVICE_ALIAS);
        put_escaped(&mut row, devices[i].alias.as_str());
        put(&mut row, markup::CONTACT_DEVICE_APPS);
        put_dec(&mut row, k as u64);
        put(&mut row, markup::CONTACT_DEVICE_PLURAL);
        let plural = if k == 1 {
            blank()
        } else {
            owned("s")
        };
        put(&mut row, plural.as_str());
        put(&mut row, markup::CONTACT_DEVICE_END);
        put(&mut out, row.as_str());
        proof {
            assert(row@ == contact_device_row()(s[i as int]));
            text::lemma_rows_step(s, contact_device_row(), i as int);
        }
        i += 1;
    }
    out
}

/// A contact with their devices.
pub open spec fn contact_row() -> spec_fn(ContactView) -> Seq<char> {
    |c: ContactView|
        markup::ROW@ + forms::escaped(c.user.alias) + markup::CELL@ + (if c.user.devices.len()
            == 0 {
            markup::CONTACT_NO_DEVICES@
        } else {
            markup::CONTACT_DEVICES_ROWS@ + text::rows(c.user.devices, contact_device_row())
                + markup::CONTACT_DEVICES_END@
        }) + markup::ROW_END@
}

fn show_contact(c: &Contact) -> (r: String)
    ensures
        r@ == contact_row()(c@),
{
    let devices = if c.user.devices.len() == 0 {
        owned(markup::CONTACT_NO_DEVICES)
    } else {
        let mut t = owned(markup::CONTACT_DEVICES_ROWS);
        put(&mut t, show_contact_devices(&c.user.devices).as_str());
        put(&mut t, markup::CONTACT_DEVICES_END);
        t
    };
    let mut s = owned(markup::ROW);
    put_escaped(&mut s, c.user.alias.as_str());
    put(&mut s, markup::CELL);
    put(&mut s, devices.as_str());
    put(&mut s, markup::ROW_END);
    s
}

/// The page of the contacts.
pub open spec fn contacts(n: NodeView) -> Seq<char> {
    let rows = text::rows(n.owner.contact_users, contact_row());
    layout::page(
        n,
        "Contacts"@,
        markup::CONTACTS_TABLE@ + (if rows.len() == 0 {
            markup::NO_CONTACTS@
        } else {
            markup::CONTACT_TABLE_ROWS@ + rows + markup::TABLE_END@
        }) + markup::CONTACTS_END@,
    )
}

/// The page of the contacts.
pub fn render_contacts(node: &Node) -> (r: String)
    ensures
        r@ == contacts(node@),
{
    broadcast use model::group_views;

    let list: &Vec<Contact> = &node.owner.contact_users;
    let ghost s = model::views(list@);
    let mut rows = blank();
    let mut i: usize = 0;
    proof {
        text::lemma_rows_none(s, contact_row());
    }
    while i < list.len()
        invariant
            i <= list@.len(),
            s == model::views(list@),
            rows@ == text::rows(s.take(i as int), contact_row()),
        decreases list@.len() - i,
    {
        put(&mut rows, show_contact(&list[i]).as_str());
        proof {
            text::lemma_rows_step(s, contact_row(), i as int);
        }
        i += 1;
    }
    let table = if is_empty(&rows) {
        owned(markup::NO_CONTACTS)
    } else {
        let mut t = owned(markup::CONTACT_TABLE_ROWS);
        put(&mut t, rows.as_str());
        put(&mut t, markup::TABLE_END);
        t
    };
    let mut out = owned(markup::CONTACTS_TABLE);
    put(&mut out, table.as_str());
    put(&mut out, markup::CONTACTS_END);
    layout(node, "Contacts", out.as_str())
}

/// A device of the user; `own` is this one.
pub open spec fn device_row(own: Uuid) -> spec_fn(DeviceView) -> Seq<char> {
    |d: DeviceView|
        markup::ROW@ + forms::escaped(d.alias) + (if d.uuid == own {
            markup::THIS_DEVICE@
        } else {
            Seq::empty()
        }) + markup::CELL@ + forms::escaped(text::joined(d.hosts, ", "@)) + markup::CELL@
            + text::dec(d.applications.len()) + markup::ROW_END@
}

fn show_device(d: &Device, own: &Uuid) -> (r: String)
    ensures
        r@ == device_row(*own)(d@),
{
    let mark = if uuid_eq(&d.uuid, own) {
        owned(markup::THIS_DEVICE)
    } else {
        blank()
    };
    let mut s = owned(markup::ROW);
    put_escaped(&mut s, d.alias.as_str());
    put(&mut s, mark.as_str());
    put(&mut s, markup::CELL);
    put_escaped(&mut s, join_texts(&d.hosts, ", ").as_str());
    put(&mut s, markup::CELL);
    put_dec(&mut s, d.applications.len() as u64);
    put(&mut s, markup::ROW_END);
    s
}

/// The page of the user's devices.
pub open spec fn devices(n: NodeView) -> Seq<char> {
    let rows = text::rows(n.owner.user.devices, device_row(n.device_uuid));
    layout::page(
        n,
        "Devices"@,
        if rows.len() == 0 {
            markup::DEVICES_HEADING@ + markup::DEVICES_NONE_END@
        } else {
            markup::DEVICES_HEADING@ + markup::DEVICES_ROWS@ + rows + markup::TABLE_END@
        },
    )
}

/// The page of the user's devices.
pub fn render_devices(node: &Node) -> (r: String)
    ensures
        r@ == devices(node@),
{
    broadcast use model::group_views;

    let list: &Vec<Device> = &node.owner.user.devices;
    let ghost s = model::views(list@);
    let ghost f = device_row(node.device_uuid);
    let mut rows = blank();
    let mut i: usize = 0;
    proof {
        text::lemma_rows_none(s, f);
    }
    while i < list.len()
        invariant
            i <= list@.len(),
            s == model::views(list@),
            f == device_row(node.device_uuid),
            rows@ == text::rows(s.take(i as int), f),
        decreases list@.len() - i,
    {
        put(&mut rows, show_device(&list[i], &node.device_uuid).as_str());
        proof {
            text::lemma_rows_step(s, f, i as int);
        }
        i += 1;
    }
    let mut out = owned(markup::DEVICES_HEADING);
    if is_empty(&rows) {
        put(&mut out, markup::DEVICES_NONE_END);
    } else {
        put(&mut out, markup::DEVICES_ROWS);
        put(&mut out, rows.as_str());
        put(&mut out, markup::TABLE_END);
    }
    layout(node, "Devices", out.as_str())
}

/// A code to show once.
#[derive(Debug, PartialEq, Eq)]
pub enum Flash {
    DeviceCode(String),
    ContactCode(String),
}

#[verifier::ext_equal]
pub enum FlashView {
    DeviceCode(Seq<char>),
    ContactCode(Seq<char>),
}

impl View for Flash {
    type V = FlashView;

    open spec fn view(&self) -> FlashView {
        match *self {
            Flash::DeviceCode(c) => FlashView::DeviceCode(c@),
            Flash::ContactCode(c) => FlashView::ContactCode(c@),
        }
    }
}

pub open spec fn flash_view(f: Option<Flash>) -> Option<FlashView> {
    match f {
        Some(x) => Some(x@),
        None => None,
    }
}

/// The code to show.
pub open spec fn flash_text(f: Option<FlashView>) -> Seq<char> {
    match f {
        Some(FlashView::DeviceCode(c)) => markup::DEVICE_CODE_TEXT@ + forms::escaped(c)
            + markup::DEVICE_CODE_END@,
        Some(FlashView::ContactCode(c)) => markup::CONTACT_CODE_TEXT@ + forms::escaped(c)
            + markup::CONTACT_CODE_END@,
        None => Seq::empty(),
    }
}

fn show_flash(f: Option<Flash>) -> (r: String)
    ensures
        r@ == flash_text(flash_view(f)),
{
    match f {
        Some(Flash::DeviceCode(c)) => {
            let mut s = owned(markup::DEVICE_CODE_TEXT);
            put_escaped(&mut s, c.as_str());
            put(&mut s, markup::DEVICE_CODE_END);
            s
        },
        Some(Flash::ContactCode(c)) => {
            let mut s = owned(markup::CONTACT_CODE_TEXT);
            put_escaped(&mut s, c.as_str());
            put(&mut s, markup::CONTACT_CODE_END);
            s
        },
        None => blank(),
    }
}

/// An invitation, by the beginning of its identifier.
pub open spec fn invitation_row() -> spec_fn(Invitation) -> Seq<char> {
    |v: Invitation|
        markup::INVITATION_ROW_ID@ + forms::hex_of(v.id@).take(16) + markup::ROW_END@
}

/// The invitations that wait; `none` where there is none.
pub open spec fn invitation_table(list: Seq<Invitation>, none: Seq<char>) -> Seq<char> {
    let rows = text::rows(list, invitation_row());
    if rows.len() == 0 {
        none
    } else {
        markup::INVITATION_TABLE_ROWS@ + rows + markup::TABLE_END@
    }
}

fn show_invitations(list: &Vec<Invitation>, none: &str) -> (r: String)
    ensures
        r@ == invitation_table(list@, none@),
{
    let mut rows = blank();
    let mut i: usize = 0;
    proof {
        text::lemma_rows_none(list@, invitation_row());
    }
    while i < list.len()
        invariant
            i <= list@.len(),
            rows@ == text::rows(list@.take(i as int), invitation_row()),
        decreases list@.len() - i,
    {
        let id = chars_of(hex_bytes(list[i].id.as_slice()).as_str());
        proof {
            forms::lemma_hex_len(list@[i as int].id@);
        }
        let head = string_of(&id, 0, 16);
        assert(head@ =~= forms::hex_of(list@[i as int].id@).take(16));
        let mut row = owned(markup::INVITATION_ROW_ID);
        put(&mut row, head.as_str());
        put(&mut row, markup::ROW_END);
        put(&mut rows, row.as_str());
        proof {
            assert(row@ == invitation_row()(list@[i as int]));
            text::lemma_rows_step(list@, invitation_row(), i as int);
        }
        i += 1;
    }
    if is_empty(&rows) {
        owned(none)
    } else {
        let mut t = owned(markup::INVITATION_TABLE_ROWS);
        put(&mut t, rows.as_str());
        put(&mut t, markup::TABLE_END);
        t
    }
}

/// The notice where no invitation could be made.
pub open spec fn invitation_notice(query: Seq<char>) -> Seq<char> {
    if forms::param_in(query, "error"@) == Some("no_host"@) {
        markup::NO_HOST_ERROR@
    } else {
        Seq::empty()
    }
}

fn show_invitation_notice(query: &str) -> (r: String)
    ensures
        r@ == invitation_notice(query@),
{
    match query_param(query, "error") {
        Some(code) => if text_eq(code.as_str(), "no_host") {
            owned(markup::NO_HOST_ERROR)
        } else {
            blank()
        },
        None => blank(),
    }
}

/// The page of the invitations. `flash` is a code that was just made.
pub open spec fn invitations(n: NodeView, query: Seq<char>, flash: Option<FlashView>) -> Seq<char> {
    layout::page(
        n,
        "Invitations"@,
        markup::INVITATIONS_ERROR@ + invitation_notice(query) + flash_text(flash)
            + markup::INVITATIONS_DEVICES@ + invitation_table(
            n.owner.device_invitations,
            markup::NO_DEVICE_INVITATIONS@,
        ) + markup::INVITATIONS_CONTACTS@ + invitation_table(
            n.owner.contact_invitations,
            markup::NO_CONTACT_INVITATIONS@,
        ) + markup::INVITATIONS_END@,
    )
}

/// The page of the invitations.
pub fn render_invitations(node: &Node, query: &str, flash: Option<Flash>) -> (r: String)
    ensures
        r@ == invitations(node@, query@, flash_view(flash)),
{
    let mut s = owned(markup::INVITATIONS_ERROR);
    put(&mut s, show_invitation_notice(query).as_str());
    put(&mut s, show_flash(flash).as_str());
    put(&mut s, markup::INVITATIONS_DEVICES);
    put(
        &mut s,
        show_invitations(&node.owner.device_invitations, markup::NO_DEVICE_INVITATIONS).as_str(),
    );
    put(&mut s, markup::INVITATIONS_CONTACTS);
    put(
        &mut s,
        show_invitations(&node.owner.contact_invitations, markup::NO_CONTACT_INVITATIONS).as_str(),
    );
    put(&mut s, markup::INVITATIONS_END);
    layout(node, "Invitations", s.as_str())
}

} // verus!
