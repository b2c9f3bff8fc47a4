//! What the owner's forms come to, told by what the owner asked for and by the
//! state before and after.
use crate::admin_apps;
use crate::change;
use crate::change::ChangeView;
use crate::debug;
use crate::debug::ReceivedView;
use crate::dispatch::Packet;
use crate::effects::EffectView;
use crate::find;
use crate::following;
use crate::forms;
use crate::http;
use crate::http::ReplyView;
use crate::invite;
use crate::invite::InvitationCodeView;
use crate::join_wire;
use crate::layout;
use crate::markup;
use crate::model;
use crate::outcomes;
use crate::pages;
use crate::pages::FlashView;
use crate::passage;
use crate::reading;
use crate::routing;
use crate::routing::{ResolvedHostView, WriterTarget};
use crate::setup;
use crate::sync;
use crate::tending;
use crate::text;
use crate::types::{
    ActiveConnection, ApplicationView, DeviceGrade, HostAddr, KeyPair, NodeView, PeerAddr, SecretKey,
    Uuid,
};
use crate::ui;
use crate::ui::{Route, SessionStepView, UiRequestView, UiWith};
use crate::upkeep;
use crate::welcome;
use crate::wire;
use crate::wire::{BOOTSTRAP_REQUEST_OP, CONTACT_REQUEST_OP};
use vstd::prelude::*;
use vstd::string::*;

verus! {

/// The owner of a node that is set up sends a form from one of its pages.
pub open spec fn owner_posts(n: NodeView, q: UiRequestView, w: UiWith) -> bool {
    &&& setup::initialized(n)
    &&& n.admin_password_hash is Some
    &&& w.authed
    &&& w.csrf_ok
    &&& q.method == "POST"@
}

/// The paths of the forms lead to what they are for.
proof fn lemma_form_paths(n: NodeView, q: UiRequestView, w: UiWith)
    requires
        owner_posts(n, q, w),
    ensures
        q.path == "/pending-apps/approve"@ ==> ui::answered(n, q, w) == ui::answered_on(
            n,
            Route::Approve,
            q,
            w,
        ),
        q.path == "/pending-apps/reject"@ ==> ui::answered(n, q, w) == ui::answered_on(
            n,
            Route::Reject,
            q,
            w,
        ),
        q.path == "/applications/delete"@ ==> ui::answered(n, q, w) == ui::answered_on(
            n,
            Route::Delete,
            q,
            w,
        ),
        q.path == "/applications/rename"@ ==> ui::answered(n, q, w) == ui::answered_on(
            n,
            Route::Rename,
            q,
            w,
        ),
        q.path == "/devices/sync"@ ==> ui::answered(n, q, w) == ui::answered_on(
            n,
            Route::SyncDevices,
            q,
            w,
        ),
        q.path == "/invitations/device"@ ==> ui::answered(n, q, w) == ui::answered_on(
            n,
            Route::InviteDevice,
            q,
            w,
        ),
        q.path == "/invitations/contact"@ ==> ui::answered(n, q, w) == ui::answered_on(
            n,
            Route::InviteContact,
            q,
            w,
        ),
        q.path == "/logout"@ ==> ui::answered(n, q, w) == ui::answered_on(n, Route::Logout, q, w),
{
    reveal_strlit("GET");
    reveal_strlit("POST");
    reveal_strlit("/setup");
    reveal_strlit("/setup/create");
    reveal_strlit("/setup/join");
    reveal_strlit("/login");
    reveal_strlit("/set-password");
    reveal_strlit("/logout");
    reveal_strlit("/pending-apps/approve");
    reveal_strlit("/pending-apps/reject");
    reveal_strlit("/applications/delete");
    reveal_strlit("/applications/rename");
    reveal_strlit("/devices/sync");
    reveal_strlit("/invitations/device");
    reveal_strlit("/invitations/contact");
    let p = q.path;
    assert("POST"@.len() == 4 && "GET"@.len() == 3);
    if p == "/logout"@ {
        assert(p.len() == 7);
    }
    if p == "/pending-apps/approve"@ {
        assert(p.len() == 21);
    }
    if p == "/pending-apps/reject"@ {
        assert(p.len() == 20);
    }
    if p == "/applications/delete"@ {
        assert(p.len() == 20 && p[1] == 'a');
        assert("/pending-apps/reject"@[1] == 'p');
    }
    if p == "/applications/rename"@ {
        assert(p.len() == 20 && p[1] == 'a' && p[14] == 'r');
        assert("/pending-apps/reject"@[1] == 'p');
        assert("/applications/delete"@[14] == 'd');
    }
    if p == "/devices/sync"@ {
        assert(p.len() == 13 && p[1] == 'd');
        assert("/setup/create"@[1] == 's');
        assert("/set-password"@[1] == 's');
    }
    if p == "/invitations/device"@ {
        assert(p.len() == 19);
    }
    if p == "/invitations/contact"@ {
        assert(p.len() == 20 && p[1] == 'i');
        assert("/pending-apps/reject"@[1] == 'p');
        assert("/applications/delete"@[1] == 'a');
        assert("/applications/rename"@[1] == 'a');
    }
}

/// The form that approves an application approves it, and nothing else.
pub proof fn law_approve_form(
    n: NodeView,
    q: UiRequestView,
    w: UiWith,
    i: int,
    id: Uuid,
    k: int,
    c: ActiveConnection,
)
    requires
        owner_posts(n, q, w),
        q.path == "/pending-apps/approve"@,
        admin_apps::named_app(q.body) == Some(id),
        tending::own_app(n, i, id, k),
        n.owner.public_version.room(2),
        w.target matches WriterTarget::Remote(u) ==> passage::session_to(n, u, c),
        w.target != WriterTarget::Unreachable,
        change::plain_change(
            ChangeView::AddApplication {
                device_uuid: n.device_uuid,
                app_id: id,
                app_alias: n.owner.user.devices[i].applications[k].alias,
            },
        ),
    ensures
        ({
            let r = ui::answered(n, q, w);
            let before = n.owner.user.devices[i].applications;
            let after = r.node.owner.user.devices[i].applications;
            &&& after.len() == before.len()
            &&& after[k].user_approved
            &&& after[k].id == id
            &&& forall|j: int|
                0 <= j < before.len() && j != k ==> #[trigger] after[j] == before[j]
            &&& r.session is Keep
        }),
{
    lemma_form_paths(n, q, w);
    tending::law_approved_is_approved(n, i, id, k, w.target, w.now, w.retention, c);
}

/// The forms that reject and delete an application take it out, and nothing else.
pub proof fn law_reject_form(
    n: NodeView,
    q: UiRequestView,
    w: UiWith,
    i: int,
    id: Uuid,
    k: int,
    c: ActiveConnection,
)
    requires
        owner_posts(n, q, w),
        q.path == "/pending-apps/reject"@ || q.path == "/applications/delete"@,
        admin_apps::named_app(q.body) == Some(id),
        tending::own_app(n, i, id, k),
        n.owner.public_version.room(2),
        w.target matches WriterTarget::Remote(u) ==> passage::session_to(n, u, c),
        w.target != WriterTarget::Unreachable,
        change::plain_change(
            ChangeView::RemoveApplication { device_uuid: n.device_uuid, app_id: id },
        ),
    ensures
        ({
            let r = ui::answered(n, q, w);
            let before = n.owner.user.devices[i].applications;
            let after = r.node.owner.user.devices[i].applications;
            &&& outcomes::no_app(after, id)
            &&& after == before.remove(k)
            &&& r.session is Keep
        }),
{
    lemma_form_paths(n, q, w);
    tending::law_rejected_is_gone(n, i, id, k, w.target, w.now, w.retention, c);
}

/// The form that renames an application gives it the name.
pub proof fn law_rename_form(
    n: NodeView,
    q: UiRequestView,
    w: UiWith,
    i: int,
    id: Uuid,
    k: int,
    alias: Seq<char>,
    c: ActiveConnection,
)
    requires
        owner_posts(n, q, w),
        q.path == "/applications/rename"@,
        admin_apps::named_app(q.body) == Some(id),
        admin_apps::named_alias(q.body) == Some(alias),
        tending::app_on(n, id, i, k),
        n.owner.user.devices[i].applications[k].alias != alias,
        n.owner.public_version.room(2),
        w.target matches WriterTarget::Remote(u) ==> passage::session_to(n, u, c),
        w.target != WriterTarget::Unreachable,
        change::plain_change(
            ChangeView::UpdateApplicationAlias {
                device_uuid: n.owner.user.devices[i].uuid,
                app_id: id,
                new_alias: alias,
            },
        ),
    ensures
        ({
            let r = ui::answered(n, q, w);
            let before = n.owner.user.devices[i].applications;
            let after = r.node.owner.user.devices[i].applications;
            &&& after.len() == before.len()
            &&& after[k].alias == alias
            &&& after[k].id == id
            &&& after[k].user_approved == before[k].user_approved
            &&& forall|j: int|
                0 <= j < before.len() && j != k ==> #[trigger] after[j] == before[j]
        }),
{
    lemma_form_paths(n, q, w);
    tending::law_renamed_has_the_name(n, id, i, k, alias, w.target, w.now, w.retention, c);
}

/// A code that was minted is shown as what was asked for: as that of a device
/// where one was invited, and as that of a contact where one was.
pub proof fn law_invite_forms(n: NodeView, q: UiRequestView, w: UiWith, code: Seq<char>)
    requires
        owner_posts(n, q, w),
        w.minted matches Some(s) && s@ == code,
    ensures
        q.path == "/invitations/device"@ ==> ui::answered(n, q, w).session == SessionStepView::Show(
            FlashView::DeviceCode(code),
        ),
        q.path == "/invitations/contact"@ ==> ui::answered(n, q, w).session
            == SessionStepView::Show(FlashView::ContactCode(code)),
        q.path == "/invitations/device"@ || q.path == "/invitations/contact"@ ==> ui::answered(
            n,
            q,
            w,
        ).node == n,
{
    lemma_form_paths(n, q, w);
}

/// Asking for the devices to be synchronised pulls and changes nothing yet, and
/// leaving ends the session.
pub proof fn law_sync_and_leave(n: NodeView, q: UiRequestView, w: UiWith)
    requires
        owner_posts(n, q, w),
    ensures
        q.path == "/devices/sync"@ ==> ui::answered(n, q, w).effects == sync::pulls(n)
            && ui::answered(n, q, w).node == n,
        q.path == "/logout"@ ==> ui::answered(n, q, w).session is Close && ui::answered(
            n,
            q,
            w,
        ).node == n,
{
    lemma_form_paths(n, q, w);
}

/// Whoever has no session gets one exactly by the right password.
pub proof fn law_login(n: NodeView, q: UiRequestView, w: UiWith)
    requires
        setup::initialized(n),
        n.admin_password_hash is Some,
        q.method == "POST"@,
        q.path == "/login"@,
        w.csrf_ok,
    ensures
        ui::answered(n, q, w).session is Open <==> w.password_ok,
        ui::answered(n, q, w).node == n,
{
    reveal_strlit("GET");
    reveal_strlit("POST");
    reveal_strlit("/setup");
    reveal_strlit("/setup/create");
    reveal_strlit("/setup/join");
    reveal_strlit("/login");
    reveal_strlit("/set-password");
    let p = q.path;
    assert(p.len() == 6 && p[1] == 'l');
    assert("/setup"@[1] == 's');
    assert("POST"@.len() == 4 && "GET"@.len() == 3);
}

/// A setup form that is in order sets the user up: with the two names without the
/// blanks around them, with the new keys and the password, and with this device
/// as the form says. One whose password is too short, is not the one that repeats
/// it, or that lacks a name changes nothing.
pub proof fn law_setup_form(
    n: NodeView,
    i: int,
    body: Seq<u8>,
    keys: KeyPair,
    hosts: Seq<Seq<char>>,
    hash: Seq<char>,
)
    requires
        outcomes::device_at(n.owner, n.device_uuid, i),
    ensures
        ({
            let v = setup::setup_done(n, body, keys, hosts, hash);
            let password = forms::field_or_blank(body, "password"@);
            let again = forms::field_or_blank(body, "password_confirm"@);
            let alias = text::trimmed(forms::field_or_blank(body, "alias"@));
            let device_alias = text::trimmed(forms::field_or_blank(body, "device_alias"@));
            let grade = setup::grade_in(body, "sg"@);
            let m = v.node;
            let d = m.owner.user.devices[i];
            let before = n.owner.user.devices[i];
            let good = password.len() >= 8 && password == again && alias.len() > 0
                && device_alias.len() > 0;
            &&& v.fault is None <==> good
            &&& !good ==> m == n && v.effects.len() == 0
            &&& good ==> {
                &&& m.owner.user.alias == alias
                &&& m.owner.key_pair == keys
                &&& m.admin_password_hash == Some(hash)
                &&& m.device_uuid == n.device_uuid
                &&& m.owner.user.devices.len() == n.owner.user.devices.len()
                &&& forall|k: int|
                    0 <= k < n.owner.user.devices.len() && k != i
                        ==> #[trigger] m.owner.user.devices[k] == n.owner.user.devices[k]
                &&& d.uuid == n.device_uuid
                &&& d.alias == device_alias
                &&& d.grade == grade
                &&& d.applications == before.applications
                &&& grade == DeviceGrade::DG ==> d.sg_rank is None && d.hosts == before.hosts
                &&& grade == DeviceGrade::SG ==> (d.sg_rank matches Some(r) && r >= 1)
                &&& grade == DeviceGrade::SG && hosts.len() > 0 ==> d.hosts == hosts
                &&& v.effects.len() > 0 && v.effects.last() == EffectView::Save
            }
        }),
{
    outcomes::lemma_device_at(n.owner, n.device_uuid, i);
}

/// A first password is set by a form that is in order, where there is none yet.
pub proof fn law_password_form(n: NodeView, body: Seq<u8>, hash: Seq<char>)
    ensures
        ({
            let v = setup::password_set(n, body, hash);
            let password = forms::field_or_blank(body, "password"@);
            let again = forms::field_or_blank(body, "password_confirm"@);
            let good = n.admin_password_hash is None && password.len() >= 8 && password == again;
            &&& v.fault is None <==> good
            &&& good ==> v.node.admin_password_hash == Some(hash) && v.node.owner == n.owner
            &&& !good ==> v.node == n
        }),
{
}

/// A text stands somewhere in another.
pub open spec fn stands_in(all: Seq<char>, piece: Seq<char>) -> bool {
    exists|k: int|
        0 <= k && k + piece.len() <= all.len() && #[trigger] all.subrange(k, k + piece.len())
            == piece
}

proof fn lemma_stands(a: Seq<char>, piece: Seq<char>, b: Seq<char>)
    ensures
        stands_in(a + piece + b, piece),
{
    let all = a + piece + b;
    let k = a.len() as int;
    assert(all.subrange(k, k + piece.len()) =~= piece);
}

proof fn lemma_stands_deeper(a: Seq<char>, all: Seq<char>, b: Seq<char>, piece: Seq<char>)
    requires
        stands_in(all, piece),
    ensures
        stands_in(a + all + b, piece),
{
    let k = choose|k: int|
        0 <= k && k + piece.len() <= all.len() && #[trigger] all.subrange(k, k + piece.len())
            == piece;
    let more = a + all + b;
    let l = a.len() + k;
    assert(more.subrange(l, l + piece.len()) =~= all.subrange(k, k + piece.len()));
}

proof fn lemma_row_stands<T>(s: Seq<T>, f: spec_fn(T) -> Seq<char>, i: int)
    requires
        0 <= i < s.len(),
    ensures
        stands_in(text::rows(s, f), f(s[i])),
        text::rows(s, f).len() >= f(s[i]).len(),
    decreases s.len(),
{
    let t = s.drop_last();
    let none = Seq::<char>::empty();
    if i == s.len() - 1 {
        lemma_stands(text::rows(t, f), f(s[i]), none);
        assert(text::rows(t, f) + f(s[i]) + none =~= text::rows(s, f));
    } else {
        lemma_row_stands(t, f, i);
        lemma_stands_deeper(none, text::rows(t, f), f(s.last()), f(s[i]));
        assert(none + text::rows(t, f) + f(s.last()) =~= text::rows(s, f));
    }
}

/// The applications that a list shows are those of this device that are approved,
/// or those that are not.
pub proof fn law_lists_tell_apart(n: NodeView, i: int, a: ApplicationView, approved: bool)
    requires
        outcomes::device_at(n.owner, n.device_uuid, i),
    ensures
        pages::shown_apps(n, approved).contains(a)
            <==> n.owner.user.devices[i].applications.contains(a) && a.user_approved == approved,
{
    outcomes::lemma_device_at(n.owner, n.device_uuid, i);
    model::lemma_keep_contains(
        n.owner.user.devices[i].applications,
        pages::approved_is(approved),
        a,
    );
}

/// Every application that waits for approval stands on the page of those, by its
/// name, and every approved one on the page of the applications.
pub proof fn law_every_application_is_shown(
    n: NodeView,
    i: int,
    a: ApplicationView,
    query: Seq<char>,
)
    requires
        outcomes::device_at(n.owner, n.device_uuid, i),
        n.owner.user.devices[i].applications.contains(a),
    ensures
        !a.user_approved ==> stands_in(pages::pending_apps(n, query), forms::escaped(a.alias)),
        a.user_approved ==> stands_in(pages::applications(n, query), forms::escaped(a.alias)),
{
    let yes = a.user_approved;
    law_lists_tell_apart(n, i, a, yes);
    let s = pages::shown_apps(n, yes);
    let k = choose|k: int| 0 <= k < s.len() && s[k] == a;
    let name = forms::escaped(a.alias);
    let f = if yes {
        pages::app_row()
    } else {
        pages::pending_row()
    };
    let row = f(a);
    let none = Seq::<char>::empty();
    reveal_strlit("<tr><td>");
    let head = markup::ROW@;
    let tail = row.skip((head.len() + name.len()) as int);
    assert(row =~= head + name + tail);
    lemma_stands(head, name, tail);
    let rows = text::rows(s, f);
    lemma_row_stands(s, f, k);
    lemma_stands_trans(rows, row, name);
    assert(head.len() == 8);
    assert(row.len() >= head.len());
    let page = if yes {
        pages::applications(n, query)
    } else {
        pages::pending_apps(n, query)
    };
    let before = markup::LAYOUT_TITLE@ + (if yes {
        "Applications"@
    } else {
        "Pending Apps"@
    }) + markup::LAYOUT_CSS@ + markup::CSS@ + markup::LAYOUT_BANNER@ + layout::banner(n) + ((if yes {
        markup::APPS_BANNER@
    } else {
        markup::PENDING_BANNER@
    }) + pages::error_notice(query) + (if yes {
        markup::APP_TABLE_ROWS@
    } else {
        markup::PENDING_TABLE_ROWS@
    }));
    let behind = markup::TABLE_END@ + markup::LAYOUT_END@;
    assert(page =~= before + rows + behind);
    lemma_stands_deeper(before, rows, behind, name);
}

proof fn lemma_stands_trans(all: Seq<char>, mid: Seq<char>, piece: Seq<char>)
    requires
        stands_in(all, mid),
        stands_in(mid, piece),
    ensures
        stands_in(all, piece),
{
    let k = choose|k: int|
        0 <= k && k + mid.len() <= all.len() && #[trigger] all.subrange(k, k + mid.len()) == mid;
    let l = choose|l: int|
        0 <= l && l + piece.len() <= mid.len() && #[trigger] mid.subrange(l, l + piece.len())
            == piece;
    let at = k + l;
    assert(all.subrange(at, at + piece.len()) =~= mid.subrange(l, l + piece.len()));
}

/// The last packets are kept in the order in which they came: the new one is the
/// last, and the others are those before it, as many as there is room for.
pub proof fn law_last_packets_are_kept(inbox: Seq<ReceivedView>, r: ReceivedView)
    requires
        inbox.len() <= debug::INBOX_CAP,
    ensures
        ({
            let after = debug::kept(inbox, r);
            &&& after.len() > 0 && after.last() == r
            &&& after.len() == inbox.len() + 1 || after.len() == debug::INBOX_CAP
            &&& after.len() <= debug::INBOX_CAP
            &&& forall|k: int|
                0 <= k < after.len() - 1 ==> #[trigger] after[k] == inbox[k + inbox.len() + 1
                    - after.len()]
        }),
{
}

/// A device is the user's where the user has it, and else the first contact's that
/// has it.
pub proof fn law_whose_device(n: NodeView, u: Uuid, i: int)
    ensures
        upkeep::among(n.owner.user.devices, u) ==> debug::user_of(n, u) == Some(n.owner.user.uuid),
        !upkeep::among(n.owner.user.devices, u) && 0 <= i < n.owner.contact_users.len()
            && following::belongs(n.owner.contact_users[i], u) && (forall|j: int|
            0 <= j < i ==> !following::belongs(#[trigger] n.owner.contact_users[j], u))
            ==> debug::user_of(n, u) == Some(n.owner.contact_users[i].user.uuid),
{
    upkeep::lemma_among(n.owner.user.devices, u);
    let s = n.owner.contact_users;
    let p = find::contact_has_device(u);
    if 0 <= i < s.len() && following::belongs(s[i], u) && (forall|j: int|
        0 <= j < i ==> !following::belongs(#[trigger] s[j], u)) {
        following::lemma_belongs(s[i], u);
        assert forall|j: int| 0 <= j < i implies !p(#[trigger] s[j]) by {
            following::lemma_belongs(s[j], u);
        }
        model::lemma_first_at(s, p, i);
    }
}

/// A code that says where to go, in a form: what it says, and the address of the
/// first of its hosts that resolves.
pub open spec fn leads_somewhere(
    body: Seq<u8>,
    cache: Seq<ResolvedHostView>,
    c: InvitationCodeView,
    i: int,
    addr: HostAddr,
) -> bool {
    &&& forms::field_in(body, "code"@) matches Some(code) && invite::code_says(code) == Some(c)
    &&& 0 <= i < c.hosts.len()
    &&& routing::resolved(cache, c.hosts[i]) == Some(addr)
    &&& forall|j: int| 0 <= j < i ==> routing::resolved(cache, #[trigger] c.hosts[j]) is None
}

/// The form to join asks the server of the code, by the invitation in it, and
/// waits for the answer from there.
pub proof fn law_join_form(
    n: NodeView,
    body: Seq<u8>,
    cache: Seq<ResolvedHostView>,
    fresh: KeyPair,
    c: InvitationCodeView,
    i: int,
    addr: HostAddr,
)
    requires
        leads_somewhere(body, cache, c, i, addr),
    ensures
        ({
            let (m, e) = setup::join_asked(n, body, cache, fresh);
            &&& exists|bytes: Seq<u8>| #[trigger]
                passage::one_datagram(e, PeerAddr::V4(addr), Packet::BootstrapRequest, bytes)
                    && bytes.subrange(1, 17) == c.id@ && bytes.subrange(17, 49)
                    == fresh.public_key@
            &&& m.owner.pending_bootstrap matches Some(p) && p.invitation_id == c.id
                && p.invitation_pk == c.public_key && p.sg_addr == addr && p.our_ephem_key_pair
                == fresh && p.desired_grade == setup::grade_in(body, "dg"@)
            &&& m.owner.user == n.owner.user
        }),
{
    reading::law_first_host_that_resolves(cache, c.hosts, i);
    let e = setup::join_asked(n, body, cache, fresh).1;
    let bytes = seq![BOOTSTRAP_REQUEST_OP] + c.id@ + fresh.public_key@;
    assert(bytes.subrange(1, 17) =~= c.id@);
    assert(bytes.subrange(17, 49) =~= fresh.public_key@);
    assert(passage::one_datagram(e, PeerAddr::V4(addr), Packet::BootstrapRequest, bytes));
}

/// The form to exchange cards sends the user's own card to the server of the code,
/// by the invitation in it, and waits for the answer from there.
pub proof fn law_exchange_form(
    n: NodeView,
    body: Seq<u8>,
    cache: Seq<ResolvedHostView>,
    fresh: KeyPair,
    key: SecretKey,
    c: InvitationCodeView,
    i: int,
    addr: HostAddr,
)
    requires
        leads_somewhere(body, cache, c, i, addr),
        wire::short_text(n.owner.user.alias),
        join_wire::plain_bares(n.owner.user.devices),
    ensures
        ({
            let (m, e) = setup::exchange_asked(n, body, cache, fresh, key);
            &&& e.len() == 1
            &&& exists|head: Seq<u8>, card: Seq<u8>| #[trigger]
                welcome::seals(
                    e[0],
                    key,
                    PeerAddr::V4(addr),
                    Packet::ContactRequest,
                    head,
                    card,
                ) && head.subrange(1, 17) == c.id@ && head.subrange(17, 49) == fresh.public_key@
                    && (join_wire::parse_contact_payload(card) matches Some(x) && x.uuid
                    == n.owner.user.uuid && x.alias == n.owner.user.alias && x.public_key
                    == n.owner.key_pair.public_key)
            &&& m.owner.pending_contact_exchange matches Some(p) && p.invitation_pk
                == c.public_key && p.sg_addr == addr && p.our_ephem_key_pair == fresh
            &&& m.owner.contact_users == n.owner.contact_users
        }),
{
    reading::law_first_host_that_resolves(cache, c.hosts, i);
    let e = setup::exchange_asked(n, body, cache, fresh, key).1;
    let head = seq![CONTACT_REQUEST_OP] + c.id@ + fresh.public_key@;
    let own = join_wire::own_card(n.owner);
    let card = join_wire::enc_contact_payload(own);
    join_wire::law_contact_payload_roundtrip(own);
    assert(head.subrange(1, 17) =~= c.id@);
    assert(head.subrange(17, 49) =~= fresh.public_key@);
    assert(welcome::seals(
        e[0],
        key,
        PeerAddr::V4(addr),
        Packet::ContactRequest,
        head,
        card,
    ));
}

/// A reply with a page ends with the page and says how long it is; one that sends
/// the reader elsewhere says where, and with which cookie.
pub proof fn law_replies_carry(
    status: u16,
    html: Seq<char>,
    location: Seq<char>,
    cookie: Seq<char>,
    code: Option<Seq<char>>,
)
    ensures
        ({
            let r = http::rendered(ReplyView::Page { status, html });
            &&& html.len() <= r.len() && r.skip(r.len() - html.len()) == html
            &&& stands_in(r, "Content-Length: "@ + text::dec(vstd::utf8::encode_utf8(html).len()))
            &&& stands_in(r, "HTTP/1.1 "@ + text::dec(status as nat) + " "@)
        }),
        ({
            let r = http::rendered(ReplyView::Redirect { location, cookie, code });
            &&& stands_in(r, "Location: "@ + location + "\r\n"@)
            &&& cookie.len() > 0 ==> stands_in(r, "Set-Cookie: "@ + cookie + "\r\n"@)
        }),
{
    let none = Seq::<char>::empty();
    let r = http::rendered(ReplyView::Page { status, html });
    assert(r.skip(r.len() - html.len()) =~= html);
    let first = "HTTP/1.1 "@ + text::dec(status as nat) + " "@;
    let length = "Content-Length: "@ + text::dec(vstd::utf8::encode_utf8(html).len());
    let between = http::status_text(status) + "\r\nContent-Type: text/html; charset=utf-8\r\n"@;
    let tail = "\r\nConnection: close\r\n\r\n"@ + html;
    lemma_stands(first + between, length, tail);
    assert(first + between + length + tail =~= r);
    lemma_stands(none, first, between + length + tail);
    assert(none + first + (between + length + tail) =~= r);
    let q = http::rendered(ReplyView::Redirect { location, cookie, code });
    let start = "HTTP/1.1 302 Found\r\nLocation: "@;
    let found = "HTTP/1.1 302 Found\r\n"@;
    reveal_strlit("HTTP/1.1 302 Found\r\nLocation: ");
    reveal_strlit("HTTP/1.1 302 Found\r\n");
    reveal_strlit("Location: ");
    assert(start =~= found + "Location: "@);
    let place = "Location: "@ + location + "\r\n"@;
    let set = http::cookie_line(cookie);
    let rest = http::code_line(code) + "Content-Length: 0\r\nConnection: close\r\n\r\n"@;
    lemma_stands(found, place, set + rest);
    assert(found + place + (set + rest) =~= q);
    lemma_stands(found + place, set, rest);
    assert(found + place + set + rest =~= q);
}

} // verus!
