//! What the admin pages do with a request.
use crate::admin_apps;
use crate::admin_apps::{approve_app, reject_app, rename_app, ActionView};
use crate::diagnostics;
use crate::diagnostics::render_diagnostics;
use crate::effects::{Effect, EffectView};
use crate::forms;
use crate::forms::{decoded_field, form_field};
use crate::hosts;
use crate::http;
use crate::http::{redirect, redirect_with_error, Reply, ReplyView};
use crate::keys;
use crate::layout;
use crate::layout::layout;
use crate::markup;
use crate::model;
use crate::pages;
use crate::pages::{
    render_applications, render_contacts, render_dashboard, render_devices, render_invitations,
    render_pending_apps, Flash, FlashView,
};
use crate::routing::{ResolvedHost, WriterTarget};
use crate::setup;
use crate::setup::{
    complete_join_setup, complete_set_password, complete_setup, initiate_bootstrap,
    initiate_contact_exchange, is_initialized, SetupView,
};
use crate::setup_pages;
use crate::setup_pages::{param_or_none, render_login, render_set_password, render_setup};
use crate::sync;
use crate::sync::sync_pull;
use crate::text::{blank, owned, put, text_eq};
use crate::types;
use crate::types::{KeyPair, Node, NodeView, SecretKey};
use vstd::prelude::*;

verus! {

/// The paths of the setup.
pub open spec fn is_setup_path(path: Seq<char>) -> bool {
    path == "/setup"@ || path == "/setup/create"@ || path == "/setup/join"@
}

/// Where a request is sent instead of being answered: a node that is not set up
/// shows only the setup, one without a password only the form for one, and any
/// other asks for a session.
pub open spec fn gate(
    method: Seq<char>,
    path: Seq<char>,
    initialized: bool,
    has_password: bool,
    authed: bool,
) -> Option<Seq<char>> {
    let home = if authed {
        "/dashboard"@
    } else {
        "/login"@
    };
    if !initialized {
        if is_setup_path(path) {
            None
        } else {
            Some("/setup"@)
        }
    } else if !has_password {
        if path == "/set-password"@ {
            None
        } else {
            Some("/set-password"@)
        }
    } else if is_setup_path(path) || path == "/set-password"@ {
        Some(home)
    } else if !authed && path != "/login"@ {
        Some("/login"@)
    } else if authed && path == "/login"@ && method == "GET"@ {
        Some("/dashboard"@)
    } else {
        None
    }
}

fn check_gate(
    method: &str,
    path: &str,
    initialized: bool,
    has_password: bool,
    authed: bool,
) -> (r: Option<&'static str>)
    ensures
        hosts::text_of(r) == gate(method@, path@, initialized, has_password, authed),
{
    let setup_path = text_eq(path, "/setup") || text_eq(path, "/setup/create") || text_eq(
        path,
        "/setup/join",
    );
    let set_password = text_eq(path, "/set-password");
    let home = if authed {
        "/dashboard"
    } else {
        "/login"
    };
    if !initialized {
        if setup_path {
            None
        } else {
            Some("/setup")
        }
    } else if !has_password {
        if set_password {
            None
        } else {
            Some("/set-password")
        }
    } else if setup_path || set_password {
        Some(home)
    } else if !authed && !text_eq(path, "/login") {
        Some("/login")
    } else if authed && text_eq(path, "/login") && text_eq(method, "GET") {
        Some("/dashboard")
    } else {
        None
    }
}

/// What a method and a path stand for.
#[derive(Clone, Copy, PartialEq, Eq, Debug, Structural)]
pub enum Route {
    Setup,
    Create,
    Join,
    Login,
    TryLogin,
    SetPassword,
    StorePassword,
    Logout,
    Home,
    Dashboard,
    PendingApps,
    Approve,
    Reject,
    Applications,
    Delete,
    Rename,
    Contacts,
    Devices,
    SyncDevices,
    Diagnostics,
    Invitations,
    InviteDevice,
    InviteContact,
    EnterInvitation,
    EnterContact,
    NotFound,
}

/// What a method and a path stand for.
pub open spec fn route_of(method: Seq<char>, path: Seq<char>) -> Route {
    let get = method == "GET"@;
    let post = method == "POST"@;
    if get && path == "/setup"@ {
        Route::Setup
    } else if post && path == "/setup/create"@ {
        Route::Create
    } else if post && path == "/setup/join"@ {
        Route::Join
    } else if get && path == "/login"@ {
        Route::Login
    } else if post && path == "/login"@ {
        Route::TryLogin
    } else if get && path == "/set-password"@ {
        Route::SetPassword
    } else if post && path == "/set-password"@ {
        Route::StorePassword
    } else if post && path == "/logout"@ {
        Route::Logout
    } else if get && path == "/"@ {
        Route::Home
    } else if get && path == "/dashboard"@ {
        Route::Dashboard
    } else if get && path == "/pending-apps"@ {
        Route::PendingApps
    } else if post && path == "/pending-apps/approve"@ {
        Route::Approve
    } else if post && path == "/pending-apps/reject"@ {
        Route::Reject
    } else if get && path == "/applications"@ {
        Route::Applications
    } else if post && path == "/applications/delete"@ {
        Route::Delete
    } else if post && path == "/applications/rename"@ {
        Route::Rename
    } else if get && path == "/contacts"@ {
        Route::Contacts
    } else if get && path == "/devices"@ {
        Route::Devices
    } else if post && path == "/devices/sync"@ {
        Route::SyncDevices
    } else if get && path == "/diagnostics"@ {
        Route::Diagnostics
    } else if get && path == "/invitations"@ {
        Route::Invitations
    } else if post && path == "/invitations/device"@ {
        Route::InviteDevice
    } else if post && path == "/invitations/contact"@ {
        Route::InviteContact
    } else if post && path == "/invitations/enter"@ {
        Route::EnterInvitation
    } else if post && path == "/contacts/enter"@ {
        Route::EnterContact
    } else {
        Route::NotFound
    }
}

/// What a method and a path stand for.
pub fn find_route(method: &str, path: &str) -> (r: Route)
    ensures
        r == route_of(method@, path@),
{
    let get = text_eq(method, "GET");
    let post = text_eq(method, "POST");
    if get && text_eq(path, "/setup") {
        Route::Setup
    } else if post && text_eq(path, "/setup/create") {
        Route::Create
    } else if post && text_eq(path, "/setup/join") {
        Route::Join
    } else if get && text_eq(path, "/login") {
        Route::Login
    } else if post && text_eq(path, "/login") {
        Route::TryLogin
    } else if get && text_eq(path, "/set-password") {
        Route::SetPassword
    } else if post && text_eq(path, "/set-password") {
        Route::StorePassword
    } else if post && text_eq(path, "/logout") {
        Route::Logout
    } else if get && text_eq(path, "/") {
        Route::Home
    } else if get && text_eq(path, "/dashboard") {
        Route::Dashboard
    } else if get && text_eq(path, "/pending-apps") {
        Route::PendingApps
    } else if post && text_eq(path, "/pending-apps/approve") {
        Route::Approve
    } else if post && text_eq(path, "/pending-apps/reject") {
        Route::Reject
    } else if get && text_eq(path, "/applications") {
        Route::Applications
    } else if post && text_eq(path, "/applications/delete") {
        Route::Delete
    } else if post && text_eq(path, "/applications/rename") {
        Route::Rename
    } else if get && text_eq(path, "/contacts") {
        Route::Contacts
    } else if get && text_eq(path, "/devices") {
        Route::Devices
    } else if post && text_eq(path, "/devices/sync") {
        Route::SyncDevices
    } else if get && text_eq(path, "/diagnostics") {
        Route::Diagnostics
    } else if get && text_eq(path, "/invitations") {
        Route::Invitations
    } else if post && text_eq(path, "/invitations/device") {
        Route::InviteDevice
    } else if post && text_eq(path, "/invitations/contact") {
        Route::InviteContact
    } else if post && text_eq(path, "/invitations/enter") {
        Route::EnterInvitation
    } else if post && text_eq(path, "/contacts/enter") {
        Route::EnterContact
    } else {
        Route::NotFound
    }
}

/// A request to the admin pages.
#[derive(Debug, PartialEq, Eq)]
pub struct UiRequest {
    pub method: String,
    pub path: String,
    pub query: String,
    pub body: Vec<u8>,
}

#[verifier::ext_equal]
pub struct UiRequestView {
    pub method: Seq<char>,
    pub path: Seq<char>,
    pub query: Seq<char>,
    pub body: Seq<u8>,
}

impl View for UiRequest {
    type V = UiRequestView;

    open spec fn view(&self) -> UiRequestView {
        UiRequestView {
            method: self.method@,
            path: self.path@,
            query: self.query@,
            body: self.body@,
        }
    }
}

/// What the program around the pages knows and has at hand.
pub struct UiWith {
    /// The request comes with a valid session.
    pub authed: bool,
    /// The request comes from these pages, as far as its headers tell.
    pub csrf_ok: bool,
    /// The password in the form is the stored one.
    pub password_ok: bool,
    /// The hash of the password in the form.
    pub hash: String,
    /// A fresh identity, for a new user.
    pub identity: KeyPair,
    /// A fresh key pair, for a join or an exchange.
    pub fresh: KeyPair,
    /// The key derived from `fresh` and the code in the form.
    pub exchange_key: SecretKey,
    /// What the environment says about hosts.
    pub pnet_hosts: String,
    /// The hosts that were resolved.
    pub cache: Vec<ResolvedHost>,
    /// The server that writes.
    pub target: WriterTarget,
    /// A code that the session has to show.
    pub flash: Option<Flash>,
    /// The code of an invitation that was made for this request.
    pub minted: Option<String>,
    /// Seconds since the Unix epoch.
    pub now: u64,
    /// How long the log goes back, in seconds.
    pub retention: u64,
}

/// What happens to the session of a request.
#[derive(Debug, PartialEq, Eq)]
pub enum SessionStep {
    Keep,
    /// A new session is opened and its cookie set.
    Open,
    /// The session ends and its cookie is cleared.
    Close,
    /// The session shows a code next.
    Show(Flash),
}

#[verifier::ext_equal]
pub enum SessionStepView {
    Keep,
    Open,
    Close,
    Show(FlashView),
}

impl View for SessionStep {
    type V = SessionStepView;

    open spec fn view(&self) -> SessionStepView {
        match *self {
            SessionStep::Keep => SessionStepView::Keep,
            SessionStep::Open => SessionStepView::Open,
            SessionStep::Close => SessionStepView::Close,
            SessionStep::Show(f) => SessionStepView::Show(f@),
        }
    }
}

/// The answer to a request.
pub struct UiOutcome {
    pub reply: Reply,
    pub session: SessionStep,
    pub effects: Vec<Effect>,
}

pub struct UiView {
    pub reply: ReplyView,
    pub session: SessionStepView,
    pub node: NodeView,
    pub effects: Seq<EffectView>,
}

/// A page, and nothing else happens.
pub open spec fn shown(n: NodeView, status: u16, html: Seq<char>) -> UiView {
    UiView {
        reply: ReplyView::Page { status, html },
        session: SessionStepView::Keep,
        node: n,
        effects: Seq::empty(),
    }
}

/// Another place, and nothing else happens.
pub open spec fn sent(n: NodeView, location: Seq<char>) -> UiView {
    UiView {
        reply: http::to(location),
        session: SessionStepView::Keep,
        node: n,
        effects: Seq::empty(),
    }
}

/// A step of the setup: on success a session opens and `done` is next, otherwise
/// `back` with the error.
pub open spec fn set_up(v: SetupView, done: Seq<char>, back: Seq<char>) -> UiView {
    match v.fault {
        None => UiView {
            reply: http::to(done),
            session: SessionStepView::Open,
            node: v.node,
            effects: v.effects,
        },
        Some(e) => UiView {
            reply: http::to(back + e),
            session: SessionStepView::Keep,
            node: v.node,
            effects: v.effects,
        },
    }
}

/// An action on an application, back to `base` with the error if there is one.
pub open spec fn acted(v: ActionView, base: Seq<char>) -> UiView {
    UiView {
        reply: http::to(
            http::with_error(
                base,
                if v.failed {
                    Some(admin_apps::UI_ERR_PUBLISH_FAILED@)
                } else {
                    None
                },
            ),
        ),
        session: SessionStepView::Keep,
        node: v.node,
        effects: v.effects,
    }
}

/// Where a join that failed goes back to: the form that it came from.
pub open spec fn join_back(body: Seq<u8>) -> Seq<char> {
    let grade = match forms::field_in(body, "grade"@) {
        Some(g) => g,
        None => "dg"@,
    };
    "/setup?grade="@ + grade + (if grade == "sg"@ {
        "&role=join"@
    } else {
        Seq::empty()
    }) + "&error="@
}

fn join_back_text(body: &[u8]) -> (r: String)
    ensures
        r@ == join_back(body@),
{
    let grade = match form_field(body, "grade") {
        Some(g) => g,
        None => owned("dg"),
    };
    let role = if text_eq(grade.as_str(), "sg") {
        owned("&role=join")
    } else {
        blank()
    };
    let mut s = owned("/setup?grade=");
    put(&mut s, grade.as_str());
    put(&mut s, role.as_str());
    put(&mut s, "&error=");
    s
}

/// An invitation was made, or could not be.
pub open spec fn invited(n: NodeView, code: Option<Seq<char>>, device: bool) -> UiView {
    match code {
        Some(c) => UiView {
            reply: ReplyView::Redirect {
                location: "/invitations"@,
                cookie: Seq::empty(),
                code: Some(c),
            },
            session: SessionStepView::Show(
                if device {
                    FlashView::DeviceCode(c)
                } else {
                    FlashView::ContactCode(c)
                },
            ),
            node: n,
            effects: Seq::empty(),
        },
        None => sent(n, "/invitations?error=no_host"@),
    }
}

/// What an action on the application that a form names comes to.
pub open spec fn app_action(n: NodeView, route: Route, body: Seq<u8>, w: UiWith) -> ActionView {
    match admin_apps::named_app(body) {
        None => admin_apps::nothing(n),
        Some(id) => if route == Route::Approve {
            admin_apps::approval(n, id, w.target, w.now, w.retention)
        } else if route == Route::Rename {
            match admin_apps::named_alias(body) {
                Some(alias) => admin_apps::renaming(n, id, alias, w.target, w.now, w.retention),
                None => admin_apps::nothing(n),
            }
        } else {
            admin_apps::removal(n, id, w.target, w.now, w.retention)
        },
    }
}

/// The answer on a route to a request that was let in.
pub open spec fn answered_on(n: NodeView, route: Route, q: UiRequestView, w: UiWith) -> UiView {
    let cache = model::views(w.cache@);
    let error = setup_pages::param_or_blank(q.query, "error"@);
    match route {
        Route::Setup => shown(n, 200, layout::setup_page(setup_pages::setup_step(q.query))),
        Route::Create => set_up(
            setup::setup_done(n, q.body, w.identity, hosts::hosts_in(w.pnet_hosts@), w.hash@),
            "/dashboard"@,
            "/setup?grade=sg&role=new&error="@,
        ),
        Route::Join => set_up(
            setup::join_set_up(n, q.body, cache, w.fresh, w.hash@),
            "/setup?waiting=1"@,
            join_back(q.body),
        ),
        Route::Login => shown(n, 200, layout::setup_page(setup_pages::login_form(error))),
        Route::TryLogin => if n.admin_password_hash is Some && w.password_ok {
            UiView {
                reply: http::to("/dashboard"@),
                session: SessionStepView::Open,
                node: n,
                effects: Seq::empty(),
            }
        } else {
            sent(n, "/login?error=bad"@)
        },
        Route::SetPassword => shown(
            n,
            200,
            layout::setup_page(setup_pages::set_password_form(error)),
        ),
        Route::StorePassword => set_up(
            setup::password_set(n, q.body, w.hash@),
            "/dashboard"@,
            "/set-password?error="@,
        ),
        Route::Logout => UiView {
            reply: http::to("/login"@),
            session: SessionStepView::Close,
            node: n,
            effects: Seq::empty(),
        },
        Route::Home => sent(n, "/dashboard"@),
        Route::Dashboard => shown(n, 200, pages::dashboard(n)),
        Route::PendingApps => shown(n, 200, pages::pending_apps(n, q.query)),
        Route::Approve | Route::Reject => acted(
            app_action(n, route, q.body, w),
            "/pending-apps"@,
        ),
        Route::Applications => shown(n, 200, pages::applications(n, q.query)),
        Route::Delete | Route::Rename => acted(
            app_action(n, route, q.body, w),
            "/applications"@,
        ),
        Route::Contacts => shown(n, 200, pages::contacts(n)),
        Route::Devices => shown(n, 200, pages::devices(n)),
        Route::SyncDevices => UiView {
            reply: http::to("/devices"@),
            session: SessionStepView::Keep,
            node: n,
            effects: sync::pulls(n),
        },
        Route::Diagnostics => shown(n, 200, diagnostics::diagnostics(n, w.retention)),
        Route::Invitations => shown(
            n,
            200,
            pages::invitations(n, q.query, pages::flash_view(w.flash)),
        ),
        Route::InviteDevice => invited(n, types::string_view(w.minted), true),
        Route::InviteContact => invited(n, types::string_view(w.minted), false),
        Route::EnterInvitation => {
            let (m, e) = setup::join_asked(n, q.body, cache, w.fresh);
            UiView {
                reply: http::to("/invitations"@),
                session: SessionStepView::Keep,
                node: m,
                effects: e,
            }
        },
        Route::EnterContact => {
            let (m, e) = setup::exchange_asked(n, q.body, cache, w.fresh, w.exchange_key);
            UiView {
                reply: http::to("/contacts"@),
                session: SessionStepView::Keep,
                node: m,
                effects: e,
            }
        },
        Route::NotFound => shown(n, 404, layout::page(n, "Not Found"@, markup::NOT_FOUND@)),
    }
}

/// The answer to a request: who may come in is decided first, then whether a
/// form was sent from one of the node's own pages, then the route answers.
pub open spec fn answered(n: NodeView, q: UiRequestView, w: UiWith) -> UiView {
    match gate(
        q.method,
        q.path,
        setup::initialized(n),
        n.admin_password_hash is Some,
        w.authed,
    ) {
        Some(location) => sent(n, location),
        None => if q.method == "POST"@ && !w.csrf_ok {
            shown(n, 403, layout::page(n, "Forbidden"@, markup::FORBIDDEN@))
        } else {
            answered_on(n, route_of(q.method, q.path), q, w)
        },
    }
}

fn only(reply: Reply) -> (r: UiOutcome)
    ensures
        r.reply@ == reply@,
        r.session@ == SessionStepView::Keep,
        model::views(r.effects@) == Seq::<EffectView>::empty(),
{
    let effects: Vec<Effect> = Vec::new();
    assert(model::views(effects@) =~= Seq::empty());
    UiOutcome { reply, session: SessionStep::Keep, effects }
}

fn show(html: String) -> (r: UiOutcome)
    ensures
        r.reply@ == (ReplyView::Page { status: 200, html: html@ }),
        r.session@ == SessionStepView::Keep,
        model::views(r.effects@) == Seq::<EffectView>::empty(),
{
    only(Reply::Page { status: 200, html })
}

fn finish_setup(
    done: Result<(), &'static str>,
    effects: Vec<Effect>,
    next: &str,
    back: &str,
) -> (r: UiOutcome)
    ensures
        match setup::fault_of(done) {
            None => r.reply@ == http::to(next@) && r.session@ == SessionStepView::Open,
            Some(e) => r.reply@ == http::to(back@ + e) && r.session@ == SessionStepView::Keep,
        },
        model::views(r.effects@) == model::views(effects@),
{
    match done {
        Ok(_) => UiOutcome { reply: redirect(next), session: SessionStep::Open, effects },
        Err(e) => {
            let mut s = owned(back);
            put(&mut s, e);
            UiOutcome { reply: redirect(s.as_str()), session: SessionStep::Keep, effects }
        },
    }
}

fn finish_action(done: (Option<&'static str>, Vec<Effect>), base: &str) -> (r: UiOutcome)
    ensures
        r.reply@ == http::to(http::with_error(base@, hosts::text_of(done.0))),
        r.session@ == SessionStepView::Keep,
        model::views(r.effects@) == model::views(done.1@),
{
    let (err, effects) = done;
    let location = redirect_with_error(base, err);
    UiOutcome { reply: redirect(location.as_str()), session: SessionStep::Keep, effects }
}

fn finish_invitation(code: Option<String>, device: bool) -> (r: UiOutcome)
    ensures
        forall|n: NodeView|
            r.reply@ == (#[trigger] invited(n, types::string_view(code), device)).reply
                && r.session@ == invited(n, types::string_view(code), device).session,
        model::views(r.effects@) == Seq::<EffectView>::empty(),
{
    match code {
        Some(c) => {
            let effects: Vec<Effect> = Vec::new();
            assert(model::views(effects@) =~= Seq::empty());
            let flash = if device {
                Flash::DeviceCode(c.clone())
            } else {
                Flash::ContactCode(c.clone())
            };
            UiOutcome {
                reply: Reply::Redirect {
                    location: owned("/invitations"),
                    cookie: blank(),
                    code: Some(c),
                },
                session: SessionStep::Show(flash),
                effects,
            }
        },
        None => only(redirect("/invitations?error=no_host")),
    }
}

/// Answers a request to the admin pages.
pub fn ui_request(node: &mut Node, req: &UiRequest, with: UiWith) -> (r: UiOutcome)
    requires
        old(node).owner.public_version.room(2),
    ensures
        ({
            let v = answered(old(node)@, req@, with);
            &&& r.reply@ == v.reply
            &&& r.session@ == v.session
            &&& final(node)@ == v.node
            &&& model::views(r.effects@) == v.effects
        }),
        keys::keyed(old(node)@) ==> keys::keyed(final(node)@),
{
    proof {
        keys::lemma_answered(node@, req@, with);
    }
    let method = req.method.as_str();
    let path = req.path.as_str();
    let query = req.query.as_str();
    let body = req.body.as_slice();
    let initialized = is_initialized(node);
    let has_password = node.admin_password_hash.is_some();
    if let Some(location) = check_gate(method, path, initialized, has_password, with.authed) {
        return only(redirect(location));
    }
    if text_eq(method, "POST") && !with.csrf_ok {
        let html = layout(node, "Forbidden", markup::FORBIDDEN);
        return only(Reply::Page { status: 403, html });
    }
    match find_route(method, path) {
        Route::Setup => show(render_setup(query)),
        Route::Create => {
            let (done, effects) = complete_setup(
                node,
                body,
                with.identity,
                with.pnet_hosts.as_str(),
                with.hash,
            );
            finish_setup(done, effects, "/dashboard", "/setup?grade=sg&role=new&error=")
        },
        Route::Join => {
            let (done, effects) = complete_join_setup(
                node,
                body,
                &with.cache,
                with.fresh,
                with.hash,
            );
            finish_setup(done, effects, "/setup?waiting=1", join_back_text(body).as_str())
        },
        Route::Login => show(render_login(param_or_none(query, "error").as_str())),
        Route::TryLogin => if has_password && with.password_ok {
            let effects: Vec<Effect> = Vec::new();
            assert(model::views(effects@) =~= Seq::empty());
            UiOutcome { reply: redirect("/dashboard"), session: SessionStep::Open, effects }
        } else {
            only(redirect("/login?error=bad"))
        },
        Route::SetPassword => show(render_set_password(param_or_none(query, "error").as_str())),
        Route::StorePassword => {
            let (done, effects) = complete_set_password(node, body, with.hash);
            finish_setup(done, effects, "/dashboard", "/set-password?error=")
        },
        Route::Logout => {
            let effects: Vec<Effect> = Vec::new();
            assert(model::views(effects@) =~= Seq::empty());
            UiOutcome { reply: redirect("/login"), session: SessionStep::Close, effects }
        },
        Route::Home => only(redirect("/dashboard")),
        Route::Dashboard => show(render_dashboard(node)),
        Route::PendingApps => show(render_pending_apps(node, query)),
        Route::Approve => finish_action(
            approve_app(node, body, with.target, with.now, with.retention),
            "/pending-apps",
        ),
        Route::Reject => finish_action(
            reject_app(node, body, with.target, with.now, with.retention),
            "/pending-apps",
        ),
        Route::Applications => show(render_applications(node, query)),
        Route::Delete => finish_action(
            reject_app(node, body, with.target, with.now, with.retention),
            "/applications",
        ),
        Route::Rename => finish_action(
            rename_app(node, body, with.target, with.now, with.retention),
            "/applications",
        ),
        Route::Contacts => show(render_contacts(node)),
        Route::Devices => show(render_devices(node)),
        Route::SyncDevices => {
            let effects = sync_pull(node);
            UiOutcome { reply: redirect("/devices"), session: SessionStep::Keep, effects }
        },
        Route::Diagnostics => show(render_diagnostics(node, with.retention)),
        Route::Invitations => show(render_invitations(node, query, with.flash)),
        Route::InviteDevice => finish_invitation(with.minted, true),
        Route::InviteContact => finish_invitation(with.minted, false),
        Route::EnterInvitation => {
            let effects = initiate_bootstrap(node, body, &with.cache, with.fresh);
            UiOutcome { reply: redirect("/invitations"), session: SessionStep::Keep, effects }
        },
        Route::EnterContact => {
            let effects = initiate_contact_exchange(
                node,
                body,
                &with.cache,
                with.fresh,
                with.exchange_key,
            );
            UiOutcome { reply: redirect("/contacts"), session: SessionStep::Keep, effects }
        },
        Route::NotFound => {
            let html = layout(node, "Not Found", markup::NOT_FOUND);
            only(Reply::Page { status: 404, html })
        },
    }
}

/// A password to hold against the stored hash.
#[derive(Debug, PartialEq, Eq)]
pub struct LoginAttempt {
    pub password: String,
    pub stored: String,
}

/// The password in a login form with the hash that it has to match; nothing where
/// no password was set.
pub fn login_attempt(node: &Node, body: &[u8]) -> (r: Option<LoginAttempt>)
    ensures
        match node@.admin_password_hash {
            Some(h) => r matches Some(a) && a.stored@ == h && a.password@ == forms::field_or_blank(
                body@,
                "password"@,
            ),
            None => r is None,
        },
{
    match &node.admin_password_hash {
        Some(h) => Some(
            LoginAttempt { password: decoded_field(body, "password"), stored: h.clone() },
        ),
        None => None,
    }
}

/// A reply with a cookie to set, where it is a redirect.
pub fn with_cookie(reply: Reply, set_cookie: String) -> (r: Reply)
    ensures
        r@ == match reply@ {
            ReplyView::Redirect { location, cookie, code } => ReplyView::Redirect {
                location,
                cookie: set_cookie@,
                code,
            },
            page => page,
        },
{
    match reply {
        Reply::Redirect { location, cookie, code } => Reply::Redirect {
            location,
            cookie: set_cookie,
            code,
        },
        page => page,
    }
}

/// Until a node is set up, every request but those of the setup is sent there.
pub proof fn law_fresh_node_shows_setup(n: NodeView, q: UiRequestView, w: UiWith)
    requires
        !setup::initialized(n),
        !is_setup_path(q.path),
    ensures
        answered(n, q, w) == sent(n, "/setup"@),
{
}

/// A node that is set up without a password shows only the form for one.
pub proof fn law_password_comes_first(n: NodeView, q: UiRequestView, w: UiWith)
    requires
        setup::initialized(n),
        n.admin_password_hash is None,
        q.path != "/set-password"@,
    ensures
        answered(n, q, w) == sent(n, "/set-password"@),
{
}

/// Without a session nothing on a node that is set up changes, and every path but
/// that of the login is sent there.
pub proof fn law_no_session_no_change(n: NodeView, q: UiRequestView, w: UiWith)
    requires
        setup::initialized(n),
        n.admin_password_hash is Some,
        !w.authed,
    ensures
        answered(n, q, w).node == n,
        answered(n, q, w).effects == Seq::<EffectView>::empty(),
        q.path != "/login"@ ==> answered(n, q, w) == sent(n, "/login"@),
{
    reveal_strlit("/login");
    reveal_strlit("/setup");
    reveal_strlit("/setup/create");
    reveal_strlit("/setup/join");
    reveal_strlit("/set-password");
    reveal_strlit("/logout");
    reveal_strlit("/pending-apps/approve");
    reveal_strlit("/pending-apps/reject");
    reveal_strlit("/applications/delete");
    reveal_strlit("/applications/rename");
    reveal_strlit("/devices/sync");
    reveal_strlit("/invitations/enter");
    reveal_strlit("/contacts/enter");
    let p = q.path;
    if p == "/login"@ {
        assert(p.len() == 6);
        assert(p != "/setup"@) by {
            assert(p[1] == 'l');
        }
    }
}

/// A session is opened only by the right password, or by a form that sets the
/// first one.
pub proof fn law_session_needs_password(n: NodeView, q: UiRequestView, w: UiWith)
    requires
        answered(n, q, w).session == SessionStepView::Open,
    ensures
        (n.admin_password_hash is Some && w.password_ok) || setup::form_password_fault(q.body)
            is None,
{
}

/// A request that does not post changes nothing.
pub proof fn law_reading_changes_nothing(n: NodeView, q: UiRequestView, w: UiWith)
    requires
        q.method != "POST"@,
    ensures
        answered(n, q, w).node == n,
        answered(n, q, w).effects == Seq::<EffectView>::empty(),
{
}

/// A post from elsewhere changes nothing.
pub proof fn law_foreign_post_changes_nothing(n: NodeView, q: UiRequestView, w: UiWith)
    requires
        q.method == "POST"@,
        !w.csrf_ok,
    ensures
        answered(n, q, w).node == n,
        answered(n, q, w).effects == Seq::<EffectView>::empty(),
{
}

/// The code of an invitation never stands in the place a browser is sent to.
pub proof fn law_code_is_not_in_the_address(n: NodeView, code: Option<Seq<char>>, device: bool)
    ensures
        invited(n, code, device).reply matches ReplyView::Redirect { location, .. } && (location
            == "/invitations"@ || location == "/invitations?error=no_host"@),
{
}

} // verus!
