//! What the owner does with applications in the admin pages: approving,
//! renaming and removing them.
use crate::app_edge;
use crate::change::{Change, ChangeView};
use crate::effects::{push_all, Effect, EffectView};
use crate::find;
use crate::find::{find_app, find_device};
use crate::forms;
use crate::forms::{form_field, url_decode, uuid_from_hex};
use crate::keys;
use crate::model;
use crate::routing::WriterTarget;
use crate::sync;
use crate::sync::{request_change, WriteOutcome};
use crate::text::is_empty;
use crate::types::{ApplicationView, Device, DeviceView, Node, NodeView, Uuid};
use vstd::prelude::*;

verus! {

/// The error code that pages show where a change could not be published.
pub const UI_ERR_PUBLISH_FAILED: &'static str = "publish_failed";

/// What an action of the owner comes to: whether publishing failed, the state
/// and the effects.
pub struct ActionView {
    pub failed: bool,
    pub node: NodeView,
    pub effects: Seq<EffectView>,
}

/// Nothing happens.
pub open spec fn nothing(n: NodeView) -> ActionView {
    ActionView { failed: false, node: n, effects: Seq::empty() }
}

/// The application that a form names.
pub open spec fn named_app(body: Seq<u8>) -> Option<Uuid> {
    match forms::field_in(body, "id"@) {
        Some(s) => forms::uuid_in(s),
        None => None,
    }
}

fn read_named_app(body: &[u8]) -> (r: Option<Uuid>)
    ensures
        r == named_app(body@),
{
    match form_field(body, "id") {
        Some(s) => uuid_from_hex(s.as_str()),
        None => None,
    }
}

/// The state with another approval of the application at `i` of this device.
pub open spec fn with_approval(n: NodeView, i: int, approved: bool) -> NodeView {
    let apps = app_edge::own_apps(n);
    app_edge::with_own_apps(
        n,
        apps.update(i, ApplicationView { user_approved: approved, ..apps[i] }),
    )
}

/// What approving an application of this device comes to. It is published;
/// where that fails the approval is taken back, if it was new.
pub open spec fn approval(
    n: NodeView,
    id: Uuid,
    target: WriterTarget,
    now: u64,
    retention: u64,
) -> ActionView {
    if app_edge::own_index(n) is None {
        nothing(n)
    } else {
        match model::first_where(app_edge::own_apps(n), find::app_is(id)) {
            None => nothing(n),
            Some(i) => {
                let a = app_edge::own_apps(n)[i];
                let m = with_approval(n, i, true);
                let c = ChangeView::AddApplication {
                    device_uuid: n.device_uuid,
                    app_id: id,
                    app_alias: a.alias,
                };
                let (outcome, k, e) = sync::requested(m, c, target, true, now, retention);
                let saved = seq![EffectView::Save] + e;
                if outcome == WriteOutcome::Done {
                    ActionView { failed: false, node: k, effects: saved }
                } else if a.user_approved {
                    ActionView { failed: true, node: k, effects: saved }
                } else {
                    ActionView {
                        failed: true,
                        node: with_approval(k, i, false),
                        effects: saved.push(EffectView::Save),
                    }
                }
            },
        }
    }
}

/// Approves the application that a form names.
pub fn approve_app(
    node: &mut Node,
    body: &[u8],
    target: WriterTarget,
    now: u64,
    retention: u64,
) -> (r: (Option<&'static str>, Vec<Effect>))
    requires
        old(node).owner.public_version.room(2),
    ensures
        ({
            let v = match named_app(body@) {
                Some(id) => approval(old(node)@, id, target, now, retention),
                None => nothing(old(node)@),
            };
            &&& r.0 is Some <==> v.failed
            &&& r.0 is Some ==> r.0->0@ == UI_ERR_PUBLISH_FAILED@
            &&& final(node)@ == v.node
            &&& model::views(r.1@) == v.effects
        }),
        keys::keyed(old(node)@) ==> keys::keyed(final(node)@),
{
    broadcast use model::group_views;

    proof {
        if let Some(id) = named_app(body@) {
            keys::lemma_approval(node@, id, target, now, retention);
        }
    }
    let mut out: Vec<Effect> = Vec::new();
    assert(model::views(out@) =~= Seq::empty());
    let id = match read_named_app(body) {
        Some(id) => id,
        None => {
            return (None, out);
        },
    };
    let ghost n = node@;
    let device_uuid = node.device_uuid;
    let d: usize = match find_device(&node.owner.user.devices, &device_uuid) {
        Some(d) => d,
        None => {
            return (None, out);
        },
    };
    let i: usize = match find_app(&node.owner.user.devices[d].applications, &id) {
        Some(i) => i,
        None => {
            return (None, out);
        },
    };
    let was_approved = node.owner.user.devices[d].applications[i].user_approved;
    let app_alias = node.owner.user.devices[d].applications[i].alias.clone();
    node.owner.user.devices[d].applications[i].user_approved = true;
    let ghost m = with_approval(n, i as int, true);
    proof {
        let apps = app_edge::own_apps(n);
        let a = ApplicationView { user_approved: true, ..apps[i as int] };
        app_edge::lemma_same_index(n, apps.update(i as int, a));
        let now_apps = node.owner.user.devices@[d as int].applications@;
        assert(model::views(now_apps) =~= apps.update(i as int, a));
        assert(node@.owner.user.devices =~= m.owner.user.devices);
        assert(node@ =~= m);
    }
    out.push(Effect::Save);
    let change = Change::AddApplication { device_uuid, app_id: id, app_alias };
    let (done, e) = request_change(node, change, target, now, retention);
    push_all(&mut out, e);
    let ghost v = approval(n, id, target, now, retention);
    if done.is_err() {
        assert(node@ == m);
        if !was_approved {
            let ghost k = node@;
            node.owner.user.devices[d].applications[i].user_approved = false;
            proof {
                let apps = app_edge::own_apps(k);
                let a = ApplicationView { user_approved: false, ..apps[i as int] };
                let now_apps = node.owner.user.devices@[d as int].applications@;
                assert(model::views(now_apps) =~= apps.update(i as int, a));
                assert(node@.owner.user.devices =~= with_approval(
                    k,
                    i as int,
                    false,
                ).owner.user.devices);
                assert(node@ =~= with_approval(k, i as int, false));
            }
            out.push(Effect::Save);
        }
        assert(model::views(out@) =~= v.effects);
        return (Some(UI_ERR_PUBLISH_FAILED), out);
    }
    assert(model::views(out@) =~= v.effects);
    (None, out)
}

pub open spec fn device_has_app(id: Uuid) -> spec_fn(DeviceView) -> bool {
    |d: DeviceView| model::any_where(d.applications, find::app_is(id))
}

fn find_device_with_app(v: &Vec<Device>, id: &Uuid) -> (r: Option<usize>)
    ensures
        match model::first_where(model::views(v@), device_has_app(*id)) {
            Some(i) => r == Some(i as usize) && 0 <= i < v@.len() && i == r->0,
            None => r is None,
        },
{
    broadcast use model::group_views;

    let ghost s = model::views(v@);
    let mut i: usize = 0;
    while i < v.len()
        invariant
            i <= v@.len(),
            s == model::views(v@),
            forall|j: int| 0 <= j < i ==> !device_has_app(*id)(#[trigger] s[j]),
        decreases v@.len() - i,
    {
        if find_app(&v[i].applications, id).is_some() {
            proof {
                assert(device_has_app(*id)(s[i as int]));
                model::lemma_first_at(s, device_has_app(*id), i as int);
            }
            return Some(i);
        }
        assert(!device_has_app(*id)(s[i as int]));
        i += 1;
    }
    proof {
        model::lemma_first_none(s, device_has_app(*id));
    }
    None
}

/// The state with another name for the application at `j` of the device at `i`.
pub open spec fn with_alias_at(n: NodeView, i: int, j: int, alias: Seq<char>) -> NodeView {
    let apps = n.owner.user.devices[i].applications;
    NodeView {
        owner: n.owner.with_apps(i, apps.update(j, ApplicationView { alias, ..apps[j] })),
        ..n
    }
}

/// The state with another name for an application of a device, if both are
/// there.
pub open spec fn with_alias_of(n: NodeView, device: Uuid, id: Uuid, alias: Seq<char>) -> NodeView {
    match n.owner.device_index(device) {
        Some(i) => match model::first_where(
            n.owner.user.devices[i].applications,
            find::app_is(id),
        ) {
            Some(j) => with_alias_at(n, i, j, alias),
            None => n,
        },
        None => n,
    }
}

/// What renaming an application of any of the user's devices comes to. The new
/// name is published; where that fails the old name comes back.
pub open spec fn renaming(
    n: NodeView,
    id: Uuid,
    alias: Seq<char>,
    target: WriterTarget,
    now: u64,
    retention: u64,
) -> ActionView {
    let devices = n.owner.user.devices;
    match model::first_where(devices, device_has_app(id)) {
        None => nothing(n),
        Some(i) => {
            let j = model::first_where(devices[i].applications, find::app_is(id)).unwrap();
            let a = devices[i].applications[j];
            if a.alias == alias {
                nothing(n)
            } else {
                let m = with_alias_at(n, i, j, alias);
                let c = ChangeView::UpdateApplicationAlias {
                    device_uuid: devices[i].uuid,
                    app_id: id,
                    new_alias: alias,
                };
                let (outcome, k, e) = sync::requested(m, c, target, true, now, retention);
                let saved = seq![EffectView::Save] + e;
                if outcome == WriteOutcome::Done {
                    ActionView { failed: false, node: k, effects: saved }
                } else {
                    ActionView {
                        failed: true,
                        node: with_alias_of(k, devices[i].uuid, id, a.alias),
                        effects: saved.push(EffectView::Save),
                    }
                }
            }
        },
    }
}

/// The new name in a form, if there is one.
pub open spec fn named_alias(body: Seq<u8>) -> Option<Seq<char>> {
    match forms::field_in(body, "alias"@) {
        Some(s) => if forms::url_decoded(s).len() > 0 {
            Some(forms::url_decoded(s))
        } else {
            None
        },
        None => None,
    }
}

fn set_alias(node: &mut Node, device: &Uuid, id: &Uuid, alias: String)
    ensures
        final(node)@ == with_alias_of(old(node)@, *device, *id, alias@),
{
    broadcast use model::group_views;

    let ghost n = node@;
    let ghost av = alias@;
    if let Some(d) = find_device(&node.owner.user.devices, device) {
        if let Some(j) = find_app(&node.owner.user.devices[d].applications, id) {
            node.owner.user.devices[d].applications[j].alias = alias;
            proof {
                let apps = n.owner.user.devices[d as int].applications;
                let now_apps = node.owner.user.devices@[d as int].applications@;
                assert(model::views(now_apps) =~= apps.update(
                    j as int,
                    ApplicationView { alias: av, ..apps[j as int] },
                ));
                assert(node@.owner.user.devices =~= with_alias_at(
                    n,
                    d as int,
                    j as int,
                    av,
                ).owner.user.devices);
                assert(node@ =~= with_alias_at(n, d as int, j as int, av));
            }
        }
    }
}

/// Renames the application that a form names.
pub fn rename_app(
    node: &mut Node,
    body: &[u8],
    target: WriterTarget,
    now: u64,
    retention: u64,
) -> (r: (Option<&'static str>, Vec<Effect>))
    requires
        old(node).owner.public_version.room(2),
    ensures
        ({
            let v = match (named_app(body@), named_alias(body@)) {
                (Some(id), Some(alias)) => renaming(
                    old(node)@,
                    id,
                    alias,
                    target,
                    now,
                    retention,
                ),
                _ => nothing(old(node)@),
            };
            &&& r.0 is Some <==> v.failed
            &&& r.0 is Some ==> r.0->0@ == UI_ERR_PUBLISH_FAILED@
            &&& final(node)@ == v.node
            &&& model::views(r.1@) == v.effects
        }),
        keys::keyed(old(node)@) ==> keys::keyed(final(node)@),
{
    broadcast use model::group_views;

    proof {
        if let (Some(id), Some(alias)) = (named_app(body@), named_alias(body@)) {
            keys::lemma_renaming(node@, id, alias, target, now, retention);
        }
    }
    let mut out: Vec<Effect> = Vec::new();
    assert(model::views(out@) =~= Seq::empty());
    let id = match read_named_app(body) {
        Some(id) => id,
        None => {
            return (None, out);
        },
    };
    let new_alias = match form_field(body, "alias") {
        Some(s) => url_decode(s.as_str()),
        None => {
            return (None, out);
        },
    };
    if is_empty(&new_alias) {
        return (None, out);
    }
    let ghost n = node@;
    let ghost alias = new_alias@;
    let i: usize = match find_device_with_app(&node.owner.user.devices, &id) {
        Some(i) => i,
        None => {
            return (None, out);
        },
    };
    proof {
        let devices = n.owner.user.devices;
        model::lemma_first_where(devices, device_has_app(id));
        assert(device_has_app(id)(devices[i as int]));
    }
    let j: usize = match find_app(&node.owner.user.devices[i].applications, &id) {
        Some(j) => j,
        None => {
            return (None, out);
        },
    };
    if node.owner.user.devices[i].applications[j].alias == new_alias {
        return (None, out);
    }
    let device_uuid = node.owner.user.devices[i].uuid;
    let prior = node.owner.user.devices[i].applications[j].alias.clone();
    node.owner.user.devices[i].applications[j].alias = new_alias.clone();
    let ghost m = with_alias_at(n, i as int, j as int, alias);
    proof {
        let apps = n.owner.user.devices[i as int].applications;
        let now_apps = node.owner.user.devices@[i as int].applications@;
        assert(model::views(now_apps) =~= apps.update(
            j as int,
            ApplicationView { alias, ..apps[j as int] },
        ));
        assert(node@.owner.user.devices =~= m.owner.user.devices);
        assert(node@ =~= m);
    }
    out.push(Effect::Save);
    let change = Change::UpdateApplicationAlias { device_uuid, app_id: id, new_alias };
    let (done, e) = request_change(node, change, target, now, retention);
    push_all(&mut out, e);
    let ghost v = renaming(n, id, alias, target, now, retention);
    if done.is_err() {
        set_alias(node, &device_uuid, &id, prior);
        out.push(Effect::Save);
        assert(model::views(out@) =~= v.effects);
        return (Some(UI_ERR_PUBLISH_FAILED), out);
    }
    assert(model::views(out@) =~= v.effects);
    (None, out)
}

/// What removing an application of this device comes to. The removal is
/// published; where that fails the application comes back, behind the others.
pub open spec fn removal(
    n: NodeView,
    id: Uuid,
    target: WriterTarget,
    now: u64,
    retention: u64,
) -> ActionView {
    if app_edge::own_index(n) is None {
        nothing(n)
    } else {
        let apps = app_edge::own_apps(n);
        match model::first_where(apps, find::app_is(id)) {
            None => nothing(n),
            Some(j) => {
                let m = app_edge::with_own_apps(n, apps.remove(j));
                let c = ChangeView::RemoveApplication { device_uuid: n.device_uuid, app_id: id };
                let (outcome, k, e) = sync::requested(m, c, target, true, now, retention);
                let saved = seq![EffectView::Save] + e;
                if outcome == WriteOutcome::Done {
                    ActionView { failed: false, node: k, effects: saved }
                } else {
                    ActionView {
                        failed: true,
                        node: app_edge::with_own_apps(k, app_edge::own_apps(k).push(apps[j])),
                        effects: saved.push(EffectView::Save),
                    }
                }
            },
        }
    }
}

/// Removes the application that a form names.
pub fn reject_app(
    node: &mut Node,
    body: &[u8],
    target: WriterTarget,
    now: u64,
    retention: u64,
) -> (r: (Option<&'static str>, Vec<Effect>))
    requires
        old(node).owner.public_version.room(2),
    ensures
        ({
            let v = match named_app(body@) {
                Some(id) => removal(old(node)@, id, target, now, retention),
                None => nothing(old(node)@),
            };
            &&& r.0 is Some <==> v.failed
            &&& r.0 is Some ==> r.0->0@ == UI_ERR_PUBLISH_FAILED@
            &&& final(node)@ == v.node
            &&& model::views(r.1@) == v.effects
        }),
        keys::keyed(old(node)@) ==> keys::keyed(final(node)@),
{
    broadcast use model::group_views;

    proof {
        if let Some(id) = named_app(body@) {
            keys::lemma_removal(node@, id, target, now, retention);
        }
    }
    let mut out: Vec<Effect> = Vec::new();
    assert(model::views(out@) =~= Seq::empty());
    let id = match read_named_app(body) {
        Some(id) => id,
        None => {
            return (None, out);
        },
    };
    let ghost n = node@;
    let device_uuid = node.device_uuid;
    let d: usize = match find_device(&node.owner.user.devices, &device_uuid) {
        Some(d) => d,
        None => {
            return (None, out);
        },
    };
    let j: usize = match find_app(&node.owner.user.devices[d].applications, &id) {
        Some(j) => j,
        None => {
            return (None, out);
        },
    };
    let removed = node.owner.user.devices[d].applications.remove(j);
    let ghost apps = app_edge::own_apps(n);
    let ghost m = app_edge::with_own_apps(n, apps.remove(j as int));
    proof {
        app_edge::lemma_same_index(n, apps.remove(j as int));
        let now_apps = node.owner.user.devices@[d as int].applications@;
        assert(model::views(now_apps) =~= apps.remove(j as int));
        assert(node@.owner.user.devices =~= m.owner.user.devices);
        assert(node@ =~= m);
    }
    out.push(Effect::Save);
    let change = Change::RemoveApplication { device_uuid, app_id: id };
    let (done, e) = request_change(node, change, target, now, retention);
    push_all(&mut out, e);
    let ghost v = removal(n, id, target, now, retention);
    if done.is_err() {
        let ghost k = node@;
        assert(k == m);
        node.owner.user.devices[d].applications.push(removed);
        proof {
            let more = app_edge::own_apps(k).push(apps[j as int]);
            let now_apps = node.owner.user.devices@[d as int].applications@;
            assert(model::views(now_apps) =~= more);
            assert(node@.owner.user.devices =~= app_edge::with_own_apps(
                k,
                more,
            ).owner.user.devices);
            assert(node@ =~= app_edge::with_own_apps(k, more));
        }
        out.push(Effect::Save);
        assert(model::views(out@) =~= v.effects);
        return (Some(UI_ERR_PUBLISH_FAILED), out);
    }
    assert(model::views(out@) =~= v.effects);
    (None, out)
}

/// Where an approval cannot be published, everything is as it was.
pub proof fn law_failed_approval_leaves_nothing(
    n: NodeView,
    id: Uuid,
    target: WriterTarget,
    now: u64,
    retention: u64,
)
    requires
        approval(n, id, target, now, retention).failed,
    ensures
        approval(n, id, target, now, retention).node == n,
{
    let apps = app_edge::own_apps(n);
    let d = app_edge::own_index(n).unwrap();
    model::lemma_first_where(n.owner.user.devices, find::device_is(n.device_uuid));
    model::lemma_first_where(apps, find::app_is(id));
    let i = model::first_where(apps, find::app_is(id)).unwrap();
    let a = apps[i];
    let up = ApplicationView { user_approved: true, ..a };
    app_edge::lemma_same_index(n, apps.update(i, up));
    let m = with_approval(n, i, true);
    assert(apps.update(i, up).update(i, a) =~= apps);
    if a.user_approved {
        assert(apps.update(i, up) =~= apps);
    }
    assert(n.owner.user.devices[d] == (DeviceView {
        applications: apps,
        ..n.owner.user.devices[d]
    }));
    let r = approval(n, id, target, now, retention).node;
    assert(r.owner.user.devices =~= n.owner.user.devices);
}

/// Where a renaming cannot be published, everything is as it was, as long as no
/// two devices share an identifier.
pub proof fn law_failed_rename_leaves_nothing(
    n: NodeView,
    id: Uuid,
    alias: Seq<char>,
    target: WriterTarget,
    now: u64,
    retention: u64,
)
    requires
        renaming(n, id, alias, target, now, retention).failed,
        forall|i: int, j: int|
            0 <= i < j < n.owner.user.devices.len() ==> (#[trigger] n.owner.user.devices[i]).uuid
                != (#[trigger] n.owner.user.devices[j]).uuid,
    ensures
        renaming(n, id, alias, target, now, retention).node == n,
{
    let devices = n.owner.user.devices;
    model::lemma_first_where(devices, device_has_app(id));
    let i = model::first_where(devices, device_has_app(id)).unwrap();
    let apps = devices[i].applications;
    model::lemma_first_where(apps, find::app_is(id));
    let j = model::first_where(apps, find::app_is(id)).unwrap();
    let up = ApplicationView { alias, ..apps[j] };
    let m = with_alias_at(n, i, j, alias);
    let u = devices[i].uuid;
    assert(model::is_first(m.owner.user.devices, find::device_is(u), i)) by {
        assert forall|k: int| 0 <= k < i implies !find::device_is(u)(
            #[trigger] m.owner.user.devices[k],
        ) by {
            assert(m.owner.user.devices[k] == devices[k]);
        }
    }
    model::lemma_first_at(m.owner.user.devices, find::device_is(u), i);
    let changed = m.owner.user.devices[i].applications;
    assert(changed =~= apps.update(j, up));
    assert(model::is_first(changed, find::app_is(id), j)) by {
        assert forall|k: int| 0 <= k < j implies !find::app_is(id)(#[trigger] changed[k]) by {
            assert(changed[k] == apps[k]);
        }
    }
    model::lemma_first_at(changed, find::app_is(id), j);
    let r = renaming(n, id, alias, target, now, retention).node;
    assert(changed.update(j, ApplicationView { alias: apps[j].alias, ..changed[j] }) =~= apps);
    assert(r.owner.user.devices =~= devices);
}

/// Where a removal cannot be published, this device runs the applications that it
/// ran before.
pub proof fn law_failed_removal_loses_nothing(
    n: NodeView,
    id: Uuid,
    target: WriterTarget,
    now: u64,
    retention: u64,
    app: ApplicationView,
)
    requires
        removal(n, id, target, now, retention).failed,
    ensures
        app_edge::own_apps(removal(n, id, target, now, retention).node).contains(app)
            <==> app_edge::own_apps(n).contains(app),
        app_edge::own_apps(removal(n, id, target, now, retention).node).len()
            == app_edge::own_apps(n).len(),
{
    let apps = app_edge::own_apps(n);
    model::lemma_first_where(n.owner.user.devices, find::device_is(n.device_uuid));
    model::lemma_first_where(apps, find::app_is(id));
    let j = model::first_where(apps, find::app_is(id)).unwrap();
    let rest = apps.remove(j);
    app_edge::lemma_same_index(n, rest);
    let m = app_edge::with_own_apps(n, rest);
    let back = rest.push(apps[j]);
    app_edge::lemma_same_index(m, back);
    let r = removal(n, id, target, now, retention).node;
    assert(app_edge::own_apps(m) == rest);
    assert(app_edge::own_apps(r) == back);
    if apps.contains(app) {
        let k = choose|k: int| 0 <= k < apps.len() && apps[k] == app;
        if k < j {
            assert(back[k] == app);
        } else if k > j {
            assert(back[k - 1] == app);
        } else {
            assert(back[rest.len() as int] == app);
        }
    }
    if back.contains(app) {
        let k = choose|k: int| 0 <= k < back.len() && back[k] == app;
        if k == rest.len() {
            assert(apps[j] == app);
        } else if k < j {
            assert(apps[k] == app);
        } else {
            assert(apps[k + 1] == app);
        }
    }
}

} // verus!
