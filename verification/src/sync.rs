//! Carrying changes to the writer and telling others of them.
use crate::apply;
use crate::apply::{apply_change_locally, WriteError};
use crate::change;
use crate::change::{change_scopes, deserialize_change, serialize_change, Change, ChangeView};
use crate::effects::{push_all, Effect, EffectView};
use crate::find;
use crate::find::{find_conn, find_device};
use crate::keys;
use crate::model;
use crate::routing;
use crate::public_state;
use crate::public_state::{apply_public_state, serialize_public_state};
use crate::routing::{find_pull_source, find_session, find_writer_sg, ranked_servers, WriterTarget};
use crate::types::{
    uuid_eq, ActiveConnection, Contact, ContactView, DeviceGrade, DeviceView, Node, NodeView, Owner,
    OwnerView, Scope, SyncVersion, Uuid, WriteLogEntry, WriteLogEntryView,
};
use crate::wire;
use crate::wire::{
    bytes_of, push_bytes, read_byte, read_scope, read_sync_version, write_scope, write_sync_version,
    CROSS_USER_UPDATE_AVAILABLE_OP, PULL_RESULT_FULL_STATE, PULL_RESULT_NO_UPDATES,
    SYNC_PULL_REQUEST_OP, SYNC_PULL_RESPONSE_OP, SYNC_UPDATE_AVAILABLE_OP, SYNC_WRITE_ACK_OP,
    SYNC_WRITE_REQUEST_OP, WRITE_ACK_NOT_WRITER, WRITE_ACK_OK, WRITE_ACK_VALIDATION_ERROR,
};
use vstd::prelude::*;

verus! {

/// The scopes whose version moved.
pub open spec fn moved(
    pre_priv: SyncVersion,
    pre_pub: SyncVersion,
    post_priv: SyncVersion,
    post_pub: SyncVersion,
) -> Seq<Scope> {
    (if pre_priv != post_priv {
        seq![Scope::Private]
    } else {
        Seq::empty()
    }) + (if pre_pub != post_pub {
        seq![Scope::Public]
    } else {
        Seq::empty()
    })
}

/// The scopes whose version moved.
pub fn bumped_scopes(
    pre_priv: SyncVersion,
    pre_pub: SyncVersion,
    post_priv: SyncVersion,
    post_pub: SyncVersion,
) -> (r: Vec<Scope>)
    ensures
        r@ == moved(pre_priv, pre_pub, post_priv, post_pub),
{
    let mut out: Vec<Scope> = Vec::new();
    if !pre_priv.same(&post_priv) {
        out.push(Scope::Private);
    }
    if !pre_pub.same(&post_pub) {
        out.push(Scope::Public);
    }
    assert(out@ =~= moved(pre_priv, pre_pub, post_priv, post_pub));
    out
}

/// A scope and a version, as update notices and pull requests carry them.
pub open spec fn scope_and_version(scope: Scope, v: SyncVersion) -> Seq<u8> {
    seq![wire::scope_byte(scope)] + wire::enc_version(v)
}

/// A scope and a version, as update notices and pull requests carry them.
pub fn scope_version_body(scope: Scope, v: &SyncVersion) -> (r: Vec<u8>)
    ensures
        r@ == scope_and_version(scope, *v),
{
    let mut body: Vec<u8> = Vec::new();
    write_scope(&mut body, scope);
    write_sync_version(&mut body, v);
    assert(body@ =~= scope_and_version(scope, *v));
    body
}

/// The notice of a new version for each device, other than this one, with which
/// there is a session.
pub open spec fn device_notices(
    n: NodeView,
    devices: Seq<DeviceView>,
    scope: Scope,
    v: SyncVersion,
) -> Seq<EffectView>
    decreases devices.len(),
{
    if devices.len() == 0 {
        Seq::empty()
    } else {
        let rest = device_notices(n, devices.drop_last(), scope, v);
        let u = devices.last().uuid;
        match routing::session_with(n, u) {
            Some(conn) => if u != n.device_uuid {
                rest.push(
                    EffectView::Seal {
                        conn,
                        op: SYNC_UPDATE_AVAILABLE_OP,
                        body: scope_and_version(scope, v),
                    },
                )
            } else {
                rest
            },
            None => rest,
        }
    }
}

/// The notices to the user's own devices, for each scope that moved.
pub open spec fn own_notices(
    n: NodeView,
    scopes: Seq<Scope>,
    private: SyncVersion,
    public: SyncVersion,
) -> Seq<EffectView>
    decreases scopes.len(),
{
    if scopes.len() == 0 {
        Seq::empty()
    } else {
        let v = match scopes.last() {
            Scope::Private => private,
            Scope::Public => public,
        };
        own_notices(n, scopes.drop_last(), private, public) + device_notices(
            n,
            n.owner.user.devices,
            scopes.last(),
            v,
        )
    }
}

/// Notices to the user's own devices, for each scope that moved.
pub fn notify_own_peers(
    node: &Node,
    bumped: &Vec<Scope>,
    private: SyncVersion,
    public: SyncVersion,
) -> (r: Vec<Effect>)
    ensures
        model::views(r@) == own_notices(node@, bumped@, private, public),
{
    broadcast use model::group_views;

    let mut out: Vec<Effect> = Vec::new();
    let mut k: usize = 0;
    assert(bumped@.take(0) =~= Seq::empty());
    while k < bumped.len()
        invariant
            k <= bumped@.len(),
            model::views(out@) == own_notices(node@, bumped@.take(k as int), private, public),
        decreases bumped@.len() - k,
    {
        let scope = bumped[k];
        let v = match scope {
            Scope::Private => private,
            Scope::Public => public,
        };
        let ghost before = model::views(out@);
        let ghost devs = node@.owner.user.devices;
        let mut i: usize = 0;
        assert(devs.take(0) =~= Seq::empty());
        assert(before + device_notices(node@, devs.take(0), scope, v) =~= before);
        while i < node.owner.user.devices.len()
            invariant
                i <= node.owner.user.devices@.len(),
                devs == node@.owner.user.devices,
                model::views(out@) == before + device_notices(
                    node@,
                    devs.take(i as int),
                    scope,
                    v,
                ),
            decreases node.owner.user.devices@.len() - i,
        {
            proof {
                assert(devs.take(i + 1).drop_last() =~= devs.take(i as int));
                assert(devs.take(i + 1).last() == devs[i as int]);
            }
            let u = node.owner.user.devices[i].uuid;
            if !uuid_eq(&u, &node.device_uuid) {
                if let Some(conn) = find_session(node, &u) {
                    let e = Effect::Seal {
                        conn,
                        op: SYNC_UPDATE_AVAILABLE_OP,
                        body: scope_version_body(scope, &v),
                    };
                    proof {
                        let rest = device_notices(node@, devs.take(i as int), scope, v);
                        model::lemma_add_push(before, rest, e@);
                    }
                    out.push(e);
                }
            }
            i += 1;
        }
        proof {
            assert(devs.take(devs.len() as int) =~= devs);
            assert(bumped@.take(k + 1).drop_last() =~= bumped@.take(k as int));
            assert(bumped@.take(k + 1).last() == scope);
        }
        k += 1;
    }
    assert(bumped@.take(bumped@.len() as int) =~= bumped@);
    out
}

/// A server of a contact with which there is a session.
pub open spec fn connected_sg(n: NodeView) -> spec_fn(DeviceView) -> bool {
    |d: DeviceView| d.grade == DeviceGrade::SG && routing::session_with(n, d.uuid) is Some
}

/// The session with the best ranked server of a contact.
pub open spec fn contact_session(n: NodeView, c: ContactView) -> Option<ActiveConnection> {
    let s = routing::servers(c.user.devices);
    match model::first_where(s, connected_sg(n)) {
        Some(i) => routing::session_with(n, s[i].uuid),
        None => None,
    }
}

/// The notice of a new public version for each contact that can be reached.
pub open spec fn contact_notices(
    n: NodeView,
    contacts: Seq<ContactView>,
    public: SyncVersion,
) -> Seq<EffectView>
    decreases contacts.len(),
{
    if contacts.len() == 0 {
        Seq::empty()
    } else {
        let rest = contact_notices(n, contacts.drop_last(), public);
        match contact_session(n, contacts.last()) {
            Some(conn) => rest.push(
                EffectView::Seal {
                    conn,
                    op: CROSS_USER_UPDATE_AVAILABLE_OP,
                    body: scope_and_version(Scope::Public, public),
                },
            ),
            None => rest,
        }
    }
}

fn find_contact_session(node: &Node, c: &Contact) -> (r: Option<ActiveConnection>)
    ensures
        r == contact_session(node@, c@),
{
    broadcast use model::group_views;

    let devices = &c.user.devices;
    let idx = ranked_servers(devices);
    let ghost devs = model::views(devices@);
    let ghost s = routing::servers(devs);
    let mut i: usize = 0;
    while i < idx.len()
        invariant
            i <= idx@.len(),
            devs == model::views(devices@),
            devs == c@.user.devices,
            s == routing::servers(devs),
            s == routing::picked(devs, idx@),
            forall|j: int| 0 <= j < idx@.len() ==> (#[trigger] idx@[j]) < devices@.len(),
            forall|j: int| 0 <= j < i ==> !connected_sg(node@)(#[trigger] s[j]),
        decreases idx@.len() - i,
    {
        let d = &devices[idx[i]];
        assert(s[i as int] == d@);
        if d.grade == DeviceGrade::SG {
            let found = find_session(node, &d.uuid);
            if found.is_some() {
                proof {
                    assert(connected_sg(node@)(s[i as int]));
                    model::lemma_first_at(s, connected_sg(node@), i as int);
                }
                return found;
            }
        }
        i += 1;
    }
    proof {
        model::lemma_first_none(s, connected_sg(node@));
    }
    None
}

/// Notices of a new public version to the contacts that can be reached.
pub fn notify_contacts(node: &Node, public: SyncVersion) -> (r: Vec<Effect>)
    ensures
        model::views(r@) == contact_notices(node@, node@.owner.contact_users, public),
{
    broadcast use model::group_views;

    let ghost cs = node@.owner.contact_users;
    let mut out: Vec<Effect> = Vec::new();
    let mut i: usize = 0;
    assert(cs.take(0) =~= Seq::empty());
    while i < node.owner.contact_users.len()
        invariant
            i <= node.owner.contact_users@.len(),
            cs == node@.owner.contact_users,
            model::views(out@) == contact_notices(node@, cs.take(i as int), public),
        decreases node.owner.contact_users@.len() - i,
    {
        proof {
            assert(cs.take(i + 1).drop_last() =~= cs.take(i as int));
            assert(cs.take(i + 1).last() == cs[i as int]);
        }
        if let Some(conn) = find_contact_session(node, &node.owner.contact_users[i]) {
            out.push(
                Effect::Seal {
                    conn,
                    op: CROSS_USER_UPDATE_AVAILABLE_OP,
                    body: scope_version_body(Scope::Public, &public),
                },
            );
        }
        i += 1;
    }
    assert(cs.take(cs.len() as int) =~= cs);
    out
}

/// The entries committed at `cutoff` or later.
pub open spec fn committed_since(cutoff: u64) -> spec_fn(WriteLogEntryView) -> bool {
    |e: WriteLogEntryView| e.committed_at >= cutoff
}

/// The log without what is older than `retention` seconds.
pub open spec fn pruned(log: Seq<WriteLogEntryView>, now: u64, retention: u64) -> Seq<
    WriteLogEntryView,
> {
    if retention <= now {
        model::keep(log, committed_since((now - retention) as u64))
    } else {
        log
    }
}

/// Nothing leaves the log before its time, and nothing stays longer.
pub proof fn law_log_keeps_its_time(
    log: Seq<WriteLogEntryView>,
    e: WriteLogEntryView,
    now: u64,
    retention: u64,
)
    ensures
        pruned(log, now, retention).contains(e) <==> log.contains(e) && e.committed_at + retention
            >= now,
{
    if retention <= now {
        model::lemma_keep_contains(log, committed_since((now - retention) as u64), e);
    }
}

/// Drops what is older than `retention` seconds.
pub fn prune_log(log: &mut Vec<WriteLogEntry>, now: u64, retention: u64)
    ensures
        model::views(final(log)@) == pruned(model::views(old(log)@), now, retention),
{
    broadcast use model::group_views;

    if retention > now {
        return;
    }
    let cutoff: u64 = now - retention;
    let ghost s = model::views(log@);
    let mut out: Vec<WriteLogEntry> = Vec::new();
    let mut i: usize = 0;
    assert(model::views(out@) =~= model::keep(s.take(0), committed_since(cutoff)));
    while i < log.len()
        invariant
            i <= log@.len(),
            s == model::views(log@),
            model::views(out@) == model::keep(s.take(i as int), committed_since(cutoff)),
        decreases log@.len() - i,
    {
        if log[i].committed_at >= cutoff {
            out.push(log[i].clone());
        }
        proof {
            model::lemma_keep_step(s, committed_since(cutoff), i as int);
        }
        i += 1;
    }
    assert(s.take(s.len() as int) =~= s);
    *log = out;
}

/// The log with one more change in it.
pub open spec fn logged(
    log: Seq<WriteLogEntryView>,
    c: ChangeView,
    scope: Scope,
    version: SyncVersion,
    now: u64,
    retention: u64,
) -> Seq<WriteLogEntryView> {
    pruned(
        log.push(
            WriteLogEntryView {
                version,
                scope,
                change_payload: change::enc_change(c),
                committed_at: now,
            },
        ),
        now,
        retention,
    )
}

/// Records a change in the log and drops what is too old.
pub fn append_to_write_log(
    owner: &mut Owner,
    change: &Change,
    scope: Scope,
    version: SyncVersion,
    now: u64,
    retention: u64,
)
    ensures
        final(owner)@ == (OwnerView {
            write_log: logged(old(owner)@.write_log, change@, scope, version, now, retention),
            ..old(owner)@
        }),
{
    broadcast use model::group_views;

    owner.write_log.push(
        WriteLogEntry { version, scope, change_payload: serialize_change(change), committed_at: now },
    );
    prune_log(&mut owner.write_log, now, retention);
}

/// A version that was advanced is another one.
pub proof fn lemma_bump_moves(v: SyncVersion, writer: Uuid)
    requires
        v.room(1),
    ensures
        v.bumped(writer) != v,
{
}

/// What a change on this node, as the writer, leads to.
pub open spec fn written(
    n: NodeView,
    c: ChangeView,
    force: bool,
    now: u64,
    retention: u64,
) -> Option<(NodeView, Seq<EffectView>)> {
    match apply::committed(n.owner, c, n.device_uuid) {
        Some((changed, o)) => if !changed && !force {
            Some((n, Seq::empty()))
        } else {
            let bumped = if force {
                o.with_bump(Scope::Public, n.device_uuid)
            } else {
                o
            };
            let m = NodeView {
                owner: OwnerView {
                    write_log: logged(
                        bumped.write_log,
                        c,
                        Scope::Public,
                        bumped.public_version,
                        now,
                        retention,
                    ),
                    ..bumped
                },
                ..n
            };
            Some(
                (
                    m,
                    seq![EffectView::Save] + own_notices(
                        m,
                        seq![Scope::Public],
                        m.owner.private_version,
                        m.owner.public_version,
                    ) + contact_notices(m, m.owner.contact_users, m.owner.public_version),
                ),
            )
        },
        None => None,
    }
}

/// Makes a change on this node, as the writer: advances the version, records
/// the change and tells the user's other devices and the contacts. With `force`
/// the version moves even where the change finds its effect already there.
pub fn apply_local_change(
    node: &mut Node,
    change: &Change,
    force_bump_on_noop: bool,
    now: u64,
    retention: u64,
) -> (r: (Result<(), WriteError>, Vec<Effect>))
    requires
        old(node).owner.public_version.room(2),
    ensures
        match written(old(node)@, change@, force_bump_on_noop, now, retention) {
            Some((m, e)) => {
                &&& r.0 is Ok
                &&& final(node)@ == m
                &&& model::views(r.1@) == e
            },
            None => {
                &&& r.0 matches Err(WriteError::Validation(m)) && m@ == apply::unknown_device(
                    apply::named_device(change@),
                )
                &&& final(node)@ == old(node)@
                &&& r.1@.len() == 0
            },
        },
        keys::keyed(old(node)@) ==> keys::keyed(final(node)@),
{
    broadcast use model::group_views;

    proof {
        keys::lemma_requested(
            node@,
            change@,
            WriterTarget::Local,
            force_bump_on_noop,
            now,
            retention,
        );
    }
    let local = node.device_uuid;
    let pre_priv = node.owner.private_version;
    let pre_pub = node.owner.public_version;
    proof {
        apply::law_apply_frame(node@.owner, change@);
        apply::law_no_change_is_no_change(node@.owner, change@);
        lemma_bump_moves(pre_pub, local);
    }
    match apply_change_locally(&mut node.owner, change, local) {
        Ok(_) => {},
        Err(e) => {
            return (Err(e), Vec::new());
        },
    }
    let bumped: Vec<Scope> = if force_bump_on_noop {
        let scopes = change_scopes(change);
        node.owner.bump_version(scopes[0], local);
        scopes
    } else {
        bumped_scopes(pre_priv, pre_pub, node.owner.private_version, node.owner.public_version)
    };
    if bumped.len() == 0 {
        return (Ok(()), Vec::new());
    }
    assert(bumped@ =~= seq![Scope::Public]);
    let post_priv = node.owner.private_version;
    let post_pub = node.owner.public_version;
    append_to_write_log(&mut node.owner, change, bumped[0], post_pub, now, retention);
    let mut out: Vec<Effect> = Vec::new();
    out.push(Effect::Save);
    push_all(&mut out, notify_own_peers(node, &bumped, post_priv, post_pub));
    push_all(&mut out, notify_contacts(node, post_pub));
    proof {
        let w = written(old(node)@, change@, force_bump_on_noop, now, retention);
        let (_, e) = w.unwrap();
        assert(model::views(out@) =~= e);
    }
    (Ok(()), out)
}

/// How a request for a change ended.
pub enum WriteOutcome {
    Done,
    Unreachable,
    Invalid(Seq<char>),
}

pub open spec fn outcome(r: Result<(), WriteError>) -> WriteOutcome {
    match r {
        Ok(()) => WriteOutcome::Done,
        Err(WriteError::Unreachable) => WriteOutcome::Unreachable,
        Err(WriteError::Validation(m)) => WriteOutcome::Invalid(m@),
    }
}

/// One sealed packet to the peer of a session, if there is one.
pub open spec fn sealed(conn: Option<ActiveConnection>, op: u8, body: Seq<u8>) -> Seq<EffectView> {
    match conn {
        Some(conn) => seq![EffectView::Seal { conn, op, body }],
        None => Seq::empty(),
    }
}

/// One sealed packet to the peer of a session, if there is one.
pub fn seal_to(conn: Option<ActiveConnection>, op: u8, body: Vec<u8>) -> (r: Vec<Effect>)
    ensures
        model::views(r@) == sealed(conn, op, body@),
{
    broadcast use model::group_views;

    let mut out: Vec<Effect> = Vec::new();
    if let Some(conn) = conn {
        out.push(Effect::Seal { conn, op, body });
    }
    assert(model::views(out@) =~= sealed(conn, op, body@));
    out
}

/// What comes of asking for a change: the writer makes it, other nodes send it
/// to the writer, and without a writer it is refused.
pub open spec fn requested(
    n: NodeView,
    c: ChangeView,
    target: WriterTarget,
    force: bool,
    now: u64,
    retention: u64,
) -> (WriteOutcome, NodeView, Seq<EffectView>) {
    match target {
        WriterTarget::Local => match written(n, c, force, now, retention) {
            Some((m, e)) => (WriteOutcome::Done, m, e),
            None => (
                WriteOutcome::Invalid(apply::unknown_device(apply::named_device(c))),
                n,
                Seq::empty(),
            ),
        },
        WriterTarget::Remote(u) => (
            WriteOutcome::Done,
            n,
            sealed(routing::session_with(n, u), SYNC_WRITE_REQUEST_OP, change::enc_change(c)),
        ),
        WriterTarget::Unreachable => (WriteOutcome::Unreachable, n, Seq::empty()),
    }
}

fn request_change_inner(
    node: &mut Node,
    change: &Change,
    target: WriterTarget,
    force_bump_on_noop: bool,
    now: u64,
    retention: u64,
) -> (r: (Result<(), WriteError>, Vec<Effect>))
    requires
        old(node).owner.public_version.room(2),
    ensures
        (outcome(r.0), final(node)@, model::views(r.1@)) == requested(
            old(node)@,
            change@,
            target,
            force_bump_on_noop,
            now,
            retention,
        ),
{
    broadcast use model::group_views;

    match target {
        WriterTarget::Local => {
            let r = apply_local_change(node, change, force_bump_on_noop, now, retention);
            assert(r.1@.len() == 0 ==> model::views(r.1@) =~= Seq::empty());
            r
        },
        WriterTarget::Remote(u) => {
            let e = seal_to(find_session(node, &u), SYNC_WRITE_REQUEST_OP, serialize_change(change));
            (Ok(()), e)
        },
        WriterTarget::Unreachable => (Err(WriteError::Unreachable), Vec::new()),
    }
}

/// Asks for a change that its originator has already made in its own records.
/// On the writer the version moves even where nothing is left to change.
pub fn request_change(
    node: &mut Node,
    change: Change,
    target: WriterTarget,
    now: u64,
    retention: u64,
) -> (r: (Result<(), WriteError>, Vec<Effect>))
    requires
        old(node).owner.public_version.room(2),
    ensures
        (outcome(r.0), final(node)@, model::views(r.1@)) == requested(
            old(node)@,
            change@,
            target,
            true,
            now,
            retention,
        ),
        keys::keyed(old(node)@) ==> keys::keyed(final(node)@),
{
    proof {
        keys::lemma_requested(node@, change@, target, true, now, retention);
    }
    request_change_inner(node, &change, target, true, now, retention)
}

/// Asks for a change that is made here only. On the writer nothing happens
/// where nothing is left to change.
pub fn request_change_idempotent(
    node: &mut Node,
    change: Change,
    target: WriterTarget,
    now: u64,
    retention: u64,
) -> (r: (Result<(), WriteError>, Vec<Effect>))
    requires
        old(node).owner.public_version.room(2),
    ensures
        (outcome(r.0), final(node)@, model::views(r.1@)) == requested(
            old(node)@,
            change@,
            target,
            false,
            now,
            retention,
        ),
        keys::keyed(old(node)@) ==> keys::keyed(final(node)@),
{
    proof {
        keys::lemma_requested(node@, change@, target, false, now, retention);
    }
    request_change_inner(node, &change, target, false, now, retention)
}

/// Asking again for a change that the writer has made is a true no-op: no new
/// version, no new log entry, no notices.
pub proof fn law_idempotent_request(n: NodeView, c: ChangeView, now: u64, later: u64, retention: u64)
    requires
        n.owner.public_version.room(2),
        requested(n, c, WriterTarget::Local, false, now, retention).0 is Done,
    ensures
        ({
            let m = requested(n, c, WriterTarget::Local, false, now, retention).1;
            requested(m, c, WriterTarget::Local, false, later, retention) == (
                WriteOutcome::Done,
                m,
                Seq::<EffectView>::empty(),
            )
        }),
{
    apply::law_apply_twice(n.owner, c);
    apply::law_no_change_is_no_change(n.owner, c);
    apply::law_apply_frame(n.owner, c);
    let (b, o) = apply::applied(n.owner, c).unwrap();
    if b {
        let m = requested(n, c, WriterTarget::Local, false, now, retention).1;
        lemma_applied_elsewhere(o, m.owner, c);
        assert(apply::applied(m.owner, c) matches Some((x, _)) && !x);
        apply::law_no_change_is_no_change(m.owner, c);
    }
}

/// Whether a change finds anything to do depends on the devices and contacts
/// alone.
proof fn lemma_applied_elsewhere(a: OwnerView, b: OwnerView, c: ChangeView)
    requires
        a.user == b.user,
        a.contact_users == b.contact_users,
    ensures
        apply::applied(a, c) is Some <==> apply::applied(b, c) is Some,
        apply::applied(a, c) is Some ==> apply::applied(a, c).unwrap().0 == apply::applied(
            b,
            c,
        ).unwrap().0,
{
}

/// A change whose parts fit reaches the writer as it was asked for.
pub proof fn law_change_reaches_writer(
    n: NodeView,
    c: ChangeView,
    u: Uuid,
    force: bool,
    now: u64,
    retention: u64,
)
    requires
        change::plain_change(c),
        routing::session_with(n, u) is Some,
    ensures
        ({
            let e = requested(n, c, WriterTarget::Remote(u), force, now, retention).2;
            &&& e.len() == 1
            &&& e[0] matches EffectView::Seal { conn, op, body } && conn.device_uuid == u && op
                == SYNC_WRITE_REQUEST_OP && change::parse_change(body) == Some(c)
        }),
{
    change::law_change_roundtrip(c);
    model::lemma_first_where(n.owner.active_connections, find::conn_to(u));
}

/// The session with the identifier `id`.
pub open spec fn session(n: NodeView, id: u16) -> Option<ActiveConnection> {
    match model::first_where(n.owner.active_connections, find::conn_has_id(id)) {
        Some(i) => Some(n.owner.active_connections[i]),
        None => None,
    }
}

/// The session with the identifier `id`.
pub fn find_session_by_id(node: &Node, id: u16) -> (r: Option<ActiveConnection>)
    ensures
        r == session(node@, id),
{
    match find_conn(&node.owner.active_connections, id) {
        Some(i) => Some(node.owner.active_connections[i]),
        None => None,
    }
}

/// The answer to a write request: a result byte and the current versions.
pub open spec fn write_ack(result: u8, private: SyncVersion, public: SyncVersion) -> Seq<u8> {
    seq![result] + wire::enc_version(private) + wire::enc_version(public)
}

/// The answer to a write request: a result byte and the current versions.
pub fn build_write_ack_body(result: u8, private: SyncVersion, public: SyncVersion) -> (r: Vec<u8>)
    ensures
        r@ == write_ack(result, private, public),
{
    let mut body: Vec<u8> = Vec::new();
    body.push(result);
    write_sync_version(&mut body, &private);
    write_sync_version(&mut body, &public);
    assert(body@ =~= write_ack(result, private, public));
    body
}

/// What a write request that can be read leads to: the writer makes the
/// change, answers and tells others; a node that is not the writer says so.
pub open spec fn write_requested(
    n: NodeView,
    conn_id: u16,
    c: ChangeView,
    now: u64,
    retention: u64,
) -> (NodeView, Seq<EffectView>) {
    let is_writer = routing::writer(n) == WriterTarget::Local;
    let tried = apply::committed(n.owner, c, n.device_uuid);
    let result = if !is_writer {
        WRITE_ACK_NOT_WRITER
    } else if tried is None {
        WRITE_ACK_VALIDATION_ERROR
    } else {
        WRITE_ACK_OK
    };
    let changed = is_writer && tried is Some && tried.unwrap().0;
    let m = if changed {
        NodeView { owner: tried.unwrap().1, ..n }
    } else {
        n
    };
    let ack = write_ack(result, m.owner.private_version, m.owner.public_version);
    let save = if changed {
        seq![EffectView::Save]
    } else {
        Seq::empty()
    };
    match session(m, conn_id) {
        None => (m, save),
        Some(conn) => {
            let answer = EffectView::Seal { conn, op: SYNC_WRITE_ACK_OP, body: ack };
            if changed {
                let k = NodeView {
                    owner: OwnerView {
                        write_log: logged(
                            m.owner.write_log,
                            c,
                            Scope::Public,
                            m.owner.public_version,
                            now,
                            retention,
                        ),
                        ..m.owner
                    },
                    ..m
                };
                (
                    k,
                    save.push(answer).push(EffectView::Save) + own_notices(
                        k,
                        seq![Scope::Public],
                        k.owner.private_version,
                        k.owner.public_version,
                    ) + contact_notices(k, k.owner.contact_users, k.owner.public_version),
                )
            } else {
                (m, seq![answer])
            }
        },
    }
}

/// What a packet that asks for a change leads to.
pub open spec fn write_request_taken(
    n: NodeView,
    conn_id: u16,
    d: Seq<u8>,
    now: u64,
    retention: u64,
) -> (NodeView, Seq<EffectView>) {
    match change::parse_change(d) {
        Some(c) => write_requested(n, conn_id, c, now, retention),
        None => (n, Seq::empty()),
    }
}

/// Answers a write request that arrived over the session `conn_id`. One that
/// cannot be read is dropped.
pub fn sync_write_request(
    node: &mut Node,
    conn_id: u16,
    plaintext: &[u8],
    now: u64,
    retention: u64,
) -> (r: Vec<Effect>)
    requires
        old(node).owner.public_version.room(1),
    ensures
        (final(node)@, model::views(r@)) == write_request_taken(
            old(node)@,
            conn_id,
            plaintext@,
            now,
            retention,
        ),
        keys::keyed(old(node)@) ==> keys::keyed(final(node)@),
{
    broadcast use model::group_views;

    proof {
        if let Some(c) = change::parse_change(plaintext@) {
            keys::lemma_write_requested(node@, conn_id, c, now, retention);
        }
    }
    let change = match deserialize_change(plaintext) {
        Some(c) => c,
        None => { return Vec::new(); },
    };
    let local = node.device_uuid;
    let pre_priv = node.owner.private_version;
    let pre_pub = node.owner.public_version;
    proof {
        apply::law_apply_frame(node@.owner, change@);
        apply::law_no_change_is_no_change(node@.owner, change@);
        lemma_bump_moves(pre_pub, local);
    }
    let mut result: u8 = WRITE_ACK_NOT_WRITER;
    let mut bumped: Vec<Scope> = Vec::new();
    match find_writer_sg(node) {
        WriterTarget::Local => {
            match apply_change_locally(&mut node.owner, &change, local) {
                Ok((priv_v, pub_v)) => {
                    result = WRITE_ACK_OK;
                    bumped = bumped_scopes(pre_priv, pre_pub, priv_v, pub_v);
                },
                Err(_) => {
                    result = WRITE_ACK_VALIDATION_ERROR;
                },
            }
        },
        _ => {},
    }
    let private_v = node.owner.private_version;
    let public_v = node.owner.public_version;
    let mut out: Vec<Effect> = Vec::new();
    if bumped.len() > 0 {
        assert(bumped@ =~= seq![Scope::Public]);
        out.push(Effect::Save);
    }
    let ghost (want_node, want) = write_requested(old(node)@, conn_id, change@, now, retention);
    let conn = match find_session_by_id(node, conn_id) {
        Some(c) => c,
        None => {
            assert(model::views(out@) =~= want);
            return out;
        },
    };
    let body = build_write_ack_body(result, private_v, public_v);
    out.push(Effect::Seal { conn, op: SYNC_WRITE_ACK_OP, body });
    if bumped.len() > 0 {
        append_to_write_log(&mut node.owner, &change, bumped[0], public_v, now, retention);
        out.push(Effect::Save);
        push_all(&mut out, notify_own_peers(node, &bumped, private_v, public_v));
        push_all(&mut out, notify_contacts(node, public_v));
    }
    assert(model::views(out@) =~= want);
    out
}

/// A writer's answer to a write request.
#[derive(Clone, Copy, PartialEq, Eq, Debug)]
pub struct WriteAck {
    pub result: u8,
    pub private: SyncVersion,
    pub public: SyncVersion,
}

pub open spec fn parse_write_ack(d: Seq<u8>) -> Option<WriteAck> {
    match wire::parse_byte(d, 0) {
        Some((result, p)) => match wire::parse_version(d, p) {
            Some((private, q)) => match wire::parse_version(d, q) {
                Some((public, _)) => Some(WriteAck { result, private, public }),
                None => None,
            },
            None => None,
        },
        None => None,
    }
}

/// Reads a writer's answer; `None` if it is truncated. Nothing else is done
/// with it.
pub fn sync_write_ack(plaintext: &[u8]) -> (r: Option<WriteAck>)
    ensures
        r == parse_write_ack(plaintext@),
{
    let mut pos: usize = 0;
    let result: u8 = match read_byte(plaintext, &mut pos) {
        Some(b) => b,
        None => { return None; },
    };
    let private: SyncVersion = match read_sync_version(plaintext, &mut pos) {
        Some(v) => v,
        None => { return None; },
    };
    match read_sync_version(plaintext, &mut pos) {
        Some(public) => Some(WriteAck { result, private, public }),
        None => None,
    }
}

/// The originator reads the answer that the writer wrote.
pub proof fn law_write_ack_roundtrip(result: u8, private: SyncVersion, public: SyncVersion)
    ensures
        parse_write_ack(write_ack(result, private, public)) == Some(
            WriteAck { result, private, public },
        ),
{
    let d = write_ack(result, private, public);
    wire::lemma_stands_whole(d);
    wire::lemma_stands_split(
        d,
        0,
        seq![result] + wire::enc_version(private),
        wire::enc_version(public),
    );
    wire::lemma_stands_split(d, 0, seq![result], wire::enc_version(private));
    wire::lemma_byte(d, 0, result);
    wire::lemma_version(d, 1, private);
    wire::lemma_version(d, 29, public);
}

/// One of the user's own devices, and a server.
pub open spec fn own_sg(u: Uuid) -> spec_fn(DeviceView) -> bool {
    |d: DeviceView| d.uuid == u && d.grade == DeviceGrade::SG
}

/// Whether `u` is one of the user's own servers.
pub open spec fn is_own_sg(o: OwnerView, u: Uuid) -> bool {
    model::any_where(o.user.devices, own_sg(u))
}

/// Whether `peer_uuid` is one of the user's own servers.
pub fn is_own_user_sg(owner: &Owner, peer_uuid: &Uuid) -> (r: bool)
    ensures
        r == is_own_sg(owner@, *peer_uuid),
{
    broadcast use model::group_views;

    let ghost s = owner@.user.devices;
    let mut i: usize = 0;
    while i < owner.user.devices.len()
        invariant
            i <= owner.user.devices@.len(),
            s == owner@.user.devices,
            forall|j: int| 0 <= j < i ==> !own_sg(*peer_uuid)(#[trigger] s[j]),
        decreases owner.user.devices@.len() - i,
    {
        let d = &owner.user.devices[i];
        if uuid_eq(&d.uuid, peer_uuid) && d.grade == DeviceGrade::SG {
            assert(own_sg(*peer_uuid)(s[i as int]));
            return true;
        }
        assert(!own_sg(*peer_uuid)(s[i as int]));
        i += 1;
    }
    false
}

/// Whether this node is a server.
pub fn local_is_sg(node: &Node) -> (r: bool)
    ensures
        r == is_own_sg(node@.owner, node@.device_uuid),
{
    is_own_user_sg(&node.owner, &node.device_uuid)
}

/// Someone who knows `known` has to pull to learn of `announced`: it is later,
/// or of another writer.
pub open spec fn behind(known: SyncVersion, announced: SyncVersion) -> bool {
    ||| announced.writer_sg_uuid != known.writer_sg_uuid
    ||| announced.epoch > known.epoch
    ||| announced.epoch == known.epoch && announced.seq > known.seq
}

/// Whether someone who knows `known` has to pull to learn of `announced`.
pub fn needs_pull(known: &SyncVersion, announced: &SyncVersion) -> (r: bool)
    ensures
        r == behind(*known, *announced),
{
    !uuid_eq(&announced.writer_sg_uuid, &known.writer_sg_uuid) || announced.epoch > known.epoch || (
    announced.epoch == known.epoch && announced.seq > known.seq)
}

/// Whoever knew the version before a change has to pull once they hear of it.
pub proof fn law_bump_is_noticed(v: SyncVersion, writer: Uuid)
    requires
        v.room(1),
    ensures
        behind(v, v.bumped(writer)),
        !behind(v, v),
{
}

pub open spec fn parse_scope_version(d: Seq<u8>) -> Option<(Scope, SyncVersion)> {
    match wire::parse_scope(d, 0) {
        Some((s, p)) => match wire::parse_version(d, p) {
            Some((v, _)) => Some((s, v)),
            None => None,
        },
        None => None,
    }
}

/// Reads a scope and a version.
pub fn read_scope_version(data: &[u8]) -> (r: Option<(Scope, SyncVersion)>)
    ensures
        r == parse_scope_version(data@),
{
    let mut pos: usize = 0;
    let scope = match read_scope(data, &mut pos) {
        Some(s) => s,
        None => { return None; },
    };
    match read_sync_version(data, &mut pos) {
        Some(v) => Some((scope, v)),
        None => None,
    }
}

/// A notice or a pull request is read as it was written.
pub proof fn law_scope_version_roundtrip(scope: Scope, v: SyncVersion)
    ensures
        parse_scope_version(scope_and_version(scope, v)) == Some((scope, v)),
{
    let d = scope_and_version(scope, v);
    wire::lemma_stands_whole(d);
    wire::lemma_stands_split(d, 0, seq![wire::scope_byte(scope)], wire::enc_version(v));
    wire::lemma_scope(d, 0, scope);
    wire::lemma_version(d, 1, v);
}

/// What a notice of a new version leads to: a pull over the session it came
/// from, unless it says nothing new. Between two servers of the same user
/// notices are ignored; they reconcile by merging.
pub open spec fn update_announced(n: NodeView, conn_id: u16, scope: Scope, v: SyncVersion) -> Seq<
    EffectView,
> {
    let conn = session(n, conn_id);
    let local_sg = match n.owner.device_index(n.device_uuid) {
        Some(i) => n.owner.user.devices[i].grade == DeviceGrade::SG,
        None => false,
    };
    let peer_sg = conn is Some && is_own_sg(n.owner, conn->0.device_uuid);
    let known = n.owner.version(scope);
    if (local_sg && peer_sg) || !behind(known, v) {
        Seq::empty()
    } else {
        sealed(conn, SYNC_PULL_REQUEST_OP, scope_and_version(scope, known))
    }
}

/// Reacts to a notice of a new version. One that cannot be read is dropped.
pub fn sync_update_available(node: &Node, conn_id: u16, plaintext: &[u8]) -> (r: Vec<Effect>)
    ensures
        model::views(r@) == notice_followed(node@, conn_id, plaintext@),
{
    broadcast use model::group_views;

    let (scope, announced) = match read_scope_version(plaintext) {
        Some(x) => x,
        None => { return Vec::new(); },
    };
    let local_sg = match find_device(&node.owner.user.devices, &node.device_uuid) {
        Some(i) => node.owner.user.devices[i].grade == DeviceGrade::SG,
        None => false,
    };
    let conn = find_session_by_id(node, conn_id);
    let peer_sg = match conn {
        Some(c) => is_own_user_sg(&node.owner, &c.device_uuid),
        None => false,
    };
    let known = node.owner.version(scope);
    if (local_sg && peer_sg) || !needs_pull(&known, &announced) {
        return Vec::new();
    }
    seal_to(conn, SYNC_PULL_REQUEST_OP, scope_version_body(scope, &known))
}

/// The answer to a pull: nothing new, or the whole state.
pub open spec fn pull_answer(scope: Scope, current: SyncVersion, seen: SyncVersion, state: Seq<u8>) -> Seq<
    u8,
> {
    if seen == current {
        seq![wire::scope_byte(scope), PULL_RESULT_NO_UPDATES] + wire::enc_version(current)
    } else {
        seq![wire::scope_byte(scope), PULL_RESULT_FULL_STATE] + wire::enc_version(current) + state
    }
}

/// The answer to a pull: nothing new, or the whole state.
pub fn pull_answer_body(
    scope: Scope,
    current: &SyncVersion,
    seen: &SyncVersion,
    state: &Vec<u8>,
) -> (r: Vec<u8>)
    ensures
        r@ == pull_answer(scope, *current, *seen, state@),
{
    let mut body: Vec<u8> = Vec::new();
    write_scope(&mut body, scope);
    if seen.same(current) {
        body.push(PULL_RESULT_NO_UPDATES);
        write_sync_version(&mut body, current);
    } else {
        body.push(PULL_RESULT_FULL_STATE);
        write_sync_version(&mut body, current);
        push_bytes(&mut body, state.as_slice());
    }
    assert(body@ =~= pull_answer(scope, *current, *seen, state@));
    body
}

/// The state that a pull of a scope carries; the private scope carries none.
pub open spec fn scope_state(n: NodeView, scope: Scope) -> Seq<u8> {
    match scope {
        Scope::Public => public_state::enc_public_state(public_state::public_part(n)),
        Scope::Private => Seq::empty(),
    }
}

/// What a pull leads to: an answer over the session it came from.
pub open spec fn pull_replied(n: NodeView, conn_id: u16, d: Seq<u8>) -> Seq<EffectView> {
    match parse_scope_version(d) {
        Some((scope, seen)) => sealed(
            session(n, conn_id),
            SYNC_PULL_RESPONSE_OP,
            pull_answer(scope, n.owner.version(scope), seen, scope_state(n, scope)),
        ),
        None => Seq::empty(),
    }
}

/// What a notice leads to, if it can be read.
pub open spec fn notice_followed(n: NodeView, conn_id: u16, d: Seq<u8>) -> Seq<EffectView> {
    match parse_scope_version(d) {
        Some((scope, v)) => update_announced(n, conn_id, scope, v),
        None => Seq::empty(),
    }
}

/// Answers a pull over the session it came from. One that cannot be read is
/// dropped.
pub fn sync_pull_request(node: &Node, conn_id: u16, plaintext: &[u8]) -> (r: Vec<Effect>)
    ensures
        model::views(r@) == pull_replied(node@, conn_id, plaintext@),
{
    broadcast use model::group_views;

    let (scope, seen) = match read_scope_version(plaintext) {
        Some(x) => x,
        None => { return Vec::new(); },
    };
    let state: Vec<u8> = match scope {
        Scope::Public => serialize_public_state(node),
        Scope::Private => Vec::new(),
    };
    assert(state@ =~= scope_state(node@, scope));
    let current = node.owner.version(scope);
    let body = pull_answer_body(scope, &current, &seen, &state);
    seal_to(find_session_by_id(node, conn_id), SYNC_PULL_RESPONSE_OP, body)
}

/// An answer to a pull: the scope, the result, the version, and where the state
/// begins.
pub open spec fn parse_pull_answer(d: Seq<u8>) -> Option<(Scope, u8, SyncVersion, int)> {
    match wire::parse_scope(d, 0) {
        Some((scope, p)) => match wire::parse_byte(d, p) {
            Some((result, q)) => match wire::parse_version(d, q) {
                Some((v, r)) => Some((scope, result, v, r)),
                None => None,
            },
            None => None,
        },
        None => None,
    }
}

/// Reads an answer to a pull.
pub fn read_pull_answer(data: &[u8]) -> (r: Option<(Scope, u8, SyncVersion, usize)>)
    ensures
        match parse_pull_answer(data@) {
            Some((s, b, v, p)) => r == Some((s, b, v, p as usize)) && 0 <= p <= data@.len(),
            None => r is None,
        },
{
    let mut pos: usize = 0;
    let scope = match read_scope(data, &mut pos) {
        Some(s) => s,
        None => { return None; },
    };
    let result: u8 = match read_byte(data, &mut pos) {
        Some(b) => b,
        None => { return None; },
    };
    match read_sync_version(data, &mut pos) {
        Some(v) => Some((scope, result, v, pos)),
        None => None,
    }
}

impl OwnerView {
    pub open spec fn with_version(self, scope: Scope, v: SyncVersion) -> OwnerView {
        match scope {
            Scope::Private => OwnerView { private_version: v, ..self },
            Scope::Public => OwnerView { public_version: v, ..self },
        }
    }
}

/// The node after an answer to a pull, if the answer can be taken over: with
/// nothing new the version is pinned, and a whole state replaces what is known.
pub open spec fn pull_taken(n: NodeView, d: Seq<u8>) -> Option<NodeView> {
    match parse_pull_answer(d) {
        Some((scope, result, v, p)) => if result == PULL_RESULT_NO_UPDATES {
            Some(NodeView { owner: n.owner.with_version(scope, v), ..n })
        } else if result == PULL_RESULT_FULL_STATE {
            let blob = d.subrange(p, d.len() as int);
            match scope {
                Scope::Public => match public_state::parse_public_state(blob) {
                    Some(s) => {
                        let m = public_state::pulled(n, s);
                        Some(NodeView { owner: m.owner.with_version(scope, v), ..m })
                    },
                    None => None,
                },
                Scope::Private => if blob.len() == 0 {
                    Some(NodeView { owner: n.owner.with_version(scope, v), ..n })
                } else {
                    None
                },
            }
        } else {
            None
        },
        None => None,
    }
}

/// Takes over an answer to a pull. One that is malformed changes neither the
/// state nor the version.
pub fn sync_pull_response(node: &mut Node, plaintext: &[u8]) -> (r: Vec<Effect>)
    ensures
        match pull_taken(old(node)@, plaintext@) {
            Some(m) => final(node)@ == m && model::views(r@) == seq![EffectView::Save],
            None => final(node)@ == old(node)@ && r@.len() == 0,
        },
        keys::keyed(old(node)@) ==> keys::keyed(final(node)@),
{
    broadcast use model::group_views;

    proof {
        keys::lemma_pull_taken(node@, plaintext@);
    }
    let (scope, result, v, p) = match read_pull_answer(plaintext) {
        Some(x) => x,
        None => { return Vec::new(); },
    };
    if result == PULL_RESULT_FULL_STATE {
        let blob = bytes_of(plaintext, p, plaintext.len());
        let applied = match scope {
            Scope::Public => apply_public_state(node, blob.as_slice()),
            Scope::Private => blob.len() == 0,
        };
        if !applied {
            return Vec::new();
        }
    } else if result != PULL_RESULT_NO_UPDATES {
        return Vec::new();
    }
    match scope {
        Scope::Private => {
            node.owner.private_version = v;
        },
        Scope::Public => {
            node.owner.public_version = v;
        },
    }
    let mut out: Vec<Effect> = Vec::new();
    out.push(Effect::Save);
    assert(model::views(out@) =~= seq![EffectView::Save]);
    out
}

proof fn lemma_head(a: u8, b: u8, v: Seq<u8>, tail: Seq<u8>)
    ensures
        seq![a, b] + v + tail == seq![a] + (seq![b] + (v + tail)),
        tail.len() == 0 ==> seq![a, b] + v == seq![a] + (seq![b] + (v + tail)),
{
    assert(seq![a, b] + v + tail =~= seq![a] + (seq![b] + (v + tail)));
    if tail.len() == 0 {
        assert(seq![a, b] + v =~= seq![a] + (seq![b] + (v + tail)));
    }
}

/// An answer to a pull is read as it was written.
pub proof fn lemma_pull_answer_read(
    scope: Scope,
    current: SyncVersion,
    seen: SyncVersion,
    state: Seq<u8>,
)
    ensures
        ({
            let d = pull_answer(scope, current, seen, state);
            let result = if seen == current {
                PULL_RESULT_NO_UPDATES
            } else {
                PULL_RESULT_FULL_STATE
            };
            &&& parse_pull_answer(d) == Some((scope, result, current, 30int))
            &&& d.len() == if seen == current {
                30
            } else {
                30 + state.len()
            }
        }),
{
    let d = pull_answer(scope, current, seen, state);
    let b = wire::scope_byte(scope);
    let v = wire::enc_version(current);
    let result = if seen == current {
        PULL_RESULT_NO_UPDATES
    } else {
        PULL_RESULT_FULL_STATE
    };
    let tail = if seen == current {
        Seq::empty()
    } else {
        state
    };
    lemma_head(b, result, v, tail);
    wire::lemma_stands_whole(d);
    wire::lemma_stands_split(d, 0, seq![b], seq![result] + (v + tail));
    wire::lemma_stands_split(d, 1, seq![result], v + tail);
    wire::lemma_stands_split(d, 2, v, tail);
    wire::lemma_scope(d, 0, scope);
    wire::lemma_byte(d, 1, result);
    wire::lemma_version(d, 2, current);
}

/// The state stands behind the head of an answer.
pub proof fn lemma_pull_answer_state(
    scope: Scope,
    current: SyncVersion,
    seen: SyncVersion,
    state: Seq<u8>,
)
    requires
        seen != current,
    ensures
        pull_answer(scope, current, seen, state).subrange(
            30,
            pull_answer(scope, current, seen, state).len() as int,
        ) == state,
{
    let d = pull_answer(scope, current, seen, state);
    let v = wire::enc_version(current);
    assert(v.len() == 28);
    assert(d.subrange(30, d.len() as int) =~= state);
}

/// One pull catches up: whoever takes over the answer to its pull is at the
/// version of the node that answered, holds what that node holds in public, and
/// has nothing new to pull.
pub proof fn law_pull_catches_up(a: NodeView, n: NodeView, scope: Scope)
    requires
        scope == Scope::Public ==> public_state::plain_state(public_state::public_part(n)),
    ensures
        ({
            let seen = a.owner.version(scope);
            let current = n.owner.version(scope);
            let d = pull_answer(scope, current, seen, scope_state(n, scope));
            &&& pull_taken(a, d) matches Some(m) && {
                &&& m.owner.version(scope) == current
                &&& !behind(m.owner.version(scope), current)
                &&& seen != current && scope == Scope::Public ==> m == NodeView {
                    owner: public_state::pulled(a, public_state::public_part(n)).owner.with_version(
                        scope,
                        current,
                    ),
                    ..a
                }
                &&& seen == current ==> m == a
            }
        }),
{
    let seen = a.owner.version(scope);
    let current = n.owner.version(scope);
    let state = scope_state(n, scope);
    let d = pull_answer(scope, current, seen, state);
    lemma_pull_answer_read(scope, current, seen, state);
    if seen != current {
        lemma_pull_answer_state(scope, current, seen, state);
        if scope == Scope::Public {
            public_state::law_public_state_roundtrip(public_state::public_part(n));
        }
    }
}

/// What a node that pulls asks for: both scopes, from the best server that it
/// can reach and that is not itself.
pub open spec fn pulls(n: NodeView) -> Seq<EffectView> {
    match routing::pull_source(n) {
        WriterTarget::Remote(u) => {
            let conn = routing::session_with(n, u);
            sealed(
                conn,
                SYNC_PULL_REQUEST_OP,
                scope_and_version(Scope::Public, n.owner.public_version),
            ) + sealed(
                conn,
                SYNC_PULL_REQUEST_OP,
                scope_and_version(Scope::Private, n.owner.private_version),
            )
        },
        _ => Seq::empty(),
    }
}

/// Pulls both scopes.
pub fn sync_pull(node: &Node) -> (r: Vec<Effect>)
    ensures
        model::views(r@) == pulls(node@),
{
    broadcast use model::group_views;

    match find_pull_source(node) {
        WriterTarget::Remote(u) => {
            let conn = find_session(node, &u);
            let mut out = seal_to(
                conn,
                SYNC_PULL_REQUEST_OP,
                scope_version_body(Scope::Public, &node.owner.public_version),
            );
            push_all(
                &mut out,
                seal_to(
                    conn,
                    SYNC_PULL_REQUEST_OP,
                    scope_version_body(Scope::Private, &node.owner.private_version),
                ),
            );
            out
        },
        _ => Vec::new(),
    }
}

} // verus!
