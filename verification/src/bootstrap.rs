//! Joining: redeeming invitations, registering new devices and exchanging
//! contact cards.
use crate::cards;
use crate::cards::devices_to_cards;
use crate::change::{Change, ChangeView};
use crate::cross_user;
use crate::cross_user::cross_user_pull_for_contact;
use crate::device_wire;
use crate::device_wire::{push_device, read_device};
use crate::effects::{push_all, Effect, EffectView, Task};
use crate::find;
use crate::find::find_device;
use crate::join_wire;
use crate::join_wire::{
    deserialize_bootstrap_payload, deserialize_contact_payload, serialize_bootstrap_payload,
    serialize_contact_payload, BootstrapPayloadView, ContactPayload, ContactPayloadView,
};
use crate::keys;
use crate::model;
use crate::routing::WriterTarget;
use crate::sync;
use crate::sync::{request_change, request_change_idempotent, WriteOutcome};
use crate::text::is_empty;
use crate::types::{
    clone_strings, uuid_eq, Device, DeviceGrade, DeviceView, Invitation, KeyPair, Node, NodeView,
    OwnerView, PeerAddr, PendingBootstrapView, PendingContactExchange, PendingDeviceAcceptance,
    PublicKey, SecretKey, UserView, Uuid,
};
use crate::wire;
use crate::wire::{
    bytes_of, push_uuid, slice_key, slice_uuid, BOOTSTRAP_RESPONSE_OP, CONTACT_RESPONSE_OP,
    DEVICE_REGISTER_OP,
};
use vstd::prelude::*;

verus! {

/// How many seconds a redeemed device invitation waits for its device.
pub const PENDING_ACCEPTANCE_TTL: u64 = 300;

pub open spec fn invitation_is(id: Uuid) -> spec_fn(Invitation) -> bool {
    |i: Invitation| i.id == id
}

/// The invitation `id`, if it is there and has not run out, and what is left
/// of the list: it is gone either way.
pub open spec fn redeemed(list: Seq<Invitation>, id: Uuid, now: u64) -> (
    Option<Invitation>,
    Seq<Invitation>,
) {
    match model::first_where(list, invitation_is(id)) {
        Some(i) => (
            if list[i].expires_at <= now {
                None
            } else {
                Some(list[i])
            },
            list.remove(i),
        ),
        None => (None, list),
    }
}

/// Takes an invitation out of a list; see [`redeemed`].
pub fn redeem(list: &mut Vec<Invitation>, id: &Uuid, now: u64) -> (r: Option<Invitation>)
    ensures
        (r, final(list)@) == redeemed(old(list)@, *id, now),
{
    let ghost s = list@;
    let mut i: usize = 0;
    while i < list.len()
        invariant
            i <= list@.len(),
            s == list@,
            s == old(list)@,
            forall|j: int| 0 <= j < i ==> !invitation_is(*id)(#[trigger] s[j]),
        decreases list@.len() - i,
    {
        if uuid_eq(&list[i].id, id) {
            proof {
                assert(invitation_is(*id)(s[i as int]));
                model::lemma_first_at(s, invitation_is(*id), i as int);
            }
            let inv = list.remove(i);
            return if inv.expires_at <= now {
                None
            } else {
                Some(inv)
            };
        }
        i += 1;
    }
    proof {
        model::lemma_first_none(s, invitation_is(*id));
    }
    None
}

/// An invitation can be redeemed once: in a node whose keys are unique it is not
/// there any more, whichever sort it was.
pub proof fn law_invitation_single_use(n: NodeView, id: Uuid, now: u64, later: u64)
    requires
        keys::keyed(n),
    ensures
        ({
            let rest = redeemed(n.owner.device_invitations, id, now).1;
            redeemed(rest, id, later) == (None::<Invitation>, rest)
        }),
        ({
            let rest = redeemed(n.owner.contact_invitations, id, now).1;
            redeemed(rest, id, later) == (None::<Invitation>, rest)
        }),
{
    lemma_redeemed_once(n.owner.device_invitations, id, now, later);
    lemma_redeemed_once(n.owner.contact_invitations, id, now, later);
}

proof fn lemma_redeemed_once(list: Seq<Invitation>, id: Uuid, now: u64, later: u64)
    requires
        keys::distinct(list, keys::invitation_key()),
    ensures
        redeemed(redeemed(list, id, now).1, id, later) == (
            None::<Invitation>,
            redeemed(list, id, now).1,
        ),
{
    let rest = redeemed(list, id, now).1;
    let key = keys::invitation_key();
    model::lemma_first_where(list, invitation_is(id));
    match model::first_where(list, invitation_is(id)) {
        Some(i) => {
            assert forall|j: int| 0 <= j < rest.len() implies !invitation_is(id)(
                #[trigger] rest[j],
            ) by {
                let k = if j < i {
                    j
                } else {
                    j + 1
                };
                assert(rest[j] == list[k]);
                assert(key(list[i]) != key(list[k]));
            }
            model::lemma_first_none(rest, invitation_is(id));
        },
        None => {},
    }
}

/// An invitation that was redeemed, and the key of the one who redeemed it: what
/// the key of the conversation is derived from.
#[derive(Clone, Copy, PartialEq, Eq, Debug)]
pub struct Redeemed {
    pub invitation_id: Uuid,
    pub own_secret: SecretKey,
    pub peer_public: PublicKey,
}

pub open spec fn redeemed_with(i: Option<Invitation>, d: Seq<u8>) -> Option<Redeemed> {
    match i {
        Some(inv) => Some(
            Redeemed {
                invitation_id: inv.id,
                own_secret: inv.key_pair.private_key,
                peer_public: wire::key_of(d.subrange(16, 48)),
            },
        ),
        None => None,
    }
}

/// What a bootstrap request finds: whom it comes from, if the invitation that it
/// names can be redeemed, and the state without that invitation.
pub open spec fn device_invitation_taken(n: NodeView, d: Seq<u8>, now: u64) -> (
    Option<Redeemed>,
    NodeView,
) {
    if d.len() < 48 {
        (None, n)
    } else {
        let (i, left) = redeemed(
            n.owner.device_invitations,
            wire::uuid_of(d.subrange(0, 16)),
            now,
        );
        (
            redeemed_with(i, d),
            NodeView { owner: OwnerView { device_invitations: left, ..n.owner }, ..n },
        )
    }
}

/// Takes the device invitation that a bootstrap request names.
pub fn take_device_invitation(node: &mut Node, data: &[u8], now: u64) -> (r: Option<Redeemed>)
    ensures
        (r, final(node)@) == device_invitation_taken(old(node)@, data@, now),
        keys::keyed(old(node)@) ==> keys::keyed(final(node)@),
{
    proof {
        if keys::keyed(node@) {
            keys::lemma_redeemed(
                node@.owner.device_invitations,
                wire::uuid_of(data@.subrange(0, 16)),
                now,
            );
        }
    }
    if data.len() < 48 {
        return None;
    }
    let id = match slice_uuid(data, 0) {
        Some(u) => u,
        None => { return None; },
    };
    let peer_public = match slice_key(data, 16) {
        Some(k) => k,
        None => { return None; },
    };
    match redeem(&mut node.owner.device_invitations, &id, now) {
        Some(inv) => Some(
            Redeemed {
                invitation_id: inv.id,
                own_secret: inv.key_pair.private_key,
                peer_public,
            },
        ),
        None => None,
    }
}

pub open spec fn acceptance_is(id: Uuid) -> spec_fn(PendingDeviceAcceptance) -> bool {
    |a: PendingDeviceAcceptance| a.invitation_id == id
}

pub open spec fn acceptance_is_not(id: Uuid) -> spec_fn(PendingDeviceAcceptance) -> bool {
    |a: PendingDeviceAcceptance| a.invitation_id != id
}

fn drop_acceptance(v: &mut Vec<PendingDeviceAcceptance>, id: &Uuid)
    ensures
        final(v)@ == model::keep(old(v)@, acceptance_is_not(*id)),
{
    let ghost s = v@;
    let ghost p = acceptance_is_not(*id);
    let mut out: Vec<PendingDeviceAcceptance> = Vec::new();
    let mut i: usize = 0;
    assert(out@ =~= model::keep(s.take(0), p));
    while i < v.len()
        invariant
            i <= v@.len(),
            s == v@,
            p == acceptance_is_not(*id),
            out@ == model::keep(s.take(i as int), p),
        decreases v@.len() - i,
    {
        if !uuid_eq(&v[i].invitation_id, id) {
            out.push(v[i]);
        }
        proof {
            model::lemma_keep_step(s, p, i as int);
        }
        i += 1;
    }
    assert(s.take(s.len() as int) =~= s);
    *v = out;
}

/// What a bootstrap request with a good invitation leads to: the device is told
/// everything, and its registration is awaited.
pub open spec fn bootstrapped(
    n: NodeView,
    src: PeerAddr,
    id: Uuid,
    key: SecretKey,
    now: u64,
) -> (NodeView, Seq<EffectView>) {
    let a = PendingDeviceAcceptance {
        invitation_id: id,
        shared_secret: key,
        expires_at: (now + PENDING_ACCEPTANCE_TTL) as u64,
    };
    (
        NodeView {
            owner: OwnerView {
                pending_device_acceptances: model::keep(
                    n.owner.pending_device_acceptances,
                    acceptance_is_not(id),
                ).push(a),
                ..n.owner
            },
            ..n
        },
        seq![
            EffectView::Save,
            EffectView::SealWith {
                key,
                dest: src,
                head: seq![BOOTSTRAP_RESPONSE_OP],
                body: join_wire::enc_bootstrap(join_wire::own_payload(n.owner)),
            },
        ],
    )
}

/// Answers a bootstrap request whose invitation was taken. `shared_secret` is
/// the key derived from what [`take_device_invitation`] gave.
pub fn bootstrap_request(
    node: &mut Node,
    src: PeerAddr,
    invitation_id: Uuid,
    shared_secret: SecretKey,
    now: u64,
) -> (r: Vec<Effect>)
    requires
        now + PENDING_ACCEPTANCE_TTL <= u64::MAX,
    ensures
        (final(node)@, model::views(r@)) == bootstrapped(
            old(node)@,
            src,
            invitation_id,
            shared_secret,
            now,
        ),
        keys::keyed(old(node)@) ==> keys::keyed(final(node)@),
{
    broadcast use model::group_views;

    proof {
        if keys::keyed(node@) {
            keys::lemma_bootstrapped(node@, src, invitation_id, shared_secret, now);
        }
    }
    let body = serialize_bootstrap_payload(node);
    drop_acceptance(&mut node.owner.pending_device_acceptances, &invitation_id);
    node.owner.pending_device_acceptances.push(
        PendingDeviceAcceptance {
            invitation_id,
            shared_secret,
            expires_at: now + PENDING_ACCEPTANCE_TTL,
        },
    );
    let mut head: Vec<u8> = Vec::new();
    head.push(BOOTSTRAP_RESPONSE_OP);
    assert(head@ =~= seq![BOOTSTRAP_RESPONSE_OP]);
    let mut out: Vec<Effect> = Vec::new();
    out.push(Effect::Save);
    out.push(Effect::SealWith { key: shared_secret, dest: src, head, body });
    assert(model::views(out@) =~= bootstrapped(
        old(node)@,
        src,
        invitation_id,
        shared_secret,
        now,
    ).1);
    out
}

/// What a sealed answer is decrypted with: the key of this end and of the
/// invitation, a nonce of 24 bytes, and the rest.
#[derive(Debug, PartialEq, Eq)]
pub struct SealedAnswer {
    pub own_secret: SecretKey,
    pub peer_public: PublicKey,
    pub nonce: Vec<u8>,
    pub ciphertext: Vec<u8>,
}

/// The join that is waiting for an answer from `src`.
pub open spec fn join_awaiting(n: NodeView, src: PeerAddr) -> Option<PendingBootstrapView> {
    match n.owner.pending_bootstrap {
        Some(p) => if PeerAddr::V4(p.sg_addr) == src {
            Some(p)
        } else {
            None
        },
        None => None,
    }
}

fn same_addr(a: PeerAddr, b: PeerAddr) -> (r: bool)
    ensures
        r == (a == b),
{
    a == b
}

/// How an answer is to be decrypted: the own secret key and the public key of the
/// other side, from which the key is derived, the nonce and the rest.
pub open spec fn answer_parts(own: KeyPair, other: PublicKey, d: Seq<u8>) -> Option<
    (SecretKey, PublicKey, Seq<u8>, Seq<u8>),
> {
    if d.len() >= 24 {
        Some((own.private_key, other, d.take(24), d.skip(24)))
    } else {
        None
    }
}

/// How a bootstrap response from `src` is to be decrypted.
pub open spec fn join_answer_parts(n: NodeView, src: PeerAddr, d: Seq<u8>) -> Option<
    (SecretKey, PublicKey, Seq<u8>, Seq<u8>),
> {
    match join_awaiting(n, src) {
        Some(p) => answer_parts(p.our_ephem_key_pair, p.invitation_pk, d),
        None => None,
    }
}

/// Finds how a bootstrap response is to be decrypted; `None` if none is awaited
/// from `src` or it is too short.
pub fn bootstrap_response_parts(node: &Node, src: PeerAddr, data: &[u8]) -> (r: Option<SealedAnswer>)
    ensures
        match join_answer_parts(node@, src, data@) {
            Some((own_secret, peer_public, nonce, ciphertext)) => {
                &&& r matches Some(s)
                &&& s.own_secret == own_secret
                &&& s.peer_public == peer_public
                &&& s.nonce@ == nonce
                &&& s.ciphertext@ == ciphertext
            },
            None => r is None,
        },
{
    if data.len() < 24 {
        return None;
    }
    match &node.owner.pending_bootstrap {
        Some(p) => {
            if !same_addr(PeerAddr::V4(p.sg_addr), src) {
                return None;
            }
            let nonce = bytes_of(data, 0, 24);
            let ciphertext = bytes_of(data, 24, data.len());
            assert(nonce@ =~= data@.take(24));
            assert(ciphertext@ =~= data@.skip(24));
            Some(
                SealedAnswer {
                    own_secret: p.our_ephem_key_pair.private_key,
                    peer_public: p.invitation_pk,
                    nonce,
                    ciphertext,
                },
            )
        },
        None => None,
    }
}

/// The devices with those of `more` that are new.
pub open spec fn joined(own: Seq<DeviceView>, more: Seq<DeviceView>, local: Uuid) -> Seq<DeviceView>
    decreases more.len(),
{
    if more.len() == 0 {
        own
    } else {
        let s = joined(own, more.drop_last(), local);
        let d = more.last();
        if d.uuid != local && !model::any_where(s, find::device_is(d.uuid)) {
            s.push(d)
        } else {
            s
        }
    }
}

fn join_devices(own: &mut Vec<Device>, more: Vec<Device>, local: &Uuid)
    ensures
        model::views(final(own)@) == joined(model::views(old(own)@), model::views(more@), *local),
{
    broadcast use model::group_views;

    let ghost base = model::views(own@);
    let ghost s = model::views(more@);
    let mut i: usize = 0;
    assert(s.take(0) =~= Seq::empty());
    while i < more.len()
        invariant
            i <= more@.len(),
            s == model::views(more@),
            model::views(own@) == joined(base, s.take(i as int), *local),
        decreases more@.len() - i,
    {
        proof {
            assert(s.take(i + 1).drop_last() =~= s.take(i as int));
            assert(s.take(i + 1).last() == s[i as int]);
            model::lemma_first_where(model::views(own@), find::device_is(more@[i as int].uuid));
        }
        if !uuid_eq(&more[i].uuid, local) && find_device(own, &more[i].uuid).is_none() {
            own.push(more[i].clone());
        }
        i += 1;
    }
    assert(s.take(s.len() as int) =~= s);
}

/// The local device as its user wants it. A server takes its hosts from the
/// configuration, if there are any.
pub open spec fn as_chosen(d: DeviceView, p: PendingBootstrapView, hosts: Seq<Seq<char>>) -> DeviceView {
    DeviceView {
        alias: if p.device_alias.len() > 0 {
            p.device_alias
        } else {
            d.alias
        },
        grade: p.desired_grade,
        sg_rank: p.desired_sg_rank,
        hosts: if p.desired_grade == DeviceGrade::SG && hosts.len() > 0 {
            hosts
        } else {
            d.hosts
        },
        ..d
    }
}

/// The state after a join: what the payload tells replaces what was there, but
/// this device stays among the user's devices, as its user wants it.
pub open spec fn joined_state(
    n: NodeView,
    p: PendingBootstrapView,
    b: BootstrapPayloadView,
    hosts: Seq<Seq<char>>,
) -> NodeView {
    let devices = joined(n.owner.user.devices, b.devices, n.device_uuid);
    NodeView {
        owner: OwnerView {
            user: UserView {
                alias: b.user_alias,
                uuid: b.user_uuid,
                devices: match model::first_where(devices, find::device_is(n.device_uuid)) {
                    Some(i) => devices.update(i, as_chosen(devices[i], p, hosts)),
                    None => devices,
                },
            },
            key_pair: b.key_pair,
            contact_users: b.contacts,
            pending_bootstrap: None,
            ..n.owner
        },
        ..n
    }
}

/// What a decrypted bootstrap response leads to: the join is completed and the
/// device registers with the server.
pub open spec fn join_answered(
    n: NodeView,
    p: PendingBootstrapView,
    b: BootstrapPayloadView,
    key: SecretKey,
    hosts: Seq<Seq<char>>,
) -> (NodeView, Seq<EffectView>) {
    let m = joined_state(n, p, b, hosts);
    let devices = joined(n.owner.user.devices, b.devices, n.device_uuid);
    (
        m,
        match model::first_where(devices, find::device_is(n.device_uuid)) {
            Some(i) => seq![
                EffectView::Save,
                EffectView::SealWith {
                    key,
                    dest: PeerAddr::V4(p.sg_addr),
                    head: seq![DEVICE_REGISTER_OP] + p.invitation_id@,
                    body: join_wire::enc_bare(as_chosen(devices[i], p, hosts)),
                },
                EffectView::Schedule { task: Task::MaintainConnections, delay_ms: 500 },
            ],
            None => seq![EffectView::Save],
        },
    )
}

/// What a decrypted bootstrap response from `src` leads to, if it is awaited and
/// can be read.
pub open spec fn join_response_taken(
    n: NodeView,
    src: PeerAddr,
    d: Seq<u8>,
    key: SecretKey,
    hosts: Seq<Seq<char>>,
) -> (NodeView, Seq<EffectView>) {
    match (join_awaiting(n, src), join_wire::parse_bootstrap(d)) {
        (Some(p), Some(b)) => join_answered(n, p, b, key, hosts),
        _ => (n, Seq::empty()),
    }
}

/// Takes a decrypted bootstrap response from `src`. `shared_secret` is the key it
/// was decrypted with, `hosts` the configured hosts of this device.
pub fn bootstrap_response(
    node: &mut Node,
    src: PeerAddr,
    plaintext: &[u8],
    shared_secret: SecretKey,
    hosts: &Vec<String>,
) -> (r: Vec<Effect>)
    ensures
        (final(node)@, model::views(r@)) == join_response_taken(
            old(node)@,
            src,
            plaintext@,
            shared_secret,
            model::views(hosts@),
        ),
        keys::keyed(old(node)@) ==> keys::keyed(final(node)@),
{
    broadcast use model::group_views;

    let ghost n = node@;
    let b = match deserialize_bootstrap_payload(plaintext) {
        Some(b) => b,
        None => {
            return Vec::new();
        },
    };
    let awaited = match &node.owner.pending_bootstrap {
        Some(p) => same_addr(PeerAddr::V4(p.sg_addr), src),
        None => false,
    };
    if !awaited {
        return Vec::new();
    }
    let p = match node.owner.pending_bootstrap.take() {
        Some(p) => p,
        None => {
            return Vec::new();
        },
    };
    let ghost pv = p@;
    let ghost bv = b@;
    let ghost hv = model::views(hosts@);
    let ghost devices = joined(n.owner.user.devices, bv.devices, n.device_uuid);
    let local = node.device_uuid;
    node.owner.user.alias = b.user_alias;
    node.owner.user.uuid = b.user_uuid;
    node.owner.key_pair = b.key_pair;
    join_devices(&mut node.owner.user.devices, b.devices, &local);
    node.owner.contact_users = b.contacts;
    let mut out: Vec<Effect> = Vec::new();
    out.push(Effect::Save);
    let found = find_device(&node.owner.user.devices, &local);
    match found {
        Some(i) => {
            if !is_empty(&p.device_alias) {
                node.owner.user.devices[i].alias = p.device_alias;
            }
            node.owner.user.devices[i].grade = p.desired_grade;
            node.owner.user.devices[i].sg_rank = p.desired_sg_rank;
            if p.desired_grade == DeviceGrade::SG && hosts.len() > 0 {
                node.owner.user.devices[i].hosts = clone_strings(hosts);
            }
            proof {
                let chosen = as_chosen(devices[i as int], pv, hv);
                assert(node.owner.user.devices@[i as int]@ =~= chosen);
                assert(model::views(node.owner.user.devices@) =~= devices.update(
                    i as int,
                    chosen,
                ));
            }
            let mut body: Vec<u8> = Vec::new();
            push_device(&mut body, &node.owner.user.devices[i]);
            let mut head: Vec<u8> = Vec::new();
            head.push(DEVICE_REGISTER_OP);
            push_uuid(&mut head, &p.invitation_id);
            assert(head@ =~= seq![DEVICE_REGISTER_OP] + pv.invitation_id@);
            assert(body@ =~= join_wire::enc_bare(as_chosen(devices[i as int], pv, hv)));
            out.push(
                Effect::SealWith {
                    key: shared_secret,
                    dest: PeerAddr::V4(p.sg_addr),
                    head,
                    body,
                },
            );
            out.push(Effect::Schedule { task: Task::MaintainConnections, delay_ms: 500 });
        },
        None => {},
    }
    assert(node@ =~= joined_state(n, pv, bv, hv));
    assert(model::views(out@) =~= join_answered(n, pv, bv, shared_secret, hv).1);
    out
}

/// An acceptance that has not run out.
pub open spec fn acceptable(now: u64) -> spec_fn(PendingDeviceAcceptance) -> bool {
    |a: PendingDeviceAcceptance| a.expires_at > now
}

/// A registration as it has to be decrypted: with the key agreed on, a nonce of
/// 24 bytes, and the rest.
#[derive(Debug, PartialEq, Eq)]
pub struct SealedRegistration {
    pub key: SecretKey,
    pub nonce: Vec<u8>,
    pub ciphertext: Vec<u8>,
}

/// What a registration finds: how it is to be decrypted, if its invitation was
/// redeemed not too long ago, and the state without that acceptance.
pub open spec fn acceptance_taken(n: NodeView, d: Seq<u8>, now: u64) -> (
    Option<(SecretKey, Seq<u8>, Seq<u8>)>,
    NodeView,
) {
    if d.len() < 40 {
        (None, n)
    } else {
        let id = wire::uuid_of(d.subrange(0, 16));
        let left = model::keep(n.owner.pending_device_acceptances, acceptable(now));
        (
            match model::first_where(left, acceptance_is(id)) {
                Some(i) => Some((left[i].shared_secret, d.subrange(16, 40), d.skip(40))),
                None => None,
            },
            NodeView {
                owner: OwnerView {
                    pending_device_acceptances: model::keep(left, acceptance_is_not(id)),
                    ..n.owner
                },
                ..n
            },
        )
    }
}

/// Takes the acceptance that a registration names; those that have run out go.
pub fn take_acceptance(node: &mut Node, data: &[u8], now: u64) -> (r: Option<SealedRegistration>)
    ensures
        ({
            let (found, m) = acceptance_taken(old(node)@, data@, now);
            &&& final(node)@ == m
            &&& match found {
                Some((key, nonce, ciphertext)) => {
                    &&& r matches Some(s)
                    &&& s.key == key
                    &&& s.nonce@ == nonce
                    &&& s.ciphertext@ == ciphertext
                },
                None => r is None,
            }
        }),
        keys::keyed(old(node)@) ==> keys::keyed(final(node)@),
{
    proof {
        if keys::keyed(node@) {
            keys::lemma_acceptance_taken(
                node@.owner.pending_device_acceptances,
                wire::uuid_of(data@.subrange(0, 16)),
                now,
            );
        }
    }
    if data.len() < 40 {
        return None;
    }
    let id = match slice_uuid(data, 0) {
        Some(u) => u,
        None => { return None; },
    };
    let ghost s = node.owner.pending_device_acceptances@;
    let mut left: Vec<PendingDeviceAcceptance> = Vec::new();
    let mut found: Option<SecretKey> = None;
    let mut i: usize = 0;
    assert(left@ =~= model::keep(s.take(0), acceptable(now)));
    while i < node.owner.pending_device_acceptances.len()
        invariant
            i <= node.owner.pending_device_acceptances@.len(),
            s == node.owner.pending_device_acceptances@,
            *node == *old(node),
            left@ == model::keep(s.take(i as int), acceptable(now)),
            match found {
                Some(k) => model::first_where(left@, acceptance_is(id)) matches Some(m) && 0 <= m
                    < left@.len() && model::is_first(left@, acceptance_is(id), m)
                    && left@[m].shared_secret == k,
                None => forall|j: int|
                    0 <= j < left@.len() ==> !acceptance_is(id)(#[trigger] left@[j]),
            },
        decreases node.owner.pending_device_acceptances@.len() - i,
    {
        let a = node.owner.pending_device_acceptances[i];
        if a.expires_at > now {
            let ghost before = left@;
            left.push(a);
            if uuid_eq(&a.invitation_id, &id) && found.is_none() {
                proof {
                    let m = before.len() as int;
                    assert(acceptance_is(id)(left@[m]));
                    assert forall|j: int| 0 <= j < m implies !acceptance_is(id)(
                        #[trigger] left@[j],
                    ) by {
                        assert(left@[j] == before[j]);
                    }
                    model::lemma_first_at(left@, acceptance_is(id), m);
                }
                found = Some(a.shared_secret);
            } else {
                proof {
                    if found is Some {
                        let m = model::first_where(before, acceptance_is(id)).unwrap();
                        assert(left@[m] == before[m]);
                        assert forall|j: int| 0 <= j < m implies !acceptance_is(id)(
                            #[trigger] left@[j],
                        ) by {
                            assert(left@[j] == before[j]);
                        }
                        model::lemma_first_at(left@, acceptance_is(id), m);
                    }
                }
            }
        }
        proof {
            model::lemma_keep_step(s, acceptable(now), i as int);
        }
        i += 1;
    }
    assert(s.take(s.len() as int) =~= s);
    proof {
        if found is None {
            model::lemma_first_none(left@, acceptance_is(id));
        }
    }
    node.owner.pending_device_acceptances = left;
    drop_acceptance(&mut node.owner.pending_device_acceptances, &id);
    match found {
        Some(key) => {
            let nonce = bytes_of(data, 16, 40);
            let ciphertext = bytes_of(data, 40, data.len());
            assert(ciphertext@ =~= data@.skip(40));
            Some(SealedRegistration { key, nonce, ciphertext })
        },
        None => None,
    }
}

pub open spec fn device_is_not(u: Uuid) -> spec_fn(DeviceView) -> bool {
    |d: DeviceView| d.uuid != u
}

fn drop_devices(v: &mut Vec<Device>, u: &Uuid)
    ensures
        model::views(final(v)@) == model::keep(model::views(old(v)@), device_is_not(*u)),
{
    broadcast use model::group_views;

    let ghost s = model::views(v@);
    let ghost p = device_is_not(*u);
    let mut out: Vec<Device> = Vec::new();
    let mut i: usize = 0;
    assert(model::views(out@) =~= model::keep(s.take(0), p));
    while i < v.len()
        invariant
            i <= v@.len(),
            s == model::views(v@),
            p == device_is_not(*u),
            model::views(out@) == model::keep(s.take(i as int), p),
        decreases v@.len() - i,
    {
        if !uuid_eq(&v[i].uuid, u) {
            out.push(v[i].clone());
        }
        proof {
            model::lemma_keep_step(s, p, i as int);
        }
        i += 1;
    }
    assert(s.take(s.len() as int) =~= s);
    *v = out;
}

/// The change that publishes a device.
pub open spec fn device_change(d: DeviceView) -> ChangeView {
    ChangeView::AddDevice {
        uuid: d.uuid,
        alias: d.alias,
        grade: d.grade,
        sg_rank: d.sg_rank,
        hosts: d.hosts,
    }
}

/// What the registration of a device leads to. A new device is added and
/// published; where that fails it is taken out again.
pub open spec fn device_registered(
    n: NodeView,
    d: DeviceView,
    target: WriterTarget,
    now: u64,
    retention: u64,
) -> (NodeView, Seq<EffectView>) {
    if model::any_where(n.owner.user.devices, find::device_is(d.uuid)) {
        (n, seq![EffectView::Save])
    } else {
        let m = NodeView {
            owner: n.owner.with_devices(n.owner.user.devices.push(d)),
            ..n
        };
        let (outcome, k, e) = sync::requested(m, device_change(d), target, true, now, retention);
        if outcome == WriteOutcome::Done {
            (k, seq![EffectView::Save] + e)
        } else {
            (
                NodeView {
                    owner: k.owner.with_devices(
                        model::keep(k.owner.user.devices, device_is_not(d.uuid)),
                    ),
                    ..k
                },
                seq![EffectView::Save] + e + seq![EffectView::Save],
            )
        }
    }
}

/// What the decrypted registration of a device leads to, if it can be read.
pub open spec fn registration_taken(
    n: NodeView,
    d: Seq<u8>,
    target: WriterTarget,
    now: u64,
    retention: u64,
) -> (NodeView, Seq<EffectView>) {
    match join_wire::parse_bare(d, 0) {
        Some((x, _)) => device_registered(n, x, target, now, retention),
        None => (n, Seq::empty()),
    }
}

/// Takes the decrypted registration of a device. One that cannot be read is
/// dropped.
pub fn device_registration(
    node: &mut Node,
    plaintext: &[u8],
    target: WriterTarget,
    now: u64,
    retention: u64,
) -> (r: Vec<Effect>)
    requires
        old(node).owner.public_version.room(2),
    ensures
        (final(node)@, model::views(r@)) == registration_taken(
            old(node)@,
            plaintext@,
            target,
            now,
            retention,
        ),
        keys::keyed(old(node)@) ==> keys::keyed(final(node)@),
{
    broadcast use model::group_views;

    proof {
        if let Some((d, _)) = join_wire::parse_bare(plaintext@, 0) {
            keys::lemma_device_registered(node@, d, target, now, retention);
        }
    }
    let ghost n = node@;
    let mut pos: usize = 0;
    let device = match read_device(plaintext, &mut pos) {
        Some(d) => d,
        None => {
            return Vec::new();
        },
    };
    let ghost d = device@;
    proof {
        assert(d.applications =~= Seq::empty());
        let (c, _) = device_wire::parse_device(plaintext@, 0).unwrap();
        assert(d =~= join_wire::bare_device(c));
        model::lemma_first_where(n.owner.user.devices, find::device_is(d.uuid));
    }
    let mut out: Vec<Effect> = Vec::new();
    out.push(Effect::Save);
    if find_device(&node.owner.user.devices, &device.uuid).is_some() {
        assert(model::views(out@) =~= seq![EffectView::Save]);
        return out;
    }
    let uuid = device.uuid;
    let change = Change::AddDevice {
        uuid,
        alias: device.alias.clone(),
        grade: device.grade,
        sg_rank: device.sg_rank,
        hosts: clone_strings(&device.hosts),
    };
    node.owner.user.devices.push(device);
    let (done, e) = request_change(node, change, target, now, retention);
    push_all(&mut out, e);
    if done.is_err() {
        drop_devices(&mut node.owner.user.devices, &uuid);
        out.push(Effect::Save);
    }
    assert(model::views(out@) =~= device_registered(n, d, target, now, retention).1);
    out
}

/// A contact request as it has to be decrypted: with the key derived from the
/// invitation, a nonce of 24 bytes, and the rest.
#[derive(Debug, PartialEq, Eq)]
pub struct SealedRequest {
    pub from: Redeemed,
    pub nonce: Vec<u8>,
    pub ciphertext: Vec<u8>,
}

/// What a contact request finds: whom it comes from and what is to be decrypted,
/// if the invitation that it names can be redeemed, and the state without that
/// invitation.
pub open spec fn contact_invitation_taken(n: NodeView, d: Seq<u8>, now: u64) -> (
    Option<(Redeemed, Seq<u8>, Seq<u8>)>,
    NodeView,
) {
    if d.len() < 72 {
        (None, n)
    } else {
        let (i, left) = redeemed(
            n.owner.contact_invitations,
            wire::uuid_of(d.subrange(0, 16)),
            now,
        );
        (
            match redeemed_with(i, d) {
                Some(f) => Some((f, d.subrange(48, 72), d.skip(72))),
                None => None,
            },
            NodeView { owner: OwnerView { contact_invitations: left, ..n.owner }, ..n },
        )
    }
}

/// Takes the contact invitation that a contact request names.
pub fn take_contact_invitation(node: &mut Node, data: &[u8], now: u64) -> (r: Option<SealedRequest>)
    ensures
        ({
            let (found, m) = contact_invitation_taken(old(node)@, data@, now);
            &&& final(node)@ == m
            &&& match found {
                Some((from, nonce, ciphertext)) => {
                    &&& r matches Some(s)
                    &&& s.from == from
                    &&& s.nonce@ == nonce
                    &&& s.ciphertext@ == ciphertext
                },
                None => r is None,
            }
        }),
        keys::keyed(old(node)@) ==> keys::keyed(final(node)@),
{
    proof {
        if keys::keyed(node@) {
            keys::lemma_redeemed(
                node@.owner.contact_invitations,
                wire::uuid_of(data@.subrange(0, 16)),
                now,
            );
        }
    }
    if data.len() < 72 {
        return None;
    }
    let id = match slice_uuid(data, 0) {
        Some(u) => u,
        None => { return None; },
    };
    let peer_public = match slice_key(data, 16) {
        Some(k) => k,
        None => { return None; },
    };
    match redeem(&mut node.owner.contact_invitations, &id, now) {
        Some(inv) => {
            let nonce = bytes_of(data, 48, 72);
            let ciphertext = bytes_of(data, 72, data.len());
            assert(ciphertext@ =~= data@.skip(72));
            let from = Redeemed {
                invitation_id: inv.id,
                own_secret: inv.key_pair.private_key,
                peer_public,
            };
            Some(SealedRequest { from, nonce, ciphertext })
        },
        None => None,
    }
}

/// The change that adds or refreshes a contact.
pub open spec fn contact_change(c: ContactPayloadView) -> ChangeView {
    ChangeView::UpsertContact {
        uuid: c.uuid,
        alias: c.alias,
        public_key: c.public_key,
        devices: cards::cards_of(c.devices),
    }
}

/// The pulls from a contact over the sessions with its devices.
pub open spec fn contact_pulls(n: NodeView, uuid: Uuid) -> Seq<EffectView> {
    match n.owner.contact_index(uuid) {
        Some(i) => cross_user::pulls_over(
            n,
            n.owner.active_connections,
            n.owner.contact_users[i].user.devices,
        ),
        None => Seq::empty(),
    }
}

/// What a new contact leads to on either side: it is added, wherever the writer
/// is, and pulled from over sessions that are there already.
pub open spec fn contact_added(
    n: NodeView,
    c: ContactPayloadView,
    target: WriterTarget,
    now: u64,
    retention: u64,
) -> (NodeView, Seq<EffectView>) {
    let (_, k, e) = sync::requested(n, contact_change(c), target, false, now, retention);
    (k, seq![EffectView::Save] + e + contact_pulls(k, c.uuid))
}

fn add_contact(
    node: &mut Node,
    c: ContactPayload,
    target: WriterTarget,
    now: u64,
    retention: u64,
) -> (r: Vec<Effect>)
    requires
        old(node).owner.public_version.room(2),
    ensures
        (final(node)@, model::views(r@)) == contact_added(old(node)@, c@, target, now, retention),
{
    broadcast use model::group_views;

    let uuid = c.uuid;
    let change = Change::UpsertContact {
        uuid,
        alias: c.alias,
        public_key: c.public_key,
        devices: devices_to_cards(&c.devices),
    };
    let mut out: Vec<Effect> = Vec::new();
    out.push(Effect::Save);
    let (_, e) = request_change_idempotent(node, change, target, now, retention);
    push_all(&mut out, e);
    push_all(&mut out, cross_user_pull_for_contact(node, &uuid));
    assert(model::views(out@) =~= contact_added(old(node)@, c@, target, now, retention).1);
    out
}

pub open spec fn maintain_now() -> EffectView {
    EffectView::Schedule { task: Task::MaintainConnections, delay_ms: 0 }
}

/// What the decrypted card of one who redeemed a contact invitation leads to.
pub open spec fn contact_requested(
    n: NodeView,
    src: PeerAddr,
    d: Seq<u8>,
    key: SecretKey,
    target: WriterTarget,
    now: u64,
    retention: u64,
) -> (NodeView, Seq<EffectView>) {
    match join_wire::parse_contact_payload(d) {
        Some(c) => {
            let (m, e) = contact_added(n, c, target, now, retention);
            (
                m,
                e.push(
                    EffectView::SealWith {
                        key,
                        dest: src,
                        head: seq![CONTACT_RESPONSE_OP],
                        body: join_wire::enc_contact_payload(join_wire::own_card(n.owner)),
                    },
                ).push(maintain_now()),
            )
        },
        None => (n, Seq::empty()),
    }
}

/// Takes the decrypted card of one who redeemed a contact invitation: adds the
/// contact and answers with the user's own card, sealed with the same key. One
/// that cannot be read is dropped.
pub fn contact_request(
    node: &mut Node,
    src: PeerAddr,
    plaintext: &[u8],
    shared_secret: SecretKey,
    target: WriterTarget,
    now: u64,
    retention: u64,
) -> (r: Vec<Effect>)
    requires
        old(node).owner.public_version.room(2),
    ensures
        (final(node)@, model::views(r@)) == contact_requested(
            old(node)@,
            src,
            plaintext@,
            shared_secret,
            target,
            now,
            retention,
        ),
        keys::keyed(old(node)@) ==> keys::keyed(final(node)@),
{
    broadcast use model::group_views;

    proof {
        if let Some(c) = join_wire::parse_contact_payload(plaintext@) {
            keys::lemma_requested(node@, contact_change(c), target, false, now, retention);
        }
    }
    let c = match deserialize_contact_payload(plaintext) {
        Some(c) => c,
        None => {
            return Vec::new();
        },
    };
    let body = serialize_contact_payload(node);
    let mut out = add_contact(node, c, target, now, retention);
    let mut head: Vec<u8> = Vec::new();
    head.push(CONTACT_RESPONSE_OP);
    assert(head@ =~= seq![CONTACT_RESPONSE_OP]);
    out.push(Effect::SealWith { key: shared_secret, dest: src, head, body });
    out.push(Effect::Schedule { task: Task::MaintainConnections, delay_ms: 0 });
    out
}

/// The contact exchange that is waiting for an answer from `src`.
pub open spec fn exchange_awaiting(n: NodeView, src: PeerAddr) -> Option<PendingContactExchange> {
    match n.owner.pending_contact_exchange {
        Some(p) => if PeerAddr::V4(p.sg_addr) == src {
            Some(p)
        } else {
            None
        },
        None => None,
    }
}

/// How a contact response from `src` is to be decrypted.
pub open spec fn contact_answer_parts(n: NodeView, src: PeerAddr, d: Seq<u8>) -> Option<
    (SecretKey, PublicKey, Seq<u8>, Seq<u8>),
> {
    match exchange_awaiting(n, src) {
        Some(p) => answer_parts(p.our_ephem_key_pair, p.invitation_pk, d),
        None => None,
    }
}

/// Finds how a contact response is to be decrypted; `None` if none is awaited
/// from `src` or it is too short.
pub fn contact_response_parts(node: &Node, src: PeerAddr, data: &[u8]) -> (r: Option<SealedAnswer>)
    ensures
        match contact_answer_parts(node@, src, data@) {
            Some((own_secret, peer_public, nonce, ciphertext)) => {
                &&& r matches Some(s)
                &&& s.own_secret == own_secret
                &&& s.peer_public == peer_public
                &&& s.nonce@ == nonce
                &&& s.ciphertext@ == ciphertext
            },
            None => r is None,
        },
{
    if data.len() < 24 {
        return None;
    }
    match node.owner.pending_contact_exchange {
        Some(p) => {
            if !same_addr(PeerAddr::V4(p.sg_addr), src) {
                return None;
            }
            let nonce = bytes_of(data, 0, 24);
            let ciphertext = bytes_of(data, 24, data.len());
            assert(nonce@ =~= data@.take(24));
            assert(ciphertext@ =~= data@.skip(24));
            Some(
                SealedAnswer {
                    own_secret: p.our_ephem_key_pair.private_key,
                    peer_public: p.invitation_pk,
                    nonce,
                    ciphertext,
                },
            )
        },
        None => None,
    }
}

/// What the decrypted card that answers a contact exchange leads to.
pub open spec fn contact_responded(
    n: NodeView,
    src: PeerAddr,
    d: Seq<u8>,
    target: WriterTarget,
    now: u64,
    retention: u64,
) -> (NodeView, Seq<EffectView>) {
    match (exchange_awaiting(n, src), join_wire::parse_contact_payload(d)) {
        (Some(_), Some(c)) => {
            let ended = NodeView {
                owner: OwnerView { pending_contact_exchange: None, ..n.owner },
                ..n
            };
            let (m, e) = contact_added(ended, c, target, now, retention);
            (m, e.push(maintain_now()))
        },
        _ => (n, Seq::empty()),
    }
}

/// Takes the decrypted card that answers a contact exchange: adds the contact
/// and ends the exchange. One that is not awaited from `src` or cannot be read is
/// dropped.
pub fn contact_response(
    node: &mut Node,
    src: PeerAddr,
    plaintext: &[u8],
    target: WriterTarget,
    now: u64,
    retention: u64,
) -> (r: Vec<Effect>)
    requires
        old(node).owner.public_version.room(2),
    ensures
        (final(node)@, model::views(r@)) == contact_responded(
            old(node)@,
            src,
            plaintext@,
            target,
            now,
            retention,
        ),
        keys::keyed(old(node)@) ==> keys::keyed(final(node)@),
{
    broadcast use model::group_views;

    proof {
        if let Some(c) = join_wire::parse_contact_payload(plaintext@) {
            let n = NodeView {
                owner: OwnerView { pending_contact_exchange: None, ..node@.owner },
                ..node@
            };
            keys::lemma_requested(n, contact_change(c), target, false, now, retention);
        }
    }
    let awaited = match node.owner.pending_contact_exchange {
        Some(p) => same_addr(PeerAddr::V4(p.sg_addr), src),
        None => false,
    };
    if !awaited {
        return Vec::new();
    }
    let c = match deserialize_contact_payload(plaintext) {
        Some(c) => c,
        None => {
            return Vec::new();
        },
    };
    node.owner.pending_contact_exchange = None;
    let mut out = add_contact(node, c, target, now, retention);
    out.push(Effect::Schedule { task: Task::MaintainConnections, delay_ms: 0 });
    out
}

} // verus!
