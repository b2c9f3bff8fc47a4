//! Minting invitations, here or on a better placed server, and setting out to
//! redeem them.
use crate::effects::{push_all, Effect, EffectView};
use crate::find;
use crate::find::{find_conn_to, find_device};
use crate::invite;
use crate::invite::{decode_invitation_code, encode_invitation_code, InvitationCodeView};
use crate::join_wire;
use crate::join_wire::serialize_contact_payload;
use crate::keys;
use crate::model;
use crate::routing;
use crate::routing::{
    find_session, first_resolved_host, ranked_servers, ResolvedHost, ResolvedHostView,
};
use crate::sync;
use crate::sync::{find_session_by_id, seal_to};
use crate::text::{owned, utf8_text};
use crate::types;
use crate::types::{
    clone_strings, uuid_eq, DeviceGrade, DeviceView, Invitation, KeyPair, Node, NodeView, OwnerView,
    PeerAddr, PendingBootstrap, PendingBootstrapView, PendingContactExchange, PublicKey, SecretKey,
    Uuid,
};
use crate::wire;
use crate::wire::{
    push_bytes, push_key, push_uuid, slice_uuid, BOOTSTRAP_REQUEST_OP, CONTACT_REQUEST_OP,
    GENERATE_INVITATION_REQUEST_OP, GENERATE_INVITATION_RESPONSE_OP, INVITE_RESULT_ERROR,
    INVITE_RESULT_OK, INVITE_TYPE_CONTACT, INVITE_TYPE_DEVICE,
};
use vstd::prelude::*;

verus! {

/// How many seconds an invitation lasts: 15 minutes.
pub const INVITATION_LIFETIME: u64 = 900;

/// The hosts that this device advertises.
pub open spec fn own_hosts(n: NodeView) -> Seq<Seq<char>> {
    match model::first_where(n.owner.user.devices, find::device_is(n.device_uuid)) {
        Some(i) => n.owner.user.devices[i].hosts,
        None => Seq::empty(),
    }
}

/// The hosts that this device advertises.
pub fn local_device_hosts(node: &Node) -> (r: Vec<String>)
    ensures
        model::views(r@) == own_hosts(node@),
{
    broadcast use model::group_views;

    match find_device(&node.owner.user.devices, &node.device_uuid) {
        Some(i) => clone_strings(&node.owner.user.devices[i].hosts),
        None => Vec::new(),
    }
}

/// A server that can mint an invitation now: it advertises hosts, and it is this
/// node or there is a session with it.
pub open spec fn can_mint(n: NodeView) -> spec_fn(DeviceView) -> bool {
    |d: DeviceView|
        d.hosts.len() > 0 && (d.uuid == n.device_uuid || model::any_where(
            n.owner.active_connections,
            find::conn_to(d.uuid),
        ))
}

/// The best ranked server that can mint an invitation now.
pub open spec fn minting_sg(n: NodeView) -> Option<Uuid> {
    let s = routing::servers(n.owner.user.devices);
    match model::first_where(s, can_mint(n)) {
        Some(i) => Some(s[i].uuid),
        None => None,
    }
}

/// The best ranked server that can mint an invitation now.
pub fn top_online_sg(node: &Node) -> (r: Option<Uuid>)
    ensures
        r == minting_sg(node@),
{
    broadcast use model::group_views;

    let devices = &node.owner.user.devices;
    let idx = ranked_servers(devices);
    let ghost devs = model::views(devices@);
    let ghost s = routing::servers(devs);
    let mut i: usize = 0;
    while i < idx.len()
        invariant
            i <= idx@.len(),
            devs == model::views(devices@),
            devs == node@.owner.user.devices,
            s == routing::servers(devs),
            s == routing::picked(devs, idx@),
            forall|j: int| 0 <= j < idx@.len() ==> (#[trigger] idx@[j]) < devices@.len(),
            forall|j: int| 0 <= j < i ==> !can_mint(node@)(#[trigger] s[j]),
        decreases idx@.len() - i,
    {
        let d = &devices[idx[i]];
        assert(s[i as int] == d@);
        if d.hosts.len() > 0 {
            let here = uuid_eq(&d.uuid, &node.device_uuid);
            if here || find_conn_to(&node.owner.active_connections, &d.uuid).is_some() {
                proof {
                    assert(can_mint(node@)(s[i as int]));
                    model::lemma_first_at(s, can_mint(node@), i as int);
                }
                return Some(d.uuid);
            }
        }
        i += 1;
    }
    proof {
        model::lemma_first_none(s, can_mint(node@));
    }
    None
}

/// The state with one more invitation.
pub open spec fn with_invitation(n: NodeView, kind: u8, inv: Invitation) -> NodeView {
    NodeView {
        owner: if kind == INVITE_TYPE_CONTACT {
            OwnerView { contact_invitations: n.owner.contact_invitations.push(inv), ..n.owner }
        } else {
            OwnerView { device_invitations: n.owner.device_invitations.push(inv), ..n.owner }
        },
        ..n
    }
}

/// A new invitation.
pub open spec fn new_invitation(id: Uuid, keys: KeyPair, now: u64) -> Invitation {
    Invitation { id, key_pair: keys, expires_at: (now + INVITATION_LIFETIME) as u64 }
}

/// Adds an invitation with the identifier and the key pair given.
pub fn store_new_invitation(node: &mut Node, kind: u8, id: Uuid, keys: KeyPair, now: u64)
    requires
        now + INVITATION_LIFETIME <= u64::MAX,
    ensures
        final(node)@ == with_invitation(old(node)@, kind, new_invitation(id, keys, now)),
        keys::keyed(old(node)@) && keys::unused(old(node)@, id) ==> keys::keyed(final(node)@),
{
    proof {
        if keys::keyed(node@) && keys::unused(node@, id) {
            keys::lemma_with_invitation(node@, kind, new_invitation(id, keys, now));
        }
    }
    let inv = Invitation { id, key_pair: keys, expires_at: now + INVITATION_LIFETIME };
    if kind == INVITE_TYPE_CONTACT {
        node.owner.contact_invitations.push(inv);
    } else {
        node.owner.device_invitations.push(inv);
    }
}

/// The code of an invitation minted on this node.
pub open spec fn own_code(n: NodeView, id: Uuid, pk: PublicKey) -> Seq<char> {
    invite::base64_text(
        invite::enc_invitation(
            InvitationCodeView { id, public_key: pk, hosts: own_hosts(n) },
        ),
    )
}

/// A code says which invitation it is and where the server is found, if that
/// fits.
pub open spec fn code_fits(
    code: Seq<char>,
    id: Uuid,
    pk: PublicKey,
    hosts: Seq<Seq<char>>,
) -> bool {
    let c = InvitationCodeView { id, public_key: pk, hosts };
    invite::plain_invitation(c) ==> invite::code_says(code) == Some(c)
}

/// How minting an invitation ended.
#[derive(Debug, PartialEq, Eq)]
pub enum InvitationMint {
    /// The code is there.
    Ready(String),
    /// Another server was asked; its answer will carry the token.
    Pending { token: Uuid },
    /// No server can be asked.
    Failed,
}

#[verifier::ext_equal]
pub enum InvitationMintView {
    Ready(Seq<char>),
    Pending { token: Uuid },
    Failed,
}

impl View for InvitationMint {
    type V = InvitationMintView;

    open spec fn view(&self) -> InvitationMintView {
        match *self {
            InvitationMint::Ready(s) => InvitationMintView::Ready(s@),
            InvitationMint::Pending { token } => InvitationMintView::Pending { token },
            InvitationMint::Failed => InvitationMintView::Failed,
        }
    }
}

/// What minting takes: an identifier and a key pair for the invitation, and a
/// token to recognise the answer of another server by.
#[derive(Clone, Copy, PartialEq, Eq, Debug)]
pub struct MintWith {
    pub fresh_id: Uuid,
    pub fresh_keys: KeyPair,
    pub token: Uuid,
    pub now: u64,
}

/// What a wish for an invitation leads to: the best placed server mints it.
pub open spec fn minted(n: NodeView, kind: u8, w: MintWith) -> (
    InvitationMintView,
    NodeView,
    Seq<EffectView>,
) {
    match minting_sg(n) {
        None => (InvitationMintView::Failed, n, Seq::empty()),
        Some(u) => if u == n.device_uuid {
            (
                InvitationMintView::Ready(own_code(n, w.fresh_id, w.fresh_keys.public_key)),
                with_invitation(n, kind, new_invitation(w.fresh_id, w.fresh_keys, w.now)),
                seq![EffectView::Save],
            )
        } else {
            match routing::session_with(n, u) {
                Some(conn) => (
                    InvitationMintView::Pending { token: w.token },
                    n,
                    seq![
                        EffectView::Seal {
                            conn,
                            op: GENERATE_INVITATION_REQUEST_OP,
                            body: seq![kind] + w.token@,
                        },
                    ],
                ),
                None => (InvitationMintView::Failed, n, Seq::empty()),
            }
        },
    }
}

/// Mints an invitation of a kind, here or on a better placed server.
pub fn generate_invitation(node: &mut Node, kind: u8, with: MintWith) -> (r: (
    InvitationMint,
    Vec<Effect>,
))
    requires
        with.now + INVITATION_LIFETIME <= u64::MAX,
    ensures
        (r.0@, final(node)@, model::views(r.1@)) == minted(old(node)@, kind, with),
        r.0@ matches InvitationMintView::Ready(code) ==> code_fits(
            code,
            with.fresh_id,
            with.fresh_keys.public_key,
            own_hosts(old(node)@),
        ),
        keys::keyed(old(node)@) && keys::unused(old(node)@, with.fresh_id) ==> keys::keyed(
            final(node)@,
        ),
{
    broadcast use model::group_views;

    proof {
        if keys::keyed(node@) && keys::unused(node@, with.fresh_id) {
            keys::lemma_with_invitation(
                node@,
                kind,
                new_invitation(with.fresh_id, with.fresh_keys, with.now),
            );
        }
    }
    let mut out: Vec<Effect> = Vec::new();
    assert(model::views(out@) =~= Seq::empty());
    let target = match top_online_sg(node) {
        Some(u) => u,
        None => {
            return (InvitationMint::Failed, out);
        },
    };
    if uuid_eq(&target, &node.device_uuid) {
        let hosts = local_device_hosts(node);
        store_new_invitation(node, kind, with.fresh_id, with.fresh_keys, with.now);
        out.push(Effect::Save);
        assert(model::views(out@) =~= seq![EffectView::Save]);
        let code = encode_invitation_code(&with.fresh_id, &with.fresh_keys.public_key, &hosts);
        return (InvitationMint::Ready(code), out);
    }
    match find_session(node, &target) {
        Some(conn) => {
            let mut body: Vec<u8> = Vec::new();
            body.push(kind);
            push_uuid(&mut body, &with.token);
            assert(body@ =~= seq![kind] + with.token@);
            out.push(Effect::Seal { conn, op: GENERATE_INVITATION_REQUEST_OP, body });
            assert(model::views(out@) =~= minted(old(node)@, kind, with).2);
            (InvitationMint::Pending { token: with.token }, out)
        },
        None => (InvitationMint::Failed, out),
    }
}

/// Mints an invitation for a device of the user.
pub fn generate_device_invitation(node: &mut Node, with: MintWith) -> (r: (
    InvitationMint,
    Vec<Effect>,
))
    requires
        with.now + INVITATION_LIFETIME <= u64::MAX,
    ensures
        (r.0@, final(node)@, model::views(r.1@)) == minted(old(node)@, INVITE_TYPE_DEVICE, with),
        r.0@ matches InvitationMintView::Ready(code) ==> code_fits(
            code,
            with.fresh_id,
            with.fresh_keys.public_key,
            own_hosts(old(node)@),
        ),
        keys::keyed(old(node)@) && keys::unused(old(node)@, with.fresh_id) ==> keys::keyed(
            final(node)@,
        ),
{
    generate_invitation(node, INVITE_TYPE_DEVICE, with)
}

/// Mints an invitation for a contact.
pub fn generate_contact_invitation(node: &mut Node, with: MintWith) -> (r: (
    InvitationMint,
    Vec<Effect>,
))
    requires
        with.now + INVITATION_LIFETIME <= u64::MAX,
    ensures
        (r.0@, final(node)@, model::views(r.1@)) == minted(old(node)@, INVITE_TYPE_CONTACT, with),
        r.0@ matches InvitationMintView::Ready(code) ==> code_fits(
            code,
            with.fresh_id,
            with.fresh_keys.public_key,
            own_hosts(old(node)@),
        ),
        keys::keyed(old(node)@) && keys::unused(old(node)@, with.fresh_id) ==> keys::keyed(
            final(node)@,
        ),
{
    generate_invitation(node, INVITE_TYPE_CONTACT, with)
}

/// The answer to a wish for an invitation: the token, a result, and the code.
pub open spec fn mint_answer(token: Seq<u8>, result: u8, code: Seq<char>) -> Seq<u8> {
    token + seq![result] + vstd::utf8::encode_utf8(code)
}

/// What another device's wish for an invitation leads to.
pub open spec fn mint_requested(
    n: NodeView,
    conn_id: u16,
    pt: Seq<u8>,
    id: Uuid,
    keys: KeyPair,
    now: u64,
) -> (NodeView, Seq<EffectView>) {
    if pt.len() < 17 {
        (n, Seq::empty())
    } else {
        let token = pt.subrange(1, 17);
        if own_hosts(n).len() == 0 {
            (
                n,
                sync::sealed(
                    sync::session(n, conn_id),
                    GENERATE_INVITATION_RESPONSE_OP,
                    mint_answer(token, INVITE_RESULT_ERROR, Seq::empty()),
                ),
            )
        } else {
            (
                with_invitation(n, pt[0], new_invitation(id, keys, now)),
                seq![EffectView::Save] + sync::sealed(
                    sync::session(n, conn_id),
                    GENERATE_INVITATION_RESPONSE_OP,
                    mint_answer(token, INVITE_RESULT_OK, own_code(n, id, keys.public_key)),
                ),
            )
        }
    }
}

fn mint_answer_body(token: &[u8], result: u8, code: &String) -> (r: Vec<u8>)
    ensures
        r@ == mint_answer(token@, result, code@),
{
    let mut body: Vec<u8> = Vec::new();
    push_bytes(&mut body, token);
    body.push(result);
    push_bytes(&mut body, code.as_str().as_bytes());
    assert(body@ =~= mint_answer(token@, result, code@));
    body
}

/// Mints an invitation for the device at the other end of the session and
/// answers with its code, or that it cannot.
pub fn generate_invitation_request(
    node: &mut Node,
    conn_id: u16,
    plaintext: &[u8],
    fresh_id: Uuid,
    fresh_keys: KeyPair,
    now: u64,
) -> (r: Vec<Effect>)
    requires
        now + INVITATION_LIFETIME <= u64::MAX,
    ensures
        (final(node)@, model::views(r@)) == mint_requested(
            old(node)@,
            conn_id,
            plaintext@,
            fresh_id,
            fresh_keys,
            now,
        ),
        keys::keyed(old(node)@) && keys::unused(old(node)@, fresh_id) ==> keys::keyed(final(node)@),
{
    broadcast use model::group_views;

    proof {
        if keys::keyed(node@) && keys::unused(node@, fresh_id) && plaintext@.len() >= 17 {
            keys::lemma_with_invitation(
                node@,
                plaintext@[0],
                new_invitation(fresh_id, fresh_keys, now),
            );
        }
    }
    if plaintext.len() < 17 {
        return Vec::new();
    }
    let kind: u8 = plaintext[0];
    let token = &plaintext[1..17];
    let conn = find_session_by_id(node, conn_id);
    let hosts = local_device_hosts(node);
    if hosts.len() == 0 {
        let none = String::new();
        assert(none@ =~= Seq::<char>::empty());
        let body = mint_answer_body(token, INVITE_RESULT_ERROR, &none);
        return seal_to(conn, GENERATE_INVITATION_RESPONSE_OP, body);
    }
    store_new_invitation(node, kind, fresh_id, fresh_keys, now);
    let code = encode_invitation_code(&fresh_id, &fresh_keys.public_key, &hosts);
    let mut out: Vec<Effect> = Vec::new();
    out.push(Effect::Save);
    assert(model::views(out@) =~= seq![EffectView::Save]);
    let body = mint_answer_body(token, INVITE_RESULT_OK, &code);
    push_all(&mut out, seal_to(conn, GENERATE_INVITATION_RESPONSE_OP, body));
    out
}

/// One who waits for the code of an invitation that another server mints.
#[derive(Debug, PartialEq, Eq)]
pub struct InviteSlot {
    pub token: Uuid,
    pub outcome: Option<Result<String, ()>>,
}

#[verifier::ext_equal]
pub struct InviteSlotView {
    pub token: Uuid,
    pub outcome: Option<Result<Seq<char>, ()>>,
}

impl View for InviteSlot {
    type V = InviteSlotView;

    open spec fn view(&self) -> InviteSlotView {
        InviteSlotView {
            token: self.token,
            outcome: match self.outcome {
                Some(Ok(s)) => Some(Ok(s@)),
                Some(Err(_)) => Some(Err(())),
                None => None,
            },
        }
    }
}

pub open spec fn slot_is(token: Uuid) -> spec_fn(InviteSlotView) -> bool {
    |s: InviteSlotView| s.token == token
}

/// The code in an answer, if it is there and is text.
pub open spec fn answered_code(pt: Seq<u8>) -> Result<Seq<char>, ()> {
    if pt[16] == INVITE_RESULT_OK && vstd::utf8::valid_utf8(pt.skip(17)) {
        Ok(vstd::utf8::decode_utf8(pt.skip(17)))
    } else {
        Err(())
    }
}

/// Whether an answer to a wish for an invitation was awaited, and the wishes with
/// it.
pub open spec fn invitation_filled(s: Seq<InviteSlotView>, d: Seq<u8>) -> (
    bool,
    Seq<InviteSlotView>,
) {
    if d.len() < 17 {
        (false, s)
    } else {
        let token = wire::uuid_of(d.subrange(0, 16));
        match model::first_where(s, slot_is(token)) {
            Some(i) => (
                true,
                s.update(i, InviteSlotView { token, outcome: Some(answered_code(d)) }),
            ),
            None => (false, s),
        }
    }
}

/// Hands the answer to a wish for an invitation to the one who waits for it.
/// Gives whether there is one.
pub fn generate_invitation_response(slots: &mut Vec<InviteSlot>, plaintext: &[u8]) -> (r: bool)
    ensures
        (r, model::views(final(slots)@)) == invitation_filled(
            model::views(old(slots)@),
            plaintext@,
        ),
{
    broadcast use model::group_views;

    if plaintext.len() < 17 {
        return false;
    }
    let token = match slice_uuid(plaintext, 0) {
        Some(u) => u,
        None => {
            return false;
        },
    };
    let rest = &plaintext[17..plaintext.len()];
    assert(rest@ =~= plaintext@.skip(17));
    let outcome: Result<String, ()> = if plaintext[16] == INVITE_RESULT_OK {
        match utf8_text(rest) {
            Some(code) => Ok(owned(code)),
            None => Err(()),
        }
    } else {
        Err(())
    };
    let ghost s = model::views(slots@);
    let ghost said = answered_code(plaintext@);
    let mut i: usize = 0;
    while i < slots.len()
        invariant
            i <= slots@.len(),
            plaintext@.len() >= 17,
            token == wire::uuid_of(plaintext@.subrange(0, 16)),
            s == model::views(slots@),
            s == model::views(old(slots)@),
            said == answered_code(plaintext@),
            said == match outcome {
                Ok(c) => Ok::<Seq<char>, ()>(c@),
                Err(_) => Err::<Seq<char>, ()>(()),
            },
            forall|j: int| 0 <= j < i ==> !slot_is(token)(#[trigger] s[j]),
        decreases slots@.len() - i,
    {
        if uuid_eq(&slots[i].token, &token) {
            proof {
                assert(slot_is(token)(s[i as int]));
                model::lemma_first_at(s, slot_is(token), i as int);
            }
            slots.set(i, InviteSlot { token, outcome: Some(outcome) });
            return true;
        }
        i += 1;
    }
    proof {
        model::lemma_first_none(s, slot_is(token));
    }
    false
}

/// Where the server of a code is found: at the first of its hosts that
/// resolves.
pub open spec fn code_addr(c: InvitationCodeView, cache: Seq<ResolvedHostView>) -> Option<
    types::HostAddr,
> {
    routing::first_resolved(cache, c.hosts)
}

/// What setting out to join leads to.
pub open spec fn join_started(
    n: NodeView,
    c: InvitationCodeView,
    addr: types::HostAddr,
    alias: Seq<char>,
    grade: DeviceGrade,
    rank: Option<u32>,
    fresh: KeyPair,
) -> (NodeView, Seq<EffectView>) {
    (
        NodeView {
            owner: OwnerView {
                pending_bootstrap: Some(
                    PendingBootstrapView {
                        invitation_id: c.id,
                        our_ephem_key_pair: fresh,
                        invitation_pk: c.public_key,
                        sg_addr: addr,
                        device_alias: alias,
                        desired_grade: grade,
                        desired_sg_rank: rank,
                    },
                ),
                ..n.owner
            },
            ..n
        },
        seq![
            EffectView::Send {
                dest: PeerAddr::V4(addr),
                bytes: seq![BOOTSTRAP_REQUEST_OP] + c.id@ + fresh.public_key@,
            },
        ],
    )
}

/// Sets out to join the user that an invitation code comes from. `cache` holds
/// the resolved hosts, `fresh` is a new key pair.
pub fn start_bootstrap(
    node: &mut Node,
    device_alias: &str,
    code_str: &str,
    desired_grade: DeviceGrade,
    desired_sg_rank: Option<u32>,
    cache: &Vec<ResolvedHost>,
    fresh: KeyPair,
) -> (r: Result<Vec<Effect>, &'static str>)
    ensures
        match invite::code_says(code_str@) {
            None => {
                &&& r matches Err(m) && m@ == "invalid invitation code"@
                &&& final(node)@ == old(node)@
            },
            Some(c) => match code_addr(c, model::views(cache@)) {
                None => {
                    &&& r matches Err(m) && m@ == "no host resolved from invitation code"@
                    &&& final(node)@ == old(node)@
                },
                Some(addr) => {
                    &&& r matches Ok(e)
                    &&& (final(node)@, model::views(e@)) == join_started(
                        old(node)@,
                        c,
                        addr,
                        device_alias@,
                        desired_grade,
                        desired_sg_rank,
                        fresh,
                    )
                },
            },
        },
        keys::keyed(old(node)@) ==> keys::keyed(final(node)@),
{
    broadcast use model::group_views;

    let code = match decode_invitation_code(code_str) {
        Some(c) => c,
        None => {
            return Err("invalid invitation code");
        },
    };
    let sg_addr = match first_resolved_host(cache, &code.hosts) {
        Some(a) => a,
        None => {
            return Err("no host resolved from invitation code");
        },
    };
    node.owner.pending_bootstrap = Some(
        PendingBootstrap {
            invitation_id: code.id,
            our_ephem_key_pair: fresh,
            invitation_pk: code.public_key,
            sg_addr,
            device_alias: owned(device_alias),
            desired_grade,
            desired_sg_rank,
        },
    );
    let mut bytes: Vec<u8> = Vec::new();
    bytes.push(BOOTSTRAP_REQUEST_OP);
    push_uuid(&mut bytes, &code.id);
    push_key(&mut bytes, &fresh.public_key);
    assert(bytes@ =~= seq![BOOTSTRAP_REQUEST_OP] + code.id@ + fresh.public_key@);
    let mut out: Vec<Effect> = Vec::new();
    out.push(Effect::Send { dest: PeerAddr::V4(sg_addr), bytes });
    assert(model::views(out@) =~= seq![
        EffectView::Send {
            dest: PeerAddr::V4(sg_addr),
            bytes: seq![BOOTSTRAP_REQUEST_OP] + code.id@ + fresh.public_key@,
        },
    ]);
    Ok(out)
}

/// What setting out to exchange cards leads to.
pub open spec fn exchange_started(
    n: NodeView,
    c: InvitationCodeView,
    addr: types::HostAddr,
    fresh: KeyPair,
    key: SecretKey,
) -> (NodeView, Seq<EffectView>) {
    (
        NodeView {
            owner: OwnerView {
                pending_contact_exchange: Some(
                    PendingContactExchange {
                        our_ephem_key_pair: fresh,
                        invitation_pk: c.public_key,
                        sg_addr: addr,
                    },
                ),
                ..n.owner
            },
            ..n
        },
        seq![
            EffectView::SealWith {
                key,
                dest: PeerAddr::V4(addr),
                head: seq![CONTACT_REQUEST_OP] + c.id@ + fresh.public_key@,
                body: join_wire::enc_contact_payload(join_wire::own_card(n.owner)),
            },
        ],
    )
}

/// Sets out to exchange cards with the user that an invitation code comes from.
/// `fresh` is a new key pair, `key` the key derived from it and from the code.
/// Nothing happens if the code is not one or no host of it resolves.
pub fn start_contact_exchange(
    node: &mut Node,
    code_str: &str,
    cache: &Vec<ResolvedHost>,
    fresh: KeyPair,
    key: SecretKey,
) -> (r: Vec<Effect>)
    ensures
        (final(node)@, model::views(r@)) == match invite::code_says(code_str@) {
            Some(c) => match code_addr(c, model::views(cache@)) {
                Some(addr) => exchange_started(old(node)@, c, addr, fresh, key),
                None => (old(node)@, Seq::empty()),
            },
            None => (old(node)@, Seq::empty()),
        },
        keys::keyed(old(node)@) ==> keys::keyed(final(node)@),
{
    broadcast use model::group_views;

    let mut out: Vec<Effect> = Vec::new();
    assert(model::views(out@) =~= Seq::empty());
    let code = match decode_invitation_code(code_str) {
        Some(c) => c,
        None => {
            return out;
        },
    };
    let sg_addr = match first_resolved_host(cache, &code.hosts) {
        Some(a) => a,
        None => {
            return out;
        },
    };
    let body = serialize_contact_payload(node);
    node.owner.pending_contact_exchange = Some(
        PendingContactExchange {
            our_ephem_key_pair: fresh,
            invitation_pk: code.public_key,
            sg_addr,
        },
    );
    let mut head: Vec<u8> = Vec::new();
    head.push(CONTACT_REQUEST_OP);
    push_uuid(&mut head, &code.id);
    push_key(&mut head, &fresh.public_key);
    assert(head@ =~= seq![CONTACT_REQUEST_OP] + code.id@ + fresh.public_key@);
    out.push(Effect::SealWith { key, dest: PeerAddr::V4(sg_addr), head, body });
    assert(model::views(out@) =~= exchange_started(old(node)@, code@, sg_addr, fresh, key).1);
    out
}

} // verus!
