//! How a device joins and how users come to know each other, packet by packet,
//! from the wish for an invitation on.
use crate::bootstrap;
use crate::device_wire;
use crate::dispatch;
use crate::dispatch::Packet;
use crate::effects::{EffectView, Task};
use crate::election;
use crate::find;
use crate::following;
use crate::invite::InvitationCodeView;
use crate::join_wire;
use crate::join_wire::BootstrapPayloadView;
use crate::joining;
use crate::mint;
use crate::mint::{InvitationMintView, InviteSlotView, MintWith};
use crate::model;
use crate::outcomes;
use crate::passage;
use crate::routing;
use crate::routing::WriterTarget;
use crate::types::{
    ActiveConnection, DeviceGrade, DeviceView, HostAddr, Invitation, KeyPair, NodeView, OwnerView,
    PeerAddr, PendingBootstrapView, SecretKey, Uuid,
};
use crate::upkeep;
use crate::wire;
use crate::wire::{
    GENERATE_INVITATION_REQUEST_OP, GENERATE_INVITATION_RESPONSE_OP, INVITE_RESULT_ERROR,
    INVITE_RESULT_OK, INVITE_TYPE_CONTACT,
};
use vstd::prelude::*;

verus! {

/// A server that advertises hosts and is this device or has a session with it.
pub open spec fn may_mint(n: NodeView) -> spec_fn(DeviceView) -> bool {
    |d: DeviceView|
        d.hosts.len() > 0 && (d.uuid == n.device_uuid || election::connected(n, d.uuid))
}

proof fn lemma_may_mint(n: NodeView, d: DeviceView)
    ensures
        may_mint(n)(d) <==> mint::can_mint(n)(d),
{
    let s = n.owner.active_connections;
    let p = find::conn_to(d.uuid);
    if election::connected(n, d.uuid) {
        let i = choose|i: int| 0 <= i < s.len() && (#[trigger] s[i]).device_uuid == d.uuid;
        assert(p(s[i]));
    }
    if model::any_where(s, p) {
        let i = choose|i: int| 0 <= i < s.len() && p(#[trigger] s[i]);
        assert(s[i].device_uuid == d.uuid);
    }
}

/// The invitations of a kind.
pub open spec fn invitations(n: NodeView, kind: u8) -> Seq<Invitation> {
    if kind == INVITE_TYPE_CONTACT {
        n.owner.contact_invitations
    } else {
        n.owner.device_invitations
    }
}

/// A state has one more invitation of a kind, which lasts from now on, and
/// everything else as it was.
pub open spec fn invites(
    n: NodeView,
    m: NodeView,
    kind: u8,
    id: Uuid,
    keys: KeyPair,
    now: u64,
) -> bool {
    let before = invitations(n, kind);
    let after = invitations(m, kind);
    &&& after.len() == before.len() + 1
    &&& forall|k: int| 0 <= k < before.len() ==> #[trigger] after[k] == before[k]
    &&& after.last().id == id
    &&& after.last().key_pair == keys
    &&& after.last().expires_at == now + mint::INVITATION_LIFETIME
    &&& m.owner.user == n.owner.user
    &&& m.owner.contact_users == n.owner.contact_users
    &&& kind == INVITE_TYPE_CONTACT ==> m.owner.device_invitations == n.owner.device_invitations
    &&& kind != INVITE_TYPE_CONTACT ==> m.owner.contact_invitations == n.owner.contact_invitations
}

/// An invitation is minted by the first server by rank that advertises hosts and
/// is this device or can be spoken to. This device keeps the invitation and has
/// the code at once; another one is asked over the session with it.
pub proof fn law_first_server_mints(n: NodeView, i: int, kind: u8, w: MintWith, c: ActiveConnection)
    requires
        election::first_by_rank(n.owner.user.devices, may_mint(n), i),
        w.now + mint::INVITATION_LIFETIME <= u64::MAX,
        n.owner.user.devices[i].uuid != n.device_uuid ==> passage::session_to(
            n,
            n.owner.user.devices[i].uuid,
            c,
        ),
    ensures
        ({
            let (r, m, e) = mint::minted(n, kind, w);
            if n.owner.user.devices[i].uuid == n.device_uuid {
                &&& r == InvitationMintView::Ready(
                    mint::own_code(n, w.fresh_id, w.fresh_keys.public_key),
                )
                &&& invites(n, m, kind, w.fresh_id, w.fresh_keys, w.now)
                &&& e.len() == 1 && e[0] == EffectView::Save
            } else {
                &&& r == InvitationMintView::Pending { token: w.token }
                &&& m == n
                &&& exists|body: Seq<u8>| #[trigger]
                    following::one_packet(e, c, GENERATE_INVITATION_REQUEST_OP, body)
            }
        }),
{
    let s = n.owner.user.devices;
    assert forall|d: DeviceView| #[trigger] may_mint(n)(d) <==> mint::can_mint(n)(d) by {
        lemma_may_mint(n, d);
    }
    election::lemma_same_first(
        routing::servers(s),
        may_mint(n),
        mint::can_mint(n),
    );
    election::lemma_first_by_rank(s, may_mint(n), i);
    if s[i].uuid != n.device_uuid {
        passage::lemma_session_to(n, s[i].uuid, c);
        let e = mint::minted(n, kind, w).2;
        assert(following::one_packet(
            e,
            c,
            GENERATE_INVITATION_REQUEST_OP,
            seq![kind] + w.token@,
        ));
    }
}

/// Where no server can mint, nothing happens and the wish fails.
pub proof fn law_no_server_no_invitation(n: NodeView, kind: u8, w: MintWith)
    requires
        forall|j: int| #[trigger]
            election::serves(n.owner.user.devices, j) ==> !may_mint(n)(n.owner.user.devices[j]),
    ensures
        mint::minted(n, kind, w) == (InvitationMintView::Failed, n, Seq::<EffectView>::empty()),
{
    let s = n.owner.user.devices;
    assert forall|d: DeviceView| #[trigger] may_mint(n)(d) <==> mint::can_mint(n)(d) by {
        lemma_may_mint(n, d);
    }
    election::lemma_same_first(
        routing::servers(s),
        may_mint(n),
        mint::can_mint(n),
    );
    election::lemma_none_by_rank(s, may_mint(n));
}

/// The invitation that a device wishes for is minted by the server that it asks:
/// the server that gets exactly this packet keeps an invitation of that kind and
/// answers over its own session, and whoever reads exactly this answer finds the
/// token of the wish and the code of that invitation, with the server's hosts. A
/// server without hosts answers that it cannot.
pub proof fn law_wish_is_granted(
    n: NodeView,
    i: int,
    kind: u8,
    w: MintWith,
    c: ActiveConnection,
    y: NodeView,
    cy: ActiveConnection,
    id: Uuid,
    keys: KeyPair,
    now: u64,
)
    requires
        election::first_by_rank(n.owner.user.devices, may_mint(n), i),
        n.owner.user.devices[i].uuid != n.device_uuid,
        passage::session_to(n, n.owner.user.devices[i].uuid, c),
        following::session_under(y, cy.id, cy),
        now + mint::INVITATION_LIFETIME <= u64::MAX,
        w.now + mint::INVITATION_LIFETIME <= u64::MAX,
    ensures
        exists|wish: Seq<u8>, answer: Seq<u8>| #[trigger]
            following::one_packet(
                mint::minted(n, kind, w).2,
                c,
                GENERATE_INVITATION_REQUEST_OP,
                wish,
            ) && #[trigger] granted(y, cy, wish, answer, id, keys, now) && answer.len() >= 17
                && wire::uuid_of(answer.subrange(0, 16)) == w.token && ({
                let m = mint::mint_requested(y, cy.id, wish, id, keys, now).0;
                if mint::own_hosts(y).len() > 0 {
                    &&& invites(y, m, kind, id, keys, now)
                    &&& mint::answered_code(answer) == Ok::<Seq<char>, ()>(
                        mint::own_code(y, id, keys.public_key),
                    )
                } else {
                    &&& m == y
                    &&& mint::answered_code(answer) is Err
                }
            }),
{
    law_first_server_mints(n, i, kind, w, c);
    following::lemma_session_under(y, cy.id, cy);
    let wish = seq![kind] + w.token@;
    let s = n.owner.user.devices;
    assert forall|d: DeviceView| #[trigger] may_mint(n)(d) <==> mint::can_mint(n)(d) by {
        lemma_may_mint(n, d);
    }
    election::lemma_same_first(
        routing::servers(s),
        may_mint(n),
        mint::can_mint(n),
    );
    election::lemma_first_by_rank(s, may_mint(n), i);
    passage::lemma_session_to(n, s[i].uuid, c);
    assert(following::one_packet(
        mint::minted(n, kind, w).2,
        c,
        GENERATE_INVITATION_REQUEST_OP,
        wish,
    ));
    assert(wish.subrange(1, 17) =~= w.token@);
    let code = mint::own_code(y, id, keys.public_key);
    joining::law_code_reaches_waiter(w.token, INVITE_RESULT_OK, code);
    joining::law_code_reaches_waiter(w.token, INVITE_RESULT_ERROR, Seq::empty());
    let (m, e) = mint::mint_requested(y, cy.id, wish, id, keys, now);
    let answer = if mint::own_hosts(y).len() > 0 {
        mint::mint_answer(w.token@, INVITE_RESULT_OK, code)
    } else {
        mint::mint_answer(w.token@, INVITE_RESULT_ERROR, Seq::empty())
    };
    assert(following::packet_at(
        e,
        e.len() - 1,
        cy,
        GENERATE_INVITATION_RESPONSE_OP,
        answer,
    ));
    assert(granted(y, cy, wish, answer, id, keys, now));
}

/// The last effect of a wish answers it over a session.
pub open spec fn granted(
    y: NodeView,
    cy: ActiveConnection,
    wish: Seq<u8>,
    answer: Seq<u8>,
    id: Uuid,
    keys: KeyPair,
    now: u64,
) -> bool {
    let e = mint::mint_requested(y, cy.id, wish, id, keys, now).1;
    following::packet_at(e, e.len() - 1, cy, GENERATE_INVITATION_RESPONSE_OP, answer)
}

/// The `i`-th invitation of a list is the first with an identifier.
pub open spec fn invited_by(list: Seq<Invitation>, id: Uuid, i: int) -> bool {
    &&& 0 <= i < list.len()
    &&& list[i].id == id
    &&& forall|j: int| 0 <= j < i ==> (#[trigger] list[j]).id != id
}

/// An invitation is good until its time has come, and once: whether it is good or
/// not, it is gone, and no other is.
pub proof fn law_invitation_is_good_once(list: Seq<Invitation>, id: Uuid, i: int, now: u64)
    requires
        invited_by(list, id, i),
    ensures
        ({
            let (r, left) = bootstrap::redeemed(list, id, now);
            &&& r is Some <==> now < list[i].expires_at
            &&& r matches Some(x) ==> x == list[i]
            &&& left.len() == list.len() - 1
            &&& forall|j: int| 0 <= j < i ==> #[trigger] left[j] == list[j]
            &&& forall|j: int| i <= j < left.len() ==> #[trigger] left[j] == list[j + 1]
        }),
{
    let p = bootstrap::invitation_is(id);
    assert(p(list[i]));
    assert forall|j: int| 0 <= j < i implies !p(#[trigger] list[j]) by {}
    model::lemma_first_at(list, p, i);
}

/// What no invitation names is not good.
pub proof fn law_uninvited(list: Seq<Invitation>, id: Uuid, now: u64)
    requires
        forall|j: int| 0 <= j < list.len() ==> (#[trigger] list[j]).id != id,
    ensures
        bootstrap::redeemed(list, id, now) == (None::<Invitation>, list),
{
    let p = bootstrap::invitation_is(id);
    assert forall|j: int| 0 <= j < list.len() implies !p(#[trigger] list[j]) by {}
    model::lemma_first_none(list, p);
}

/// The packets of a join.
pub struct Join {
    pub request: Seq<u8>,
    pub answer_head: Seq<u8>,
    pub answer: Seq<u8>,
    pub register_head: Seq<u8>,
    pub register: Seq<u8>,
}

/// A body is encrypted with a key, a head is put before it and both go to an
/// address, where the packet is taken for `kind`.
pub open spec fn seals(
    e: EffectView,
    key: SecretKey,
    dest: PeerAddr,
    kind: Packet,
    head: Seq<u8>,
    body: Seq<u8>,
) -> bool {
    e == (EffectView::SealWith { key, dest, head, body }) && forall|rest: Seq<u8>|
        #[trigger] dispatch::packet_of(head + rest) == Some(kind)
}

/// The device of the joiner as its user wants it.
pub open spec fn as_wished(
    d: DeviceView,
    before: DeviceView,
    alias: Seq<char>,
    grade: DeviceGrade,
    rank: Option<u32>,
    hosts: Seq<Seq<char>>,
) -> bool {
    &&& d.uuid == before.uuid
    &&& d.alias == if alias.len() > 0 {
        alias
    } else {
        before.alias
    }
    &&& d.grade == grade
    &&& d.sg_rank == rank
    &&& d.hosts == if grade == DeviceGrade::SG && hosts.len() > 0 {
        hosts
    } else {
        before.hosts
    }
}

/// The joiner holds the keys of the user and is one of the user's devices.
pub open spec fn belongs(m: NodeView, server: OwnerView) -> bool {
    &&& m.owner.user.uuid == server.user.uuid
    &&& m.owner.user.alias == server.user.alias
    &&& m.owner.key_pair == server.key_pair
    &&& m.owner.pending_bootstrap is None
}

/// A join goes from hand to hand. The request of the joiner goes to the server of
/// the invitation, which finds in it what the key is derived from. Its answer goes
/// to where the request came from, and the joiner derives the key from the other
/// halves. The joiner takes over the user and registers with the same server,
/// which recognises it by its invitation, and then has the device as it is.
pub open spec fn joined(
    t: Join,
    s: NodeView,
    i: int,
    j: NodeView,
    k: int,
    code: InvitationCodeView,
    addr: HostAddr,
    seen: PeerAddr,
    alias: Seq<char>,
    grade: DeviceGrade,
    rank: Option<u32>,
    hosts: Seq<Seq<char>>,
    fresh: KeyPair,
    key: SecretKey,
    now: u64,
    later: u64,
    target: WriterTarget,
    retention: u64,
    nonce: Seq<u8>,
    sealed: Seq<u8>,
) -> bool {
    let (j1, e1) = mint::join_started(j, code, addr, alias, grade, rank, fresh);
    let (from, s1) = bootstrap::device_invitation_taken(s, t.request.skip(1), now);
    let (s2, e2) = bootstrap::bootstrapped(s1, seen, code.id, key, now);
    let (j2, e3) = bootstrap::join_response_taken(j1, PeerAddr::V4(addr), t.answer, key, hosts);
    let (found, s3) = bootstrap::acceptance_taken(
        s2,
        t.register_head.skip(1) + nonce + sealed,
        later,
    );
    let (s4, e4) = bootstrap::registration_taken(s3, t.register, target, later, retention);
    &&& passage::one_datagram(e1, PeerAddr::V4(addr), Packet::BootstrapRequest, t.request)
    &&& from matches Some(f) && f.invitation_id == code.id && f.own_secret
        == s.owner.device_invitations[i].key_pair.private_key && f.peer_public == fresh.public_key
    &&& e2.len() == 2 && e2[0] == EffectView::Save
    &&& seals(e2[1], key, seen, Packet::BootstrapResponse, t.answer_head, t.answer)
    &&& bootstrap::join_answer_parts(j1, PeerAddr::V4(addr), nonce + sealed) == Some(
        (fresh.private_key, code.public_key, nonce, sealed),
    )
    &&& belongs(j2, s.owner)
    &&& e3.len() == 3 && e3[0] == EffectView::Save
    &&& seals(
        e3[1],
        key,
        PeerAddr::V4(addr),
        Packet::DeviceRegistration,
        t.register_head,
        t.register,
    )
    &&& e3[2] is Schedule
    &&& found == Some((key, nonce, sealed))
    &&& exists|x: int|
        0 <= x < s4.owner.user.devices.len() && (#[trigger] s4.owner.user.devices[x]).uuid
            == j.device_uuid
}

/// What the joiner registers, and with whom.
proof fn lemma_registers(
    j: NodeView,
    k: int,
    p: PendingBootstrapView,
    told: BootstrapPayloadView,
    key: SecretKey,
    hosts: Seq<Seq<char>>,
) -> (chosen: DeviceView)
    requires
        outcomes::device_at(j.owner, j.device_uuid, k),
    ensures
        chosen == bootstrap::as_chosen(j.owner.user.devices[k], p, hosts),
        ({
            let e = bootstrap::join_answered(j, p, told, key, hosts).1;
            &&& e.len() == 3
            &&& e[0] == EffectView::Save
            &&& e[1] == (EffectView::SealWith {
                key,
                dest: PeerAddr::V4(p.sg_addr),
                head: seq![wire::DEVICE_REGISTER_OP] + p.invitation_id@,
                body: join_wire::enc_bare(chosen),
            })
            &&& e[2] is Schedule
        }),
{
    let devices = bootstrap::joined(j.owner.user.devices, told.devices, j.device_uuid);
    lemma_joined_keeps(j.owner.user.devices, told.devices, j.device_uuid, k);
    let own = find::device_is(j.device_uuid);
    assert(own(devices[k]));
    assert forall|l: int| 0 <= l < k implies !own(#[trigger] devices[l]) by {
        assert(devices[l] == j.owner.user.devices[l]);
    }
    model::lemma_first_at(devices, own, k);
    bootstrap::as_chosen(devices[k], p, hosts)
}

proof fn lemma_bare_read(d: DeviceView)
    requires
        join_wire::plain_bare(d),
    ensures
        join_wire::parse_bare(join_wire::enc_bare(d), 0) matches Some((x, _)) && x.uuid == d.uuid
            && x.alias == d.alias && x.grade == d.grade && x.sg_rank == d.sg_rank && x.hosts
            == d.hosts,
{
    let e = join_wire::enc_bare(d);
    wire::lemma_stands_whole(e);
    device_wire::lemma_device(e, 0, d.uuid, d.alias, d.grade, d.sg_rank, d.hosts);
}

/// The server recognises the device by the invitation that it redeemed.
proof fn lemma_recognised(
    s: NodeView,
    seen: PeerAddr,
    id: Uuid,
    key: SecretKey,
    now: u64,
    later: u64,
    nonce: Seq<u8>,
    sealed: Seq<u8>,
)
    requires
        now + bootstrap::PENDING_ACCEPTANCE_TTL <= u64::MAX,
        later < now + bootstrap::PENDING_ACCEPTANCE_TTL,
        nonce.len() == 24,
    ensures
        ({
            let s2 = bootstrap::bootstrapped(s, seen, id, key, now).0;
            let r = (seq![wire::DEVICE_REGISTER_OP] + id@).skip(1) + nonce + sealed;
            bootstrap::acceptance_taken(s2, r, later).0 == Some((key, nonce, sealed))
        }),
{
    let s2 = bootstrap::bootstrapped(s, seen, id, key, now).0;
    let r = (seq![wire::DEVICE_REGISTER_OP] + id@).skip(1) + nonce + sealed;
    assert(r.subrange(0, 16) =~= id@);
    assert(r.subrange(16, 40) =~= nonce);
    assert(r.skip(40) =~= sealed);
    wire::lemma_uuid_of(id);
    let not_it = bootstrap::acceptance_is_not(id);
    let wait = s2.owner.pending_device_acceptances;
    let kept = model::keep(s.owner.pending_device_acceptances, not_it);
    let a = wait.last();
    let good = bootstrap::acceptable(later);
    let is_it = bootstrap::acceptance_is(id);
    assert(wait.drop_last() =~= kept);
    assert(good(a));
    let left = model::keep(wait, good);
    let rest = model::keep(kept, good);
    assert(left == rest.push(a));
    assert forall|l: int| 0 <= l < rest.len() implies !is_it(#[trigger] left[l]) by {
        assert(rest.contains(rest[l]));
        model::lemma_keep_contains(kept, good, rest[l]);
        model::lemma_keep_contains(s.owner.pending_device_acceptances, not_it, rest[l]);
    }
    assert(is_it(left[rest.len() as int]));
    model::lemma_first_at(left, is_it, rest.len() as int);
}

/// A device with a good invitation joins.
pub proof fn law_invited_device_joins(
    s: NodeView,
    i: int,
    j: NodeView,
    k: int,
    code: InvitationCodeView,
    addr: HostAddr,
    seen: PeerAddr,
    alias: Seq<char>,
    grade: DeviceGrade,
    rank: Option<u32>,
    hosts: Seq<Seq<char>>,
    fresh: KeyPair,
    key: SecretKey,
    now: u64,
    later: u64,
    target: WriterTarget,
    retention: u64,
    nonce: Seq<u8>,
    sealed: Seq<u8>,
    d: DeviceView,
)
    requires
        invited_by(s.owner.device_invitations, code.id, i),
        now < s.owner.device_invitations[i].expires_at,
        now + bootstrap::PENDING_ACCEPTANCE_TTL <= u64::MAX,
        later < now + bootstrap::PENDING_ACCEPTANCE_TTL,
        joining::tellable(s.owner),
        outcomes::device_at(j.owner, j.device_uuid, k),
        as_wished(d, j.owner.user.devices[k], alias, grade, rank, hosts),
        join_wire::plain_bare(d),
        target != WriterTarget::Unreachable,
        nonce.len() == 24,
    ensures
        exists|t: Join| #[trigger]
            joined(
                t,
                s,
                i,
                j,
                k,
                code,
                addr,
                seen,
                alias,
                grade,
                rank,
                hosts,
                fresh,
                key,
                now,
                later,
                target,
                retention,
                nonce,
                sealed,
            ) && (join_wire::parse_bare(t.register, 0) matches Some((x, _)) && as_wished(
                x,
                j.owner.user.devices[k],
                alias,
                grade,
                rank,
                hosts,
            )),
{
    let (j1, e1) = mint::join_started(j, code, addr, alias, grade, rank, fresh);
    let request = seq![wire::BOOTSTRAP_REQUEST_OP] + code.id@ + fresh.public_key@;
    let q = request.skip(1);
    assert(q.subrange(0, 16) =~= code.id@);
    assert(q.subrange(16, 48) =~= fresh.public_key@);
    wire::lemma_uuid_of(code.id);
    wire::lemma_key_of(fresh.public_key);
    law_invitation_is_good_once(s.owner.device_invitations, code.id, i, now);
    let (from, s1) = bootstrap::device_invitation_taken(s, q, now);
    let (s2, e2) = bootstrap::bootstrapped(s1, seen, code.id, key, now);
    let payload = join_wire::own_payload(s.owner);
    let answer = join_wire::enc_bootstrap(payload);
    let p = j1.owner.pending_bootstrap->0;
    joining::law_joined_is_the_user(s, j1, p, key, hosts, j.device_uuid);
    let told = join_wire::parse_bootstrap(answer)->0;
    let (j2, e3) = bootstrap::join_response_taken(j1, PeerAddr::V4(addr), answer, key, hosts);
    let chosen = lemma_registers(j1, k, p, told, key, hosts);
    let register = join_wire::enc_bare(chosen);
    let register_head = seq![wire::DEVICE_REGISTER_OP] + code.id@;
    let answer_head = seq![wire::BOOTSTRAP_RESPONSE_OP];
    assert(chosen.alias == d.alias && chosen.hosts == d.hosts && chosen.sg_rank == d.sg_rank);
    lemma_bare_read(chosen);
    let own = find::device_is(j.device_uuid);
    let r = register_head.skip(1) + nonce + sealed;
    lemma_recognised(s1, seen, code.id, key, now, later, nonce, sealed);
    let (found, s3) = bootstrap::acceptance_taken(s2, r, later);
    let s4 = bootstrap::registration_taken(s3, register, target, later, retention).0;
    joining::law_registered_is_vouched(s3, chosen, target, later, retention);
    model::lemma_first_where(s4.owner.user.devices, own);
    let x = model::first_where(s4.owner.user.devices, own)->0;
    assert(own(s4.owner.user.devices[x]));
    assert((nonce + sealed).take(24) =~= nonce);
    assert((nonce + sealed).skip(24) =~= sealed);
    let t = Join { request, answer_head, answer, register_head, register };
    assert(dispatch::packet_of(request) == Some(Packet::BootstrapRequest));
    assert(seals(e2[1], key, seen, Packet::BootstrapResponse, answer_head, answer));
    assert(seals(
        e3[1],
        key,
        PeerAddr::V4(addr),
        Packet::DeviceRegistration,
        register_head,
        register,
    ));
    assert(joined(
        t,
        s,
        i,
        j,
        k,
        code,
        addr,
        seen,
        alias,
        grade,
        rank,
        hosts,
        fresh,
        key,
        now,
        later,
        target,
        retention,
        nonce,
        sealed,
    ));
}

proof fn lemma_joined_keeps(own: Seq<DeviceView>, more: Seq<DeviceView>, local: Uuid, k: int)
    requires
        0 <= k < own.len(),
    ensures
        bootstrap::joined(own, more, local).len() >= own.len(),
        forall|l: int|
            0 <= l < own.len() ==> #[trigger] bootstrap::joined(own, more, local)[l] == own[l],
    decreases more.len(),
{
    if more.len() > 0 {
        lemma_joined_keeps(own, more.drop_last(), local, k);
    }
}

/// The packets of an exchange of cards.
pub struct Exchange {
    pub request_head: Seq<u8>,
    pub request: Seq<u8>,
    pub answer_head: Seq<u8>,
    pub answer: Seq<u8>,
}

/// An exchange of cards goes from hand to hand: the card of `a` goes to the server
/// of the invitation, which finds in it what the key is derived from and takes
/// `a` in; its own card goes to where the other came from, `a` derives the key from
/// the other halves and takes `b` in.
pub open spec fn exchanged(
    t: Exchange,
    a: NodeView,
    b: NodeView,
    i: int,
    code: InvitationCodeView,
    addr: HostAddr,
    seen: PeerAddr,
    fresh: KeyPair,
    key: SecretKey,
    now: u64,
    retention: u64,
    nonce: Seq<u8>,
    sealed: Seq<u8>,
    ua: Uuid,
    ub: Uuid,
) -> bool {
    let (a1, e1) = mint::exchange_started(a, code, addr, fresh, key);
    let (found, b1) = bootstrap::contact_invitation_taken(
        b,
        t.request_head.skip(1) + nonce + sealed,
        now,
    );
    let (b2, e2) = bootstrap::contact_requested(
        b1,
        seen,
        t.request,
        key,
        WriterTarget::Local,
        now,
        retention,
    );
    let (a2, e3) = bootstrap::contact_responded(
        a1,
        PeerAddr::V4(addr),
        t.answer,
        WriterTarget::Local,
        now,
        retention,
    );
    &&& e1.len() == 1
    &&& seals(e1[0], key, PeerAddr::V4(addr), Packet::ContactRequest, t.request_head, t.request)
    &&& found matches Some((f, n, x)) && f.invitation_id == code.id && f.own_secret
        == b.owner.contact_invitations[i].key_pair.private_key && f.peer_public == fresh.public_key
        && n == nonce && x == sealed
    &&& e2.len() >= 2
    &&& seals(
        e2[e2.len() - 2],
        key,
        seen,
        Packet::ContactResponse,
        t.answer_head,
        t.answer,
    )
    &&& bootstrap::contact_answer_parts(a1, PeerAddr::V4(addr), nonce + sealed) == Some(
        (fresh.private_key, code.public_key, nonce, sealed),
    )
    &&& upkeep::holds(b2, a.owner.key_pair.public_key, ua)
    &&& upkeep::holds(a2, b.owner.key_pair.public_key, ub)
    &&& a2.owner.pending_contact_exchange is None
    &&& asks_for_upkeep(e2) && asks_for_upkeep(e3)
}

/// The last effect has the sessions seen to at once.
pub open spec fn asks_for_upkeep(e: Seq<EffectView>) -> bool {
    e.len() > 0 && e.last() == (EffectView::Schedule {
        task: Task::MaintainConnections,
        delay_ms: 0,
    })
}

/// Users with a good invitation between them come to know each other: each can
/// open sessions with the other from each of its devices.
pub proof fn law_invited_users_meet(
    a: NodeView,
    b: NodeView,
    i: int,
    code: InvitationCodeView,
    addr: HostAddr,
    seen: PeerAddr,
    fresh: KeyPair,
    key: SecretKey,
    now: u64,
    retention: u64,
    nonce: Seq<u8>,
    sealed: Seq<u8>,
    ua: Uuid,
    ub: Uuid,
)
    requires
        invited_by(b.owner.contact_invitations, code.id, i),
        now < b.owner.contact_invitations[i].expires_at,
        wire::short_text(a.owner.user.alias),
        join_wire::plain_bares(a.owner.user.devices),
        wire::short_text(b.owner.user.alias),
        join_wire::plain_bares(b.owner.user.devices),
        upkeep::among(a.owner.user.devices, ua),
        upkeep::among(b.owner.user.devices, ub),
        nonce.len() == 24,
    ensures
        exists|t: Exchange| #[trigger]
            exchanged(
                t,
                a,
                b,
                i,
                code,
                addr,
                seen,
                fresh,
                key,
                now,
                retention,
                nonce,
                sealed,
                ua,
                ub,
            ),
{
    let (a1, e1) = mint::exchange_started(a, code, addr, fresh, key);
    let request_head = seq![wire::CONTACT_REQUEST_OP] + code.id@ + fresh.public_key@;
    let answer_head = seq![wire::CONTACT_RESPONSE_OP];
    let request = join_wire::enc_contact_payload(join_wire::own_card(a.owner));
    let answer = join_wire::enc_contact_payload(join_wire::own_card(b.owner));
    let q = request_head.skip(1) + nonce + sealed;
    assert(q.subrange(0, 16) =~= code.id@);
    assert(q.subrange(16, 48) =~= fresh.public_key@);
    assert(q.subrange(48, 72) =~= nonce);
    assert(q.skip(72) =~= sealed);
    wire::lemma_uuid_of(code.id);
    wire::lemma_key_of(fresh.public_key);
    law_invitation_is_good_once(b.owner.contact_invitations, code.id, i, now);
    let (found, b1) = bootstrap::contact_invitation_taken(b, q, now);
    upkeep::lemma_among(a.owner.user.devices, ua);
    upkeep::lemma_among(b.owner.user.devices, ub);
    let a0 = NodeView {
        owner: OwnerView { pending_contact_exchange: None, ..a1.owner },
        ..a1
    };
    joining::law_contacts_meet(a0, b1, now, retention, ua, ub);
    let (b2, e2) = bootstrap::contact_requested(
        b1,
        seen,
        request,
        key,
        WriterTarget::Local,
        now,
        retention,
    );
    let (a2, e3) = bootstrap::contact_responded(
        a1,
        PeerAddr::V4(addr),
        answer,
        WriterTarget::Local,
        now,
        retention,
    );
    upkeep::law_vouching(b2, a.owner.key_pair.public_key, ua);
    upkeep::law_vouching(a2, b.owner.key_pair.public_key, ub);
    assert((nonce + sealed).take(24) =~= nonce);
    assert((nonce + sealed).skip(24) =~= sealed);
    assert(seals(e1[0], key, PeerAddr::V4(addr), Packet::ContactRequest, request_head, request));
    assert(seals(e2[e2.len() - 2], key, seen, Packet::ContactResponse, answer_head, answer));
    let t = Exchange { request_head, request, answer_head, answer };
    assert(exchanged(
        t,
        a,
        b,
        i,
        code,
        addr,
        seen,
        fresh,
        key,
        now,
        retention,
        nonce,
        sealed,
        ua,
        ub,
    ));
}

/// An answer comes to the first wish with its token, which then holds what the
/// answer says; no other wish changes. An answer that nobody waits for changes
/// nothing.
pub proof fn law_answer_meets_its_wish(s: Seq<InviteSlotView>, token: Uuid, rest: Seq<u8>)
    requires
        rest.len() >= 1,
    ensures
        ({
            let d = token@ + rest;
            let (found, t) = mint::invitation_filled(s, d);
            &&& t.len() == s.len()
            &&& found <==> exists|i: int| 0 <= i < s.len() && (#[trigger] s[i]).token == token
            &&& forall|i: int|
                #![trigger t[i]]
                0 <= i < s.len() ==> t[i].token == s[i].token && if s[i].token == token && (forall|
                    j: int,
                |
                    0 <= j < i ==> (#[trigger] s[j]).token != token) {
                    t[i].outcome == Some(mint::answered_code(d))
                } else {
                    t[i] == s[i]
                }
        }),
{
    let d = token@ + rest;
    let p = mint::slot_is(token);
    assert(d.subrange(0, 16) =~= token@);
    wire::lemma_uuid_of(token);
    model::lemma_first_where(s, p);
    let (found, t) = mint::invitation_filled(s, d);
    match model::first_where(s, p) {
        Some(k) => {
            assert(p(s[k]));
            assert forall|j: int| 0 <= j < k implies (#[trigger] s[j]).token != token by {
                assert(!p(s[j]));
            }
        },
        None => {
            assert forall|j: int| 0 <= j < s.len() implies (#[trigger] s[j]).token != token by {
                assert(!p(s[j]));
            }
        },
    }
}

} // verus!
