//! What invitations lead to, from end to end: a device that joined is one of
//! the user's devices everywhere, and contacts know each other's devices.
use crate::apply;
use crate::bootstrap;
use crate::cards;
use crate::device_wire;
use crate::device_wire::CardView;
use crate::find;
use crate::join_wire;
use crate::join_wire::ContactPayloadView;
use crate::mint;
use crate::mint::MintWith;
use crate::model;
use crate::order;
use crate::routing::WriterTarget;
use crate::sessions;
use crate::types::{
    DeviceView, Invitation, NodeView, OwnerView, PendingBootstrapView, SecretKey, Uuid,
};
use crate::wire;
use crate::wire::{INVITE_RESULT_OK, INVITE_TYPE_CONTACT};
use vstd::prelude::*;

verus! {

/// The invitations of a kind.
pub open spec fn invitations(n: NodeView, kind: u8) -> Seq<Invitation> {
    if kind == INVITE_TYPE_CONTACT {
        n.owner.contact_invitations
    } else {
        n.owner.device_invitations
    }
}

/// An invitation minted on a server can be redeemed there until it runs out, and
/// leaves nothing behind.
pub proof fn law_minted_can_be_redeemed(n: NodeView, kind: u8, w: MintWith, later: u64)
    requires
        mint::minting_sg(n) == Some(n.device_uuid),
        forall|i: int| 0 <= i < invitations(n, kind).len() ==> (#[trigger] invitations(
            n,
            kind,
        )[i]).id != w.fresh_id,
        w.now + mint::INVITATION_LIFETIME <= u64::MAX,
        later < w.now + mint::INVITATION_LIFETIME,
    ensures
        ({
            let (r, m, _) = mint::minted(n, kind, w);
            &&& r is Ready
            &&& bootstrap::redeemed(invitations(m, kind), w.fresh_id, later) == (
                Some(mint::new_invitation(w.fresh_id, w.fresh_keys, w.now)),
                invitations(n, kind),
            )
        }),
{
    let (_, m, _) = mint::minted(n, kind, w);
    let had = invitations(n, kind);
    let has = invitations(m, kind);
    let k = had.len() as int;
    let p = bootstrap::invitation_is(w.fresh_id);
    assert forall|j: int| 0 <= j < k implies !p(#[trigger] has[j]) by {
        assert(has[j] == had[j]);
    }
    assert(p(has[k]));
    model::lemma_first_at(has, p, k);
    assert(has.remove(k) =~= had);
}

/// The code that another server minted reaches the one who waits for it as it
/// was sent, and a refusal arrives as one.
pub proof fn law_code_reaches_waiter(token: Uuid, result: u8, code: Seq<char>)
    ensures
        ({
            let pt = mint::mint_answer(token@, result, code);
            &&& pt.len() >= 17
            &&& wire::uuid_of(pt.subrange(0, 16)) == token
            &&& mint::answered_code(pt) == if result == INVITE_RESULT_OK {
                Ok::<Seq<char>, ()>(code)
            } else {
                Err(())
            }
        }),
{
    let pt = mint::mint_answer(token@, result, code);
    let b = vstd::utf8::encode_utf8(code);
    assert(pt.subrange(0, 16) =~= token@);
    assert(pt.skip(17) =~= b);
    wire::lemma_uuid_of(token);
    vstd::utf8::encode_utf8_valid_utf8(code);
    vstd::utf8::encode_utf8_decode_utf8(code);
}

/// What a server tells a joining device fits its encoding.
pub open spec fn tellable(o: OwnerView) -> bool {
    &&& wire::short_text(o.user.alias)
    &&& join_wire::plain_bares(o.user.devices)
    &&& o.contact_users.len() <= 255
    &&& forall|i: int|
        0 <= i < o.contact_users.len() ==> join_wire::plain_bare_contact(
            #[trigger] o.contact_users[i],
        )
}

proof fn lemma_joined_has(
    own: Seq<DeviceView>,
    more: Seq<DeviceView>,
    local: Uuid,
    u: Uuid,
)
    ensures
        model::any_where(own, find::device_is(u)) ==> model::any_where(
            bootstrap::joined(own, more, local),
            find::device_is(u),
        ),
        u != local && model::any_where(more, find::device_is(u)) ==> model::any_where(
            bootstrap::joined(own, more, local),
            find::device_is(u),
        ),
    decreases more.len(),
{
    if more.len() > 0 {
        let t = more.drop_last();
        let s = bootstrap::joined(own, t, local);
        let r = bootstrap::joined(own, more, local);
        let d = more.last();
        lemma_joined_has(own, t, local, u);
        if model::any_where(s, find::device_is(u)) {
            let i = choose|i: int| 0 <= i < s.len() && find::device_is(u)(#[trigger] s[i]);
            assert(r[i] == s[i]);
            assert(find::device_is(u)(r[i]));
        } else if u != local && model::any_where(more, find::device_is(u)) {
            let i = choose|i: int| 0 <= i < more.len() && find::device_is(u)(#[trigger] more[i]);
            if i < t.len() {
                assert(find::device_is(u)(t[i]));
            } else {
                assert(d.uuid == u);
                assert(find::device_is(u)(r[s.len() as int]));
            }
        }
    }
}

/// A device that joined is the same user: it has the user's name, identity and
/// keys, the user's contacts, and every device that the server has.
pub proof fn law_joined_is_the_user(
    server: NodeView,
    joiner: NodeView,
    p: PendingBootstrapView,
    key: SecretKey,
    hosts: Seq<Seq<char>>,
    u: Uuid,
)
    requires
        tellable(server.owner),
    ensures
        ({
            let told = join_wire::parse_bootstrap(
                join_wire::enc_bootstrap(join_wire::own_payload(server.owner)),
            );
            let m = bootstrap::join_answered(joiner, p, told->0, key, hosts).0;
            &&& told is Some
            &&& m.device_uuid == joiner.device_uuid
            &&& m.owner.user.uuid == server.owner.user.uuid
            &&& m.owner.user.alias == server.owner.user.alias
            &&& m.owner.key_pair == server.owner.key_pair
            &&& m.owner.contact_users == join_wire::stripped_contacts(server.owner.contact_users)
            &&& m.owner.pending_bootstrap is None
            &&& u != joiner.device_uuid && server.owner.device_index(u) is Some
                ==> m.owner.device_index(u) is Some
            &&& joiner.owner.device_index(u) is Some ==> m.owner.device_index(u) is Some
        }),
{
    let b = join_wire::own_payload(server.owner);
    join_wire::law_bootstrap_roundtrip(b);
    let t = join_wire::told(b);
    let m = bootstrap::join_answered(joiner, p, t, key, hosts).0;
    let local = joiner.device_uuid;
    let devices = bootstrap::joined(joiner.owner.user.devices, t.devices, local);
    let named = find::device_is(u);
    model::lemma_first_where(server.owner.user.devices, named);
    model::lemma_first_where(joiner.owner.user.devices, named);
    model::lemma_first_where(devices, find::device_is(local));
    model::lemma_first_where(m.owner.user.devices, named);
    lemma_joined_has(joiner.owner.user.devices, t.devices, local, u);
    if let Some(i) = server.owner.device_index(u) {
        assert(named(server.owner.user.devices[i]));
        assert(named(t.devices[i]));
    }
    if model::any_where(devices, named) {
        let k = choose|k: int| 0 <= k < devices.len() && named(#[trigger] devices[k]);
        assert(named(m.owner.user.devices[k]));
    }
}

/// A device that registers becomes one of the user's devices on the server: its
/// registration is read as it was written, and it may connect from then on.
pub proof fn law_registered_is_vouched(
    server: NodeView,
    d: DeviceView,
    target: WriterTarget,
    now: u64,
    retention: u64,
)
    requires
        join_wire::plain_bare(d),
        target != WriterTarget::Unreachable,
    ensures
        ({
            let read = join_wire::parse_bare(join_wire::enc_bare(d), 0);
            let (x, _) = read->0;
            let m = bootstrap::device_registered(server, x, target, now, retention).0;
            &&& read is Some
            &&& x.uuid == d.uuid
            &&& m.owner.device_index(d.uuid) is Some
            &&& m.owner.key_pair == server.owner.key_pair
            &&& sessions::vouched(m.owner, server.owner.key_pair.public_key, d.uuid)
        }),
{
    let e = join_wire::enc_bare(d);
    wire::lemma_stands_whole(e);
    device_wire::lemma_device(e, 0, d.uuid, d.alias, d.grade, d.sg_rank, d.hosts);
    let (x, _) = join_wire::parse_bare(e, 0)->0;
    assert(x.uuid == d.uuid);
    let named = find::device_is(d.uuid);
    let m = bootstrap::device_registered(server, x, target, now, retention).0;
    model::lemma_first_where(server.owner.user.devices, named);
    if model::any_where(server.owner.user.devices, named) {
        assert(m == server);
    } else {
        let more = server.owner.user.devices.push(x);
        let k = server.owner.user.devices.len() as int;
        assert(named(more[k]));
        assert(model::any_where(more, named));
        assert(m.owner.user.devices == more);
    }
    model::lemma_first_where(m.owner.user.devices, named);
}

proof fn lemma_sorted_has<T>(s: Seq<T>, key: spec_fn(T) -> Seq<u8>, x: T)
    ensures
        order::sorted(s, key).contains(x) <==> s.contains(x),
{
    broadcast use vstd::seq_lib::group_to_multiset_ensures;

    order::lemma_sorted(s, key);
    assert(order::sorted(s, key).to_multiset().count(x) == s.to_multiset().count(x));
}

/// Some card has the identifier.
pub open spec fn has_card(s: Seq<CardView>, u: Uuid) -> bool {
    exists|i: int| 0 <= i < s.len() && (#[trigger] s[i]).uuid == u
}

proof fn lemma_normal_has(s: Seq<CardView>, u: Uuid)
    ensures
        has_card(cards::normal_cards(s), u) <==> has_card(s, u),
{
    let t = Seq::new(s.len(), |i: int| cards::normal_card(s[i]));
    let r = cards::normal_cards(s);
    if has_card(s, u) {
        let i = choose|i: int| 0 <= i < s.len() && (#[trigger] s[i]).uuid == u;
        let x = t[i];
        assert(t.contains(x));
        lemma_sorted_has(t, cards::card_key(), x);
        let j = choose|j: int| 0 <= j < r.len() && r[j] == x;
        assert(r[j].uuid == u);
    }
    if has_card(r, u) {
        let i = choose|i: int| 0 <= i < r.len() && (#[trigger] r[i]).uuid == u;
        let x = r[i];
        assert(r.contains(x));
        lemma_sorted_has(t, cards::card_key(), x);
        let j = choose|j: int| 0 <= j < t.len() && t[j] == x;
        assert(s[j].uuid == u);
    }
}

proof fn lemma_cards_have(devices: Seq<DeviceView>, u: Uuid)
    ensures
        has_card(cards::cards_of(devices), u) <==> model::any_where(devices, find::device_is(u)),
{
    let s = cards::device_cards(devices);
    lemma_normal_has(s, u);
    if has_card(s, u) {
        let i = choose|i: int| 0 <= i < s.len() && (#[trigger] s[i]).uuid == u;
        assert(find::device_is(u)(devices[i]));
    }
    if model::any_where(devices, find::device_is(u)) {
        let i = choose|i: int|
            0 <= i < devices.len() && find::device_is(u)(#[trigger] devices[i]);
        assert(s[i].uuid == u);
    }
}

/// A contact that the writer took in may connect from each of its devices.
pub proof fn law_contact_is_vouched(
    n: NodeView,
    c: ContactPayloadView,
    now: u64,
    retention: u64,
    u: Uuid,
)
    requires
        model::any_where(c.devices, find::device_is(u)),
    ensures
        ({
            let m = bootstrap::contact_added(n, c, WriterTarget::Local, now, retention).0;
            &&& m.owner.contact_index(c.uuid) is Some
            &&& sessions::vouched(m.owner, c.public_key, u)
        }),
{
    let change = bootstrap::contact_change(c);
    let m = bootstrap::contact_added(n, c, WriterTarget::Local, now, retention).0;
    let told = cards::cards_of(c.devices);
    let (b, o) = apply::applied(n.owner, change).unwrap();
    assert(m.owner.contact_users == o.contact_users) by {
        apply::law_no_change_is_no_change(n.owner, change);
    }
    let known = find::contact_is(c.uuid);
    model::lemma_first_where(n.owner.contact_users, known);
    let at = match n.owner.contact_index(c.uuid) {
        Some(i) => i,
        None => n.owner.contact_users.len() as int,
    };
    let k = o.contact_users[at];
    lemma_cards_have(c.devices, u);
    lemma_normal_has(told, u);
    cards::lemma_cards_of_card_devices(told);
    lemma_cards_have(k.user.devices, u);
    assert(known(k));
    assert(sessions::contact_with_key_and_device(c.public_key, u)(k));
    assert(m.owner.contact_users[at] == k);
    model::lemma_first_some(m.owner.contact_users, known, at);
}

/// Two users who exchanged cards know each other: each has the other as a
/// contact, and each of the other's devices may connect.
pub proof fn law_contacts_meet(
    a: NodeView,
    b: NodeView,
    now: u64,
    retention: u64,
    ua: Uuid,
    ub: Uuid,
)
    requires
        wire::short_text(a.owner.user.alias),
        join_wire::plain_bares(a.owner.user.devices),
        wire::short_text(b.owner.user.alias),
        join_wire::plain_bares(b.owner.user.devices),
        model::any_where(a.owner.user.devices, find::device_is(ua)),
        model::any_where(b.owner.user.devices, find::device_is(ub)),
    ensures
        ({
            let card_a = join_wire::parse_contact_payload(
                join_wire::enc_contact_payload(join_wire::own_card(a.owner)),
            );
            let card_b = join_wire::parse_contact_payload(
                join_wire::enc_contact_payload(join_wire::own_card(b.owner)),
            );
            let x = bootstrap::contact_added(a, card_b->0, WriterTarget::Local, now, retention).0;
            let y = bootstrap::contact_added(b, card_a->0, WriterTarget::Local, now, retention).0;
            &&& card_a is Some
            &&& card_b is Some
            &&& x.owner.contact_index(b.owner.user.uuid) is Some
            &&& y.owner.contact_index(a.owner.user.uuid) is Some
            &&& sessions::vouched(x.owner, b.owner.key_pair.public_key, ub)
            &&& sessions::vouched(y.owner, a.owner.key_pair.public_key, ua)
        }),
{
    let own_a = join_wire::own_card(a.owner);
    let own_b = join_wire::own_card(b.owner);
    join_wire::law_contact_payload_roundtrip(own_a);
    join_wire::law_contact_payload_roundtrip(own_b);
    let card_a = ContactPayloadView { devices: join_wire::stripped(own_a.devices), ..own_a };
    let card_b = ContactPayloadView { devices: join_wire::stripped(own_b.devices), ..own_b };
    let i = choose|i: int|
        0 <= i < own_a.devices.len() && find::device_is(ua)(#[trigger] own_a.devices[i]);
    assert(find::device_is(ua)(card_a.devices[i]));
    let j = choose|j: int|
        0 <= j < own_b.devices.len() && find::device_is(ub)(#[trigger] own_b.devices[j]);
    assert(find::device_is(ub)(card_b.devices[j]));
    law_contact_is_vouched(a, card_b, now, retention, ub);
    law_contact_is_vouched(b, card_a, now, retention, ua);
}

} // verus!
