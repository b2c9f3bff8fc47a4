//! Between stored devices and the cards that changes carry.
//!
//! Cards are compared in a normal order, devices by identifier and
//! applications by identifier and alias, so that the order in which they were
//! received does not matter.
use crate::device_wire;
use crate::device_wire::{CardView, ContactDeviceCard};
use crate::model;
use crate::order;
use crate::order::{bytes_lt, uuid_lt};
use crate::types;
use crate::types::{
    clone_strings, nil, no_host, uuid_eq, Application, ApplicationView, Device, DeviceView, Uuid,
};
use vstd::prelude::*;
use vstd::string::*;

verus! {

/// Applications are ordered by identifier, then by alias.
pub open spec fn pair_key() -> spec_fn((Uuid, Seq<char>)) -> Seq<u8> {
    |a: (Uuid, Seq<char>)| a.0@ + vstd::utf8::encode_utf8(a.1)
}

/// Cards are ordered by identifier.
pub open spec fn card_key() -> spec_fn(CardView) -> Seq<u8> {
    |c: CardView| c.uuid@
}

/// A card with its applications in order.
pub open spec fn normal_card(c: CardView) -> CardView {
    CardView { apps: order::sorted(c.apps, pair_key()), ..c }
}

/// Cards in order, each with its applications in order.
pub open spec fn normal_cards(s: Seq<CardView>) -> Seq<CardView> {
    order::sorted(Seq::new(s.len(), |i: int| normal_card(s[i])), card_key())
}

/// The public part of a stored device.
pub open spec fn device_card(d: DeviceView) -> CardView {
    CardView {
        uuid: d.uuid,
        alias: d.alias,
        grade: d.grade,
        sg_rank: d.sg_rank,
        hosts: d.hosts,
        apps: Seq::new(
            d.applications.len(),
            |i: int| (d.applications[i].id, d.applications[i].alias),
        ),
    }
}

/// The public parts of stored devices, in the order in which they stand.
pub open spec fn device_cards(s: Seq<DeviceView>) -> Seq<CardView> {
    Seq::new(s.len(), |i: int| device_card(s[i]))
}

/// The public parts of stored devices, in normal order.
pub open spec fn cards_of(s: Seq<DeviceView>) -> Seq<CardView> {
    normal_cards(device_cards(s))
}

/// An application of which only the public part is known.
pub open spec fn public_app(id: Uuid, alias: Seq<char>) -> ApplicationView {
    ApplicationView {
        id,
        alias,
        protocol: Seq::empty(),
        host: types::spec_no_host(),
        user_approved: true,
        token: types::spec_nil(),
    }
}

pub open spec fn public_apps(s: Seq<(Uuid, Seq<char>)>) -> Seq<ApplicationView> {
    Seq::new(s.len(), |i: int| public_app(s[i].0, s[i].1))
}

/// A device as a card describes it.
pub open spec fn card_device(c: CardView) -> DeviceView {
    DeviceView {
        uuid: c.uuid,
        alias: c.alias,
        grade: c.grade,
        sg_rank: c.sg_rank,
        hosts: c.hosts,
        applications: public_apps(c.apps),
    }
}

pub open spec fn card_devices(s: Seq<CardView>) -> Seq<DeviceView> {
    Seq::new(s.len(), |i: int| card_device(s[i]))
}

/// An application of which only the public part is known.
pub fn new_public_app(id: Uuid, alias: String) -> (r: Application)
    ensures
        r@ == public_app(id, alias@),
{
    Application {
        id,
        alias,
        protocol: String::new(),
        host: no_host(),
        user_approved: true,
        token: nil(),
    }
}

/// Applications of which only the public part is known.
pub fn card_apps_to_applications(apps: &Vec<(Uuid, String)>) -> (r: Vec<Application>)
    ensures
        model::views(r@) == public_apps(device_wire::app_pairs(apps@)),
{
    broadcast use model::group_views;

    let mut out: Vec<Application> = Vec::new();
    let mut i: usize = 0;
    while i < apps.len()
        invariant
            i <= apps@.len(),
            model::views(out@) == public_apps(device_wire::app_pairs(apps@)).take(i as int),
        decreases apps@.len() - i,
    {
        out.push(new_public_app(apps[i].0, apps[i].1.clone()));
        proof {
            model::lemma_take_push(public_apps(device_wire::app_pairs(apps@)), i as int);
        }
        i += 1;
    }
    assert(model::views(out@) =~= public_apps(device_wire::app_pairs(apps@)));
    out
}

/// The device that a card describes.
pub fn card_to_device(c: &ContactDeviceCard) -> (r: Device)
    ensures
        r@ == card_device(c@),
{
    Device {
        uuid: c.uuid,
        alias: c.alias.clone(),
        grade: c.grade,
        sg_rank: c.sg_rank,
        hosts: clone_strings(&c.hosts),
        applications: card_apps_to_applications(&c.apps),
    }
}

/// The devices that cards describe.
pub fn cards_to_devices(cards: &Vec<ContactDeviceCard>) -> (r: Vec<Device>)
    ensures
        model::views(r@) == card_devices(model::views(cards@)),
{
    broadcast use model::group_views;

    let mut out: Vec<Device> = Vec::new();
    let mut i: usize = 0;
    while i < cards.len()
        invariant
            i <= cards@.len(),
            model::views(out@) == card_devices(model::views(cards@)).take(i as int),
        decreases cards@.len() - i,
    {
        out.push(card_to_device(&cards[i]));
        proof {
            model::lemma_take_push(card_devices(model::views(cards@)), i as int);
        }
        i += 1;
    }
    assert(model::views(out@) =~= card_devices(model::views(cards@)));
    out
}

/// Whether application `a` comes before `b`.
fn pair_lt(a: &(Uuid, String), b: &(Uuid, String)) -> (r: bool)
    ensures
        r == order::lex_lt(pair_key()((a.0, a.1@)), pair_key()((b.0, b.1@))),
{
    let r = if uuid_eq(&a.0, &b.0) {
        bytes_lt(a.1.as_str().as_bytes(), b.1.as_str().as_bytes())
    } else {
        uuid_lt(&a.0, &b.0)
    };
    proof {
        let x = vstd::utf8::encode_utf8(a.1@);
        let y = vstd::utf8::encode_utf8(b.1@);
        let ka = a.0@ + x;
        let kb = b.0@ + y;
        order::lemma_shared(a.0@, b.0@);
        order::lemma_shared(x, y);
        order::lemma_uuid_bytes(a.0, b.0);
        if a.0 == b.0 {
            let i = order::shared(x, y);
            assert forall|j: int| 0 <= j < 16 + i implies ka[j] == kb[j] by {
                if j >= 16 {
                    assert(x[j - 16] == y[j - 16]);
                }
            }
            order::lemma_shared_is(ka, kb, 16 + i);
        } else {
            let i = order::shared(a.0@, b.0@);
            if i == 16 {
                assert(a.0@ =~= b.0@);
            }
            order::lemma_shared_is(ka, kb, i);
        }
    }
    r
}

/// The applications in order.
pub fn sort_apps(apps: &Vec<(Uuid, String)>) -> (r: Vec<(Uuid, String)>)
    ensures
        device_wire::app_pairs(r@) == order::sorted(device_wire::app_pairs(apps@), pair_key()),
{
    let ghost s = device_wire::app_pairs(apps@);
    let mut out: Vec<(Uuid, String)> = Vec::new();
    let mut i: usize = 0;
    assert(device_wire::app_pairs(out@) =~= s.take(0));
    while i < apps.len()
        invariant
            i <= apps@.len(),
            s == device_wire::app_pairs(apps@),
            device_wire::app_pairs(out@) == order::sorted(s.take(i as int), pair_key()),
        decreases apps@.len() - i,
    {
        let ghost t = device_wire::app_pairs(out@);
        let ghost x = s[i as int];
        let mut k: usize = 0;
        while k < out.len() && !pair_lt(&apps[i], &out[k])
            invariant
                k <= out@.len(),
                i < apps@.len(),
                t == device_wire::app_pairs(out@),
                x == (apps@[i as int].0, apps@[i as int].1@),
                forall|j: int|
                    0 <= j < k ==> !order::greater(x, pair_key())(#[trigger] t[j]),
            decreases out@.len() - k,
        {
            k += 1;
        }
        proof {
            if k < out@.len() {
                assert(order::greater(x, pair_key())(t[k as int]));
                model::lemma_first_at(t, order::greater(x, pair_key()), k as int);
            } else {
                model::lemma_first_none(t, order::greater(x, pair_key()));
            }
            assert(s.take(i + 1).drop_last() =~= s.take(i as int));
            assert(s.take(i + 1).last() == x);
        }
        let ghost prev = out@;
        out.insert(k, (apps[i].0, apps[i].1.clone()));
        assert(device_wire::app_pairs(out@) =~= t.insert(k as int, x));
        i += 1;
    }
    assert(s.take(s.len() as int) =~= s);
    out
}

/// Puts the cards in order.
fn sort_cards(cards: Vec<ContactDeviceCard>) -> (r: Vec<ContactDeviceCard>)
    ensures
        model::views(r@) == order::sorted(model::views(cards@), card_key()),
{
    broadcast use model::group_views;

    let ghost s = model::views(cards@);
    let mut out: Vec<ContactDeviceCard> = Vec::new();
    let mut i: usize = 0;
    assert(model::views(out@) =~= s.take(0));
    while i < cards.len()
        invariant
            i <= cards@.len(),
            s == model::views(cards@),
            model::views(out@) == order::sorted(s.take(i as int), card_key()),
        decreases cards@.len() - i,
    {
        let ghost t = model::views(out@);
        let ghost x = s[i as int];
        let mut k: usize = 0;
        while k < out.len() && !uuid_lt(&cards[i].uuid, &out[k].uuid)
            invariant
                k <= out@.len(),
                i < cards@.len(),
                t == model::views(out@),
                x == cards@[i as int]@,
                forall|j: int|
                    0 <= j < k ==> !order::greater(x, card_key())(#[trigger] t[j]),
            decreases out@.len() - k,
        {
            k += 1;
        }
        proof {
            if k < out@.len() {
                assert(order::greater(x, card_key())(t[k as int]));
                model::lemma_first_at(t, order::greater(x, card_key()), k as int);
            } else {
                model::lemma_first_none(t, order::greater(x, card_key()));
            }
            assert(s.take(i + 1).drop_last() =~= s.take(i as int));
            assert(s.take(i + 1).last() == x);
        }
        out.insert(k, cards[i].clone());
        assert(model::views(out@) =~= t.insert(k as int, x));
        i += 1;
    }
    assert(s.take(s.len() as int) =~= s);
    out
}

/// The cards in normal order.
pub fn normalize_cards(cards: &Vec<ContactDeviceCard>) -> (r: Vec<ContactDeviceCard>)
    ensures
        model::views(r@) == normal_cards(model::views(cards@)),
{
    broadcast use model::group_views;

    let ghost s = model::views(cards@);
    let ghost target = Seq::new(s.len(), |i: int| normal_card(s[i]));
    let mut out: Vec<ContactDeviceCard> = Vec::new();
    let mut i: usize = 0;
    while i < cards.len()
        invariant
            i <= cards@.len(),
            s == model::views(cards@),
            target == Seq::new(s.len(), |i: int| normal_card(s[i])),
            model::views(out@) == target.take(i as int),
        decreases cards@.len() - i,
    {
        let c = &cards[i];
        out.push(
            ContactDeviceCard {
                uuid: c.uuid,
                alias: c.alias.clone(),
                grade: c.grade,
                sg_rank: c.sg_rank,
                hosts: clone_strings(&c.hosts),
                apps: sort_apps(&c.apps),
            },
        );
        proof {
            model::lemma_take_push(target, i as int);
        }
        i += 1;
    }
    assert(model::views(out@) =~= target);
    sort_cards(out)
}

/// The public part of a stored device.
fn card_of(d: &Device) -> (r: ContactDeviceCard)
    ensures
        r@ == device_card(d@),
{
    broadcast use model::group_views;

    let mut apps: Vec<(Uuid, String)> = Vec::new();
    let mut i: usize = 0;
    while i < d.applications.len()
        invariant
            i <= d.applications@.len(),
            device_wire::app_pairs(apps@) == device_card(d@).apps.take(i as int),
        decreases d.applications@.len() - i,
    {
        let pair = (d.applications[i].id, d.applications[i].alias.clone());
        proof {
            device_wire::lemma_app_pairs_push(apps@, pair);
            model::lemma_take_push(device_card(d@).apps, i as int);
        }
        apps.push(pair);
        i += 1;
    }
    assert(device_wire::app_pairs(apps@) =~= device_card(d@).apps);
    ContactDeviceCard {
        uuid: d.uuid,
        alias: d.alias.clone(),
        grade: d.grade,
        sg_rank: d.sg_rank,
        hosts: clone_strings(&d.hosts),
        apps,
    }
}

/// The public parts of stored devices, in the order in which they stand.
pub fn plain_cards(devices: &Vec<Device>) -> (r: Vec<ContactDeviceCard>)
    ensures
        model::views(r@) == device_cards(model::views(devices@)),
{
    broadcast use model::group_views;

    let ghost target = device_cards(model::views(devices@));
    let mut out: Vec<ContactDeviceCard> = Vec::new();
    let mut i: usize = 0;
    while i < devices.len()
        invariant
            i <= devices@.len(),
            target == device_cards(model::views(devices@)),
            model::views(out@) == target.take(i as int),
        decreases devices@.len() - i,
    {
        out.push(card_of(&devices[i]));
        proof {
            model::lemma_take_push(target, i as int);
        }
        i += 1;
    }
    assert(model::views(out@) =~= target);
    out
}

/// The public parts of stored devices, in normal order.
pub fn devices_to_cards(devices: &Vec<Device>) -> (r: Vec<ContactDeviceCard>)
    ensures
        model::views(r@) == cards_of(model::views(devices@)),
{
    let cards = plain_cards(devices);
    normalize_cards(&cards)
}

fn strings_eq(a: &Vec<String>, b: &Vec<String>) -> (r: bool)
    ensures
        r == (model::views(a@) == model::views(b@)),
{
    broadcast use model::group_views;

    if a.len() != b.len() {
        assert(model::views(a@).len() != model::views(b@).len());
        return false;
    }
    let mut i: usize = 0;
    while i < a.len()
        invariant
            i <= a@.len() == b@.len(),
            forall|j: int| 0 <= j < i ==> a@[j]@ == b@[j]@,
        decreases a@.len() - i,
    {
        if !(a[i] == b[i]) {
            assert(model::views(a@)[i as int] != model::views(b@)[i as int]);
            return false;
        }
        i += 1;
    }
    assert(model::views(a@) =~= model::views(b@));
    true
}

fn apps_eq(a: &Vec<(Uuid, String)>, b: &Vec<(Uuid, String)>) -> (r: bool)
    ensures
        r == (device_wire::app_pairs(a@) == device_wire::app_pairs(b@)),
{
    if a.len() != b.len() {
        assert(device_wire::app_pairs(a@).len() != device_wire::app_pairs(b@).len());
        return false;
    }
    let mut i: usize = 0;
    while i < a.len()
        invariant
            i <= a@.len() == b@.len(),
            forall|j: int|
                0 <= j < i ==> device_wire::app_pairs(a@)[j] == device_wire::app_pairs(b@)[j],
        decreases a@.len() - i,
    {
        if !(uuid_eq(&a[i].0, &b[i].0) && a[i].1 == b[i].1) {
            assert(device_wire::app_pairs(a@)[i as int] != device_wire::app_pairs(b@)[i as int]);
            return false;
        }
        i += 1;
    }
    assert(device_wire::app_pairs(a@) =~= device_wire::app_pairs(b@));
    true
}

fn rank_eq(a: Option<u32>, b: Option<u32>) -> (r: bool)
    ensures
        r == (a == b),
{
    match (a, b) {
        (Some(x), Some(y)) => x == y,
        (None, None) => true,
        _ => false,
    }
}

/// Whether two lists hold the same cards in the same order.
pub fn cards_eq(a: &Vec<ContactDeviceCard>, b: &Vec<ContactDeviceCard>) -> (r: bool)
    ensures
        r == (model::views(a@) == model::views(b@)),
{
    broadcast use model::group_views;

    if a.len() != b.len() {
        assert(model::views(a@).len() != model::views(b@).len());
        return false;
    }
    let mut i: usize = 0;
    while i < a.len()
        invariant
            i <= a@.len() == b@.len(),
            forall|j: int| 0 <= j < i ==> a@[j]@ == b@[j]@,
        decreases a@.len() - i,
    {
        let x = &a[i];
        let y = &b[i];
        if !(uuid_eq(&x.uuid, &y.uuid) && x.alias == y.alias && x.grade == y.grade && rank_eq(
            x.sg_rank,
            y.sg_rank,
        ) && strings_eq(&x.hosts, &y.hosts) && apps_eq(&x.apps, &y.apps)) {
            assert(a@[i as int]@ != b@[i as int]@);
            assert(model::views(a@)[i as int] != model::views(b@)[i as int]);
            return false;
        }
        i += 1;
    }
    assert(model::views(a@) =~= model::views(b@));
    true
}

/// The cards of the devices that cards describe are those cards, in normal
/// order.
pub proof fn lemma_cards_of_card_devices(s: Seq<CardView>)
    ensures
        cards_of(card_devices(s)) == normal_cards(s),
{
    let d = card_devices(s);
    let t = device_cards(d);
    assert forall|i: int| 0 <= i < s.len() implies #[trigger] t[i] == s[i] by {
        let apps = device_card(d[i]).apps;
        assert(apps =~= s[i].apps) by {
            assert forall|j: int| 0 <= j < s[i].apps.len() implies #[trigger] apps[j] == s[i].apps[j] by {
                assert(public_apps(s[i].apps)[j] == public_app(s[i].apps[j].0, s[i].apps[j].1));
            }
        }
    }
    assert(t =~= s);
}

/// The order of the applications on a card does not matter.
pub proof fn law_app_order_does_not_matter(c: CardView, d: CardView)
    requires
        c.apps.to_multiset() == d.apps.to_multiset(),
        d == (CardView { apps: d.apps, ..c }),
    ensures
        normal_card(c) == normal_card(d),
{
    assert forall|i: int, j: int|
        0 <= i < c.apps.len() && 0 <= j < c.apps.len() && pair_key()(#[trigger] c.apps[i])
            == pair_key()(#[trigger] c.apps[j]) implies c.apps[i] == c.apps[j] by {
        let x = c.apps[i];
        let y = c.apps[j];
        let k = pair_key()(x);
        assert(k.take(16) =~= x.0@);
        assert(pair_key()(y).take(16) =~= y.0@);
        assert(k.skip(16) =~= vstd::utf8::encode_utf8(x.1));
        assert(pair_key()(y).skip(16) =~= vstd::utf8::encode_utf8(y.1));
        order::lemma_uuid_bytes(x.0, y.0);
        vstd::utf8::encode_utf8_decode_utf8(x.1);
        vstd::utf8::encode_utf8_decode_utf8(y.1);
    }
    order::law_sorting_forgets_order(c.apps, d.apps, pair_key());
}

/// The order in which devices stand does not matter for their cards.
pub proof fn law_device_order_does_not_matter(s: Seq<DeviceView>, t: Seq<DeviceView>)
    requires
        s.to_multiset() == t.to_multiset(),
        forall|i: int, j: int|
            0 <= i < j < s.len() ==> (#[trigger] s[i]).uuid != (#[trigger] s[j]).uuid,
    ensures
        cards_of(s) == cards_of(t),
{
    let f = |d: DeviceView| normal_card(device_card(d));
    let a = s.map_values(f);
    let b = t.map_values(f);
    assert(a =~= Seq::new(device_cards(s).len(), |i: int| normal_card(device_cards(s)[i])));
    assert(b =~= Seq::new(device_cards(t).len(), |i: int| normal_card(device_cards(t)[i])));
    lemma_map_multiset(s, t, f);
    assert forall|i: int, j: int|
        0 <= i < a.len() && 0 <= j < a.len() && card_key()(#[trigger] a[i]) == card_key()(
            #[trigger] a[j],
        ) implies a[i] == a[j] by {
        order::lemma_uuid_bytes(a[i].uuid, a[j].uuid);
        assert(a[i].uuid == s[i].uuid && a[j].uuid == s[j].uuid);
    }
    order::law_sorting_forgets_order(a, b, card_key());
}

/// What is made of the same items is the same, in whatever order.
proof fn lemma_map_multiset<S, T>(s: Seq<S>, t: Seq<S>, f: spec_fn(S) -> T)
    requires
        s.to_multiset() == t.to_multiset(),
    ensures
        s.map_values(f).to_multiset() == t.map_values(f).to_multiset(),
    decreases s.len(),
{
    broadcast use vstd::seq_lib::group_to_multiset_ensures;

    s.to_multiset_ensures();
    t.to_multiset_ensures();
    if s.len() == 0 {
        assert(s.map_values(f) =~= t.map_values(f));
    } else {
        let x = s.last();
        let n = s.len() - 1;
        assert(s[n] == x && s.contains(x));
        assert(s.to_multiset().count(x) > 0);
        assert(t.contains(x));
        let i = choose|i: int| 0 <= i < t.len() && t[i] == x;
        let p = s.remove(n);
        let q = t.remove(i);
        assert(p.to_multiset() =~= q.to_multiset());
        lemma_map_multiset(p, q, f);
        assert(p.map_values(f) =~= s.map_values(f).remove(n));
        assert(q.map_values(f) =~= t.map_values(f).remove(i));
        let m = s.map_values(f);
        let k = t.map_values(f);
        assert(m[n] == f(x) && k[i] == f(x));
        assert(m.remove(n).insert(n, f(x)) =~= m);
        assert(k.remove(i).insert(i, f(x)) =~= k);
        assert(m.to_multiset() =~= k.to_multiset());
    }
}

} // verus!
