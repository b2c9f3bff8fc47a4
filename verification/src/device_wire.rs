//! How devices and the applications on them are laid out in packets.
//!
//! A device is its identifier, alias, grade, rank and hosts; a card is a device
//! followed by the identifiers and aliases of its applications.
use crate::lists;
use crate::model;
use crate::types::{clone_strings, Device, DeviceGrade, Uuid};
use crate::wire;
use crate::wire::{push_str, push_uuid, read_byte, read_str, read_uuid};
use vstd::prelude::*;

verus! {

/// The public part of a device: what others may know of it.
#[derive(Debug, PartialEq, Eq)]
pub struct ContactDeviceCard {
    pub uuid: Uuid,
    pub alias: String,
    pub grade: DeviceGrade,
    pub sg_rank: Option<u32>,
    pub hosts: Vec<String>,
    pub apps: Vec<(Uuid, String)>,
}

#[verifier::ext_equal]
pub struct CardView {
    pub uuid: Uuid,
    pub alias: Seq<char>,
    pub grade: DeviceGrade,
    pub sg_rank: Option<u32>,
    pub hosts: Seq<Seq<char>>,
    pub apps: Seq<(Uuid, Seq<char>)>,
}

/// The identifiers and aliases in a list of applications.
pub open spec fn app_pairs(s: Seq<(Uuid, String)>) -> Seq<(Uuid, Seq<char>)> {
    Seq::new(s.len(), |i: int| (s[i].0, s[i].1@))
}

impl View for ContactDeviceCard {
    type V = CardView;

    open spec fn view(&self) -> CardView {
        CardView {
            uuid: self.uuid,
            alias: self.alias@,
            grade: self.grade,
            sg_rank: self.sg_rank,
            hosts: model::views(self.hosts@),
            apps: app_pairs(self.apps@),
        }
    }
}

/// A copy of a list of applications.
pub fn clone_apps(v: &Vec<(Uuid, String)>) -> (r: Vec<(Uuid, String)>)
    ensures
        app_pairs(r@) == app_pairs(v@),
        r@ == v@,
{
    let mut out: Vec<(Uuid, String)> = Vec::new();
    let mut i: usize = 0;
    while i < v.len()
        invariant
            i <= v@.len(),
            out@ == v@.take(i as int),
        decreases v@.len() - i,
    {
        out.push((v[i].0, v[i].1.clone()));
        i += 1;
        assert(out@ =~= v@.take(i as int));
    }
    assert(v@.take(v@.len() as int) =~= v@);
    out
}

impl Clone for ContactDeviceCard {
    fn clone(&self) -> (r: Self)
        ensures
            r@ == self@,
    {
        ContactDeviceCard {
            uuid: self.uuid,
            alias: self.alias.clone(),
            grade: self.grade,
            sg_rank: self.sg_rank,
            hosts: clone_strings(&self.hosts),
            apps: clone_apps(&self.apps),
        }
    }
}

/// A copy of a list of cards.
pub fn clone_cards(v: &Vec<ContactDeviceCard>) -> (r: Vec<ContactDeviceCard>)
    ensures
        model::views(r@) == model::views(v@),
{
    let r = v.clone();
    assert(model::views(r@) =~= model::views(v@));
    r
}

pub open spec fn grade_byte(g: DeviceGrade) -> u8 {
    match g {
        DeviceGrade::SG => 1,
        DeviceGrade::DG => 0,
    }
}

/// The rank, at most 255; zero for none.
pub open spec fn rank_byte(r: Option<u32>) -> u8 {
    match r {
        Some(k) => wire::least(k as int, 255) as u8,
        None => 0,
    }
}

pub open spec fn str_enc() -> spec_fn(Seq<char>) -> Seq<u8> {
    |s: Seq<char>| wire::enc_str(s)
}

pub open spec fn str_parser() -> spec_fn(Seq<u8>, int) -> Option<(Seq<char>, int)> {
    |d: Seq<u8>, p: int| wire::parse_str(d, p)
}

/// A count byte and the first 255 hosts.
pub open spec fn enc_hosts(h: Seq<Seq<char>>) -> Seq<u8> {
    let n = wire::least(h.len() as int, 255);
    seq![n as u8] + lists::enc_all(h.take(n), str_enc())
}

/// The layout of a device, of its public fields alone.
pub open spec fn enc_device_fields(
    uuid: Uuid,
    alias: Seq<char>,
    grade: DeviceGrade,
    sg_rank: Option<u32>,
    hosts: Seq<Seq<char>>,
) -> Seq<u8> {
    uuid@ + wire::enc_str(alias) + seq![grade_byte(grade), rank_byte(sg_rank)] + enc_hosts(hosts)
}

pub open spec fn parse_hosts(d: Seq<u8>, p: int) -> Option<(Seq<Seq<char>>, int)> {
    match wire::parse_byte(d, p) {
        Some((n, q)) => lists::parse_many(d, q, n as nat, str_parser()),
        None => None,
    }
}

/// A device as it is read: a card without applications.
pub open spec fn parse_device(d: Seq<u8>, p: int) -> Option<(CardView, int)> {
    match wire::parse_uuid(d, p) {
        Some((uuid, p1)) => match wire::parse_str(d, p1) {
            Some((alias, p2)) => match wire::parse_byte(d, p2) {
                Some((g, p3)) => match wire::parse_byte(d, p3) {
                    Some((k, p4)) => match parse_hosts(d, p4) {
                        Some((hosts, p5)) => Some(
                            (
                                CardView {
                                    uuid,
                                    alias,
                                    grade: if g == 1 {
                                        DeviceGrade::SG
                                    } else {
                                        DeviceGrade::DG
                                    },
                                    sg_rank: if k == 0 {
                                        None
                                    } else {
                                        Some(k as u32)
                                    },
                                    hosts,
                                    apps: Seq::empty(),
                                },
                                p5,
                            ),
                        ),
                        None => None,
                    },
                    None => None,
                },
                None => None,
            },
            None => None,
        },
        None => None,
    }
}

/// Appends a count byte and hosts.
pub fn push_hosts(buf: &mut Vec<u8>, hosts: &Vec<String>)
    ensures
        final(buf)@ == old(buf)@ + enc_hosts(model::views(hosts@)),
{
    broadcast use model::group_views;

    let ghost hv = model::views(hosts@);
    let mut n: usize = hosts.len();
    if n > 255 {
        n = 255;
    }
    buf.push(n as u8);
    let ghost start = buf@;
    let ghost h = hv.take(n as int);
    let mut i: usize = 0;
    assert(buf@ =~= start + lists::enc_all(h.take(0), str_enc()));
    while i < n
        invariant
            i <= n <= hosts@.len(),
            h == model::views(hosts@).take(n as int),
            buf@ == start + lists::enc_all(h.take(i as int), str_enc()),
        decreases n - i,
    {
        push_str(buf, hosts[i].as_str());
        proof {
            lists::lemma_enc_step(h, str_enc(), i as int);
            assert(h[i as int] == hosts@[i as int]@);
        }
        i += 1;
        assert(buf@ =~= start + lists::enc_all(h.take(i as int), str_enc()));
    }
    assert(h.take(n as int) =~= h);
    assert(buf@ =~= old(buf)@ + enc_hosts(hv));
}

/// Takes hosts at `pos`.
pub fn read_hosts(data: &[u8], pos: &mut usize) -> (r: Option<Vec<String>>)
    requires
        *old(pos) <= data@.len(),
    ensures
        *final(pos) <= data@.len(),
        match parse_hosts(data@, *old(pos) as int) {
            Some((h, q)) => r is Some && model::views(r->0@) == h && *final(pos) == q,
            None => r is None,
        },
{
    broadcast use model::group_views;

    let n: u8 = match read_byte(data, pos) {
        Some(b) => b,
        None => { return None; },
    };
    let ghost p = *pos as int;
    let mut hosts: Vec<String> = Vec::new();
    let mut i: u8 = 0;
    while i < n
        invariant
            i <= n,
            *pos <= data@.len(),
            wire::parse_byte(data@, *old(pos) as int) == Some((n, p)),
            lists::parse_many(data@, p, i as nat, str_parser()) == Some(
                (model::views(hosts@), *pos as int),
            ),
        decreases n - i,
    {
        match read_str(data, pos) {
            Some(s) => {
                hosts.push(s);
                i += 1;
            },
            None => {
                proof {
                    lists::lemma_parse_stuck(
                        data@,
                        p,
                        (i + 1) as nat,
                        n as nat,
                        str_parser(),
                    );
                }
                return None;
            },
        }
    }
    Some(hosts)
}

/// Appends the public fields of a device.
pub fn push_device_fields(
    buf: &mut Vec<u8>,
    uuid: &Uuid,
    alias: &str,
    grade: DeviceGrade,
    sg_rank: Option<u32>,
    hosts: &Vec<String>,
)
    ensures
        final(buf)@ == old(buf)@ + enc_device_fields(
            *uuid,
            alias@,
            grade,
            sg_rank,
            model::views(hosts@),
        ),
{
    push_uuid(buf, uuid);
    push_str(buf, alias);
    match grade {
        DeviceGrade::SG => buf.push(1),
        DeviceGrade::DG => buf.push(0),
    }
    match sg_rank {
        Some(k) => {
            if k < 255 {
                buf.push(k as u8);
            } else {
                buf.push(255);
            }
        },
        None => buf.push(0),
    }
    push_hosts(buf, hosts);
    assert(buf@ =~= old(buf)@ + enc_device_fields(
        *uuid,
        alias@,
        grade,
        sg_rank,
        model::views(hosts@),
    ));
}

/// Appends a device.
pub fn push_device(buf: &mut Vec<u8>, d: &Device)
    ensures
        final(buf)@ == old(buf)@ + enc_device_fields(
            d@.uuid,
            d@.alias,
            d@.grade,
            d@.sg_rank,
            d@.hosts,
        ),
{
    push_device_fields(buf, &d.uuid, d.alias.as_str(), d.grade, d.sg_rank, &d.hosts);
}

/// Takes a device at `pos`, as a card without applications.
fn read_bare_card(data: &[u8], pos: &mut usize) -> (r: Option<ContactDeviceCard>)
    requires
        *old(pos) <= data@.len(),
    ensures
        *final(pos) <= data@.len(),
        match parse_device(data@, *old(pos) as int) {
            Some((c, q)) => r is Some && r->0@ == c && *final(pos) == q,
            None => r is None,
        },
{
    let uuid: Uuid = match read_uuid(data, pos) {
        Some(u) => u,
        None => { return None; },
    };
    let alias = match read_str(data, pos) {
        Some(s) => s,
        None => { return None; },
    };
    let g: u8 = match read_byte(data, pos) {
        Some(b) => b,
        None => { return None; },
    };
    let k: u8 = match read_byte(data, pos) {
        Some(b) => b,
        None => { return None; },
    };
    let hosts = match read_hosts(data, pos) {
        Some(h) => h,
        None => { return None; },
    };
    let grade = if g == 1 {
        DeviceGrade::SG
    } else {
        DeviceGrade::DG
    };
    let sg_rank: Option<u32> = if k == 0 {
        None
    } else {
        Some(k as u32)
    };
    let apps: Vec<(Uuid, String)> = Vec::new();
    assert(app_pairs(apps@) =~= Seq::empty());
    Some(ContactDeviceCard { uuid, alias, grade, sg_rank, hosts, apps })
}

/// Takes a device at `pos`; it comes without applications.
pub fn read_device(data: &[u8], pos: &mut usize) -> (r: Option<Device>)
    requires
        *old(pos) <= data@.len(),
    ensures
        *final(pos) <= data@.len(),
        match parse_device(data@, *old(pos) as int) {
            Some((c, q)) => {
                &&& r is Some
                &&& r->0@.uuid == c.uuid
                &&& r->0@.alias == c.alias
                &&& r->0@.grade == c.grade
                &&& r->0@.sg_rank == c.sg_rank
                &&& r->0@.hosts == c.hosts
                &&& r->0@.applications.len() == 0
                &&& *final(pos) == q
            },
            None => r is None,
        },
{
    match read_bare_card(data, pos) {
        Some(c) => Some(
            Device {
                uuid: c.uuid,
                alias: c.alias,
                grade: c.grade,
                sg_rank: c.sg_rank,
                hosts: c.hosts,
                applications: Vec::new(),
            },
        ),
        None => None,
    }
}

/// The fields come back as they were, if the text and the list of hosts are
/// short and the rank is a byte other than zero.
pub open spec fn plain_device(
    alias: Seq<char>,
    sg_rank: Option<u32>,
    hosts: Seq<Seq<char>>,
) -> bool {
    &&& wire::short_text(alias)
    &&& sg_rank is Some ==> 1 <= sg_rank->0 <= 255
    &&& hosts.len() <= 255
    &&& forall|i: int| 0 <= i < hosts.len() ==> wire::short_text(#[trigger] hosts[i])
}

pub proof fn lemma_hosts(d: Seq<u8>, p: int, h: Seq<Seq<char>>)
    requires
        wire::stands_at(d, p, enc_hosts(h)),
        h.len() <= 255,
        forall|i: int| 0 <= i < h.len() ==> wire::short_text(#[trigger] h[i]),
    ensures
        parse_hosts(d, p) == Some((h, p + enc_hosts(h).len())),
{
    let n = h.len() as int;
    assert(h.take(n) =~= h);
    let e = lists::enc_all(h, str_enc());
    wire::lemma_stands_split(d, p, seq![n as u8], e);
    wire::lemma_byte(d, p, n as u8);
    assert forall|i: int| 0 <= i < h.len() implies lists::reads_back(
        d,
        #[trigger] h[i],
        str_enc()(h[i]),
        str_parser(),
    ) by {
        assert forall|q: int| #[trigger] wire::stands_at(d, q, str_enc()(h[i])) implies str_parser()(
            d,
            q,
        ) == Some((h[i], q + str_enc()(h[i]).len())) by {
            wire::lemma_str(d, q, h[i]);
        }
    }
    lists::lemma_many(d, p + 1, h, str_enc(), str_parser());
}

/// What was written of a device is read back.
pub proof fn lemma_device(
    d: Seq<u8>,
    p: int,
    uuid: Uuid,
    alias: Seq<char>,
    grade: DeviceGrade,
    sg_rank: Option<u32>,
    hosts: Seq<Seq<char>>,
)
    requires
        wire::stands_at(d, p, enc_device_fields(uuid, alias, grade, sg_rank, hosts)),
        plain_device(alias, sg_rank, hosts),
    ensures
        parse_device(d, p) == Some(
            (
                (CardView { uuid, alias, grade, sg_rank, hosts, apps: Seq::empty() }),
                p + enc_device_fields(uuid, alias, grade, sg_rank, hosts).len(),
            ),
        ),
{
    let a = uuid@;
    let b = wire::enc_str(alias);
    let g = grade_byte(grade);
    let k = rank_byte(sg_rank);
    let h = enc_hosts(hosts);
    wire::lemma_stands_split(d, p, a + b + seq![g, k], h);
    wire::lemma_stands_split(d, p, a + b, seq![g, k]);
    wire::lemma_stands_split(d, p, a, b);
    wire::lemma_uuid(d, p, uuid);
    wire::lemma_str(d, p + 16, alias);
    let q = p + 16 + b.len();
    assert(seq![g, k] =~= seq![g] + seq![k]);
    wire::lemma_stands_split(d, q, seq![g], seq![k]);
    wire::lemma_byte(d, q, g);
    wire::lemma_byte(d, q + 1, k);
    lemma_hosts(d, q + 2, hosts);
}

/// The identifier and the alias of an application.
pub open spec fn enc_app(a: (Uuid, Seq<char>)) -> Seq<u8> {
    a.0@ + wire::enc_str(a.1)
}

pub open spec fn parse_app(d: Seq<u8>, p: int) -> Option<((Uuid, Seq<char>), int)> {
    match wire::parse_uuid(d, p) {
        Some((id, q)) => match wire::parse_str(d, q) {
            Some((alias, r)) => Some(((id, alias), r)),
            None => None,
        },
        None => None,
    }
}

pub open spec fn app_enc() -> spec_fn((Uuid, Seq<char>)) -> Seq<u8> {
    |a: (Uuid, Seq<char>)| enc_app(a)
}

pub open spec fn app_parser() -> spec_fn(Seq<u8>, int) -> Option<((Uuid, Seq<char>), int)> {
    |d: Seq<u8>, p: int| parse_app(d, p)
}

/// A count byte and the first 255 applications.
pub open spec fn enc_apps(s: Seq<(Uuid, Seq<char>)>) -> Seq<u8> {
    let n = wire::least(s.len() as int, 255);
    seq![n as u8] + lists::enc_all(s.take(n), app_enc())
}

pub open spec fn parse_apps(d: Seq<u8>, p: int) -> Option<(Seq<(Uuid, Seq<char>)>, int)> {
    match wire::parse_byte(d, p) {
        Some((n, q)) => lists::parse_many(d, q, n as nat, app_parser()),
        None => None,
    }
}

/// A device and its applications.
pub open spec fn enc_card(c: CardView) -> Seq<u8> {
    enc_device_fields(c.uuid, c.alias, c.grade, c.sg_rank, c.hosts) + enc_apps(c.apps)
}

pub open spec fn parse_card(d: Seq<u8>, p: int) -> Option<(CardView, int)> {
    match parse_device(d, p) {
        Some((c, q)) => match parse_apps(d, q) {
            Some((apps, r)) => Some((CardView { apps, ..c }, r)),
            None => None,
        },
        None => None,
    }
}

pub open spec fn card_enc() -> spec_fn(CardView) -> Seq<u8> {
    |c: CardView| enc_card(c)
}

pub open spec fn card_parser() -> spec_fn(Seq<u8>, int) -> Option<(CardView, int)> {
    |d: Seq<u8>, p: int| parse_card(d, p)
}

/// A count byte and the first 255 cards.
pub open spec fn enc_cards(s: Seq<CardView>) -> Seq<u8> {
    let n = wire::least(s.len() as int, 255);
    seq![n as u8] + lists::enc_all(s.take(n), card_enc())
}

pub open spec fn parse_cards(d: Seq<u8>, p: int) -> Option<(Seq<CardView>, int)> {
    match wire::parse_byte(d, p) {
        Some((n, q)) => lists::parse_many(d, q, n as nat, card_parser()),
        None => None,
    }
}

pub proof fn lemma_app_pairs_push(s: Seq<(Uuid, String)>, x: (Uuid, String))
    ensures
        app_pairs(s.push(x)) == app_pairs(s).push((x.0, x.1@)),
{
    assert(app_pairs(s.push(x)) =~= app_pairs(s).push((x.0, x.1@)));
}

/// Appends a count byte and applications.
pub fn push_apps(buf: &mut Vec<u8>, apps: &Vec<(Uuid, String)>)
    ensures
        final(buf)@ == old(buf)@ + enc_apps(app_pairs(apps@)),
{
    let ghost av = app_pairs(apps@);
    let mut n: usize = apps.len();
    if n > 255 {
        n = 255;
    }
    buf.push(n as u8);
    let ghost start = buf@;
    let ghost h = av.take(n as int);
    let mut i: usize = 0;
    assert(buf@ =~= start + lists::enc_all(h.take(0), app_enc()));
    while i < n
        invariant
            i <= n <= apps@.len(),
            h == app_pairs(apps@).take(n as int),
            buf@ == start + lists::enc_all(h.take(i as int), app_enc()),
        decreases n - i,
    {
        push_uuid(buf, &apps[i].0);
        push_str(buf, apps[i].1.as_str());
        proof {
            lists::lemma_enc_step(h, app_enc(), i as int);
        }
        i += 1;
        assert(buf@ =~= start + lists::enc_all(h.take(i as int), app_enc()));
    }
    assert(h.take(n as int) =~= h);
    assert(buf@ =~= old(buf)@ + enc_apps(av));
}

/// Takes applications at `pos`.
pub fn read_apps(data: &[u8], pos: &mut usize) -> (r: Option<Vec<(Uuid, String)>>)
    requires
        *old(pos) <= data@.len(),
    ensures
        *final(pos) <= data@.len(),
        match parse_apps(data@, *old(pos) as int) {
            Some((a, q)) => r is Some && app_pairs(r->0@) == a && *final(pos) == q,
            None => r is None,
        },
{
    let n: u8 = match read_byte(data, pos) {
        Some(b) => b,
        None => { return None; },
    };
    let ghost p = *pos as int;
    let mut apps: Vec<(Uuid, String)> = Vec::new();
    assert(app_pairs(apps@) =~= Seq::empty());
    let mut i: u8 = 0;
    while i < n
        invariant
            i <= n,
            *pos <= data@.len(),
            wire::parse_byte(data@, *old(pos) as int) == Some((n, p)),
            lists::parse_many(data@, p, i as nat, app_parser()) == Some(
                (app_pairs(apps@), *pos as int),
            ),
        decreases n - i,
    {
        let ghost before = *pos as int;
        let id: Uuid = match read_uuid(data, pos) {
            Some(u) => u,
            None => {
                proof {
                    lists::lemma_parse_stuck(data@, p, (i + 1) as nat, n as nat, app_parser());
                }
                return None;
            },
        };
        let alias = match read_str(data, pos) {
            Some(s) => s,
            None => {
                proof {
                    lists::lemma_parse_stuck(data@, p, (i + 1) as nat, n as nat, app_parser());
                }
                return None;
            },
        };
        proof {
            lemma_app_pairs_push(apps@, (id, alias));
        }
        apps.push((id, alias));
        i += 1;
    }
    Some(apps)
}

/// Appends a card.
pub fn push_card(buf: &mut Vec<u8>, c: &ContactDeviceCard)
    ensures
        final(buf)@ == old(buf)@ + enc_card(c@),
{
    push_device_fields(buf, &c.uuid, c.alias.as_str(), c.grade, c.sg_rank, &c.hosts);
    push_apps(buf, &c.apps);
    assert(buf@ =~= old(buf)@ + enc_card(c@));
}

/// Takes a card at `pos`.
pub fn read_card(data: &[u8], pos: &mut usize) -> (r: Option<ContactDeviceCard>)
    requires
        *old(pos) <= data@.len(),
    ensures
        *final(pos) <= data@.len(),
        match parse_card(data@, *old(pos) as int) {
            Some((c, q)) => r is Some && r->0@ == c && *final(pos) == q,
            None => r is None,
        },
{
    let c = match read_bare_card(data, pos) {
        Some(c) => c,
        None => { return None; },
    };
    match read_apps(data, pos) {
        Some(apps) => Some(
            ContactDeviceCard {
                uuid: c.uuid,
                alias: c.alias,
                grade: c.grade,
                sg_rank: c.sg_rank,
                hosts: c.hosts,
                apps,
            },
        ),
        None => None,
    }
}

/// Appends a count byte and cards.
pub fn push_cards(buf: &mut Vec<u8>, cards: &Vec<ContactDeviceCard>)
    ensures
        final(buf)@ == old(buf)@ + enc_cards(model::views(cards@)),
{
    broadcast use model::group_views;

    let ghost cv = model::views(cards@);
    let mut n: usize = cards.len();
    if n > 255 {
        n = 255;
    }
    buf.push(n as u8);
    let ghost start = buf@;
    let ghost h = cv.take(n as int);
    let mut i: usize = 0;
    assert(buf@ =~= start + lists::enc_all(h.take(0), card_enc()));
    while i < n
        invariant
            i <= n <= cards@.len(),
            h == model::views(cards@).take(n as int),
            buf@ == start + lists::enc_all(h.take(i as int), card_enc()),
        decreases n - i,
    {
        push_card(buf, &cards[i]);
        proof {
            lists::lemma_enc_step(h, card_enc(), i as int);
            assert(h[i as int] == cards@[i as int]@);
        }
        i += 1;
        assert(buf@ =~= start + lists::enc_all(h.take(i as int), card_enc()));
    }
    assert(h.take(n as int) =~= h);
    assert(buf@ =~= old(buf)@ + enc_cards(cv));
}

/// Takes cards at `pos`.
pub fn read_cards(data: &[u8], pos: &mut usize) -> (r: Option<Vec<ContactDeviceCard>>)
    requires
        *old(pos) <= data@.len(),
    ensures
        *final(pos) <= data@.len(),
        match parse_cards(data@, *old(pos) as int) {
            Some((c, q)) => r is Some && model::views(r->0@) == c && *final(pos) == q,
            None => r is None,
        },
{
    broadcast use model::group_views;

    let n: u8 = match read_byte(data, pos) {
        Some(b) => b,
        None => { return None; },
    };
    let ghost p = *pos as int;
    let mut cards: Vec<ContactDeviceCard> = Vec::new();
    let mut i: u8 = 0;
    while i < n
        invariant
            i <= n,
            *pos <= data@.len(),
            wire::parse_byte(data@, *old(pos) as int) == Some((n, p)),
            lists::parse_many(data@, p, i as nat, card_parser()) == Some(
                (model::views(cards@), *pos as int),
            ),
        decreases n - i,
    {
        match read_card(data, pos) {
            Some(c) => {
                cards.push(c);
                i += 1;
            },
            None => {
                proof {
                    lists::lemma_parse_stuck(data@, p, (i + 1) as nat, n as nat, card_parser());
                }
                return None;
            },
        }
    }
    Some(cards)
}

/// A list of applications that is read back as it was written.
pub open spec fn plain_apps(s: Seq<(Uuid, Seq<char>)>) -> bool {
    &&& s.len() <= 255
    &&& forall|i: int| 0 <= i < s.len() ==> wire::short_text((#[trigger] s[i]).1)
}

/// A card that is read back as it was written.
pub open spec fn plain_card(c: CardView) -> bool {
    plain_device(c.alias, c.sg_rank, c.hosts) && plain_apps(c.apps)
}

pub proof fn lemma_apps(d: Seq<u8>, p: int, s: Seq<(Uuid, Seq<char>)>)
    requires
        wire::stands_at(d, p, enc_apps(s)),
        plain_apps(s),
    ensures
        parse_apps(d, p) == Some((s, p + enc_apps(s).len())),
{
    let n = s.len() as int;
    assert(s.take(n) =~= s);
    let e = lists::enc_all(s, app_enc());
    wire::lemma_stands_split(d, p, seq![n as u8], e);
    wire::lemma_byte(d, p, n as u8);
    assert forall|i: int| 0 <= i < s.len() implies lists::reads_back(
        d,
        #[trigger] s[i],
        app_enc()(s[i]),
        app_parser(),
    ) by {
        assert forall|q: int| #[trigger] wire::stands_at(d, q, app_enc()(s[i])) implies app_parser()(
            d,
            q,
        ) == Some((s[i], q + app_enc()(s[i]).len())) by {
            wire::lemma_stands_split(d, q, s[i].0@, wire::enc_str(s[i].1));
            wire::lemma_uuid(d, q, s[i].0);
            wire::lemma_str(d, q + 16, s[i].1);
        }
    }
    lists::lemma_many(d, p + 1, s, app_enc(), app_parser());
}

pub proof fn lemma_card(d: Seq<u8>, p: int, c: CardView)
    requires
        wire::stands_at(d, p, enc_card(c)),
        plain_card(c),
    ensures
        parse_card(d, p) == Some((c, p + enc_card(c).len())),
{
    let e = enc_device_fields(c.uuid, c.alias, c.grade, c.sg_rank, c.hosts);
    wire::lemma_stands_split(d, p, e, enc_apps(c.apps));
    lemma_device(d, p, c.uuid, c.alias, c.grade, c.sg_rank, c.hosts);
    lemma_apps(d, p + e.len(), c.apps);
}

/// What was written of a list of cards is read back.
pub proof fn lemma_cards(d: Seq<u8>, p: int, s: Seq<CardView>)
    requires
        wire::stands_at(d, p, enc_cards(s)),
        s.len() <= 255,
        forall|i: int| 0 <= i < s.len() ==> plain_card(#[trigger] s[i]),
    ensures
        parse_cards(d, p) == Some((s, p + enc_cards(s).len())),
{
    let n = s.len() as int;
    assert(s.take(n) =~= s);
    let e = lists::enc_all(s, card_enc());
    wire::lemma_stands_split(d, p, seq![n as u8], e);
    wire::lemma_byte(d, p, n as u8);
    assert forall|i: int| 0 <= i < s.len() implies lists::reads_back(
        d,
        #[trigger] s[i],
        card_enc()(s[i]),
        card_parser(),
    ) by {
        assert forall|q: int| #[trigger] wire::stands_at(d, q, card_enc()(s[i])) implies card_parser()(
            d,
            q,
        ) == Some((s[i], q + card_enc()(s[i]).len())) by {
            lemma_card(d, q, s[i]);
        }
    }
    lists::lemma_many(d, p + 1, s, card_enc(), card_parser());
}

/// Hosts that are read of the first `n` bytes.
proof fn lemma_hosts_steady(d: Seq<u8>, n: int, p: int)
    requires
        0 <= n <= d.len(),
        0 <= p,
    ensures
        parse_hosts(d.take(n), p) matches Some((h, q)) ==> p <= q <= n && parse_hosts(d, p) == Some(
            (h, q),
        ),
{
    if let Some((k, q)) = wire::parse_byte(d.take(n), p) {
        assert forall|r: int| 0 <= r implies (#[trigger] str_parser()(d.take(n), r) matches Some(
            (x, e),
        ) ==> r <= e <= n && str_parser()(d, r) == Some((x, e))) by {
            wire::lemma_str_steady(d, n, r);
        }
        lists::lemma_many_steady(d, n, q, k as nat, str_parser());
    }
}

/// A device that is read of the first `n` bytes.
pub proof fn lemma_device_steady(d: Seq<u8>, n: int, p: int)
    requires
        0 <= n <= d.len(),
        0 <= p,
    ensures
        parse_device(d.take(n), p) matches Some((c, q)) ==> p <= q <= n && parse_device(d, p)
            == Some((c, q)),
{
    wire::lemma_uuid_steady(d, n, p);
    if let Some((_, p1)) = wire::parse_uuid(d.take(n), p) {
        wire::lemma_str_steady(d, n, p1);
        if let Some((_, p2)) = wire::parse_str(d.take(n), p1) {
            lemma_hosts_steady(d, n, p2 + 2);
        }
    }
}

/// Applications that are read of the first `n` bytes.
proof fn lemma_apps_steady(d: Seq<u8>, n: int, p: int)
    requires
        0 <= n <= d.len(),
        0 <= p,
    ensures
        parse_apps(d.take(n), p) matches Some((s, q)) ==> p <= q <= n && parse_apps(d, p) == Some(
            (s, q),
        ),
{
    if let Some((k, q)) = wire::parse_byte(d.take(n), p) {
        assert forall|r: int| 0 <= r implies (#[trigger] app_parser()(d.take(n), r) matches Some(
            (x, e),
        ) ==> r <= e <= n && app_parser()(d, r) == Some((x, e))) by {
            wire::lemma_uuid_steady(d, n, r);
            if let Some((_, r1)) = wire::parse_uuid(d.take(n), r) {
                wire::lemma_str_steady(d, n, r1);
            }
        }
        lists::lemma_many_steady(d, n, q, k as nat, app_parser());
    }
}

/// Cards that are read of the first `n` bytes.
pub proof fn lemma_cards_steady(d: Seq<u8>, n: int, p: int)
    requires
        0 <= n <= d.len(),
        0 <= p,
    ensures
        parse_cards(d.take(n), p) matches Some((s, q)) ==> p <= q <= n && parse_cards(d, p) == Some(
            (s, q),
        ),
{
    if let Some((k, q)) = wire::parse_byte(d.take(n), p) {
        assert forall|r: int| 0 <= r implies (#[trigger] card_parser()(d.take(n), r) matches Some(
            (x, e),
        ) ==> r <= e <= n && card_parser()(d, r) == Some((x, e))) by {
            lemma_device_steady(d, n, r);
            if let Some((_, r1)) = parse_device(d.take(n), r) {
                lemma_apps_steady(d, n, r1);
            }
        }
        lists::lemma_many_steady(d, n, q, k as nat, card_parser());
    }
}

} // verus!
