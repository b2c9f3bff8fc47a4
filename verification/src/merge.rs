//! Merging two write logs into the state that both sides agree on.
//!
//! A log is read as a set of claims. An application is there if some entry adds
//! it and none removes it; its name is that of the strongest renaming, or, if
//! it was never renamed, of the strongest addition. A device is as the earliest
//! entry that adds it says. A contact is as the strongest entry that sets it
//! says. Neither the order of the log nor who holds it matters, so both sides
//! of a partition arrive at the same state.
use crate::cards;
use crate::cards::{cards_eq, normalize_cards};
use crate::change;
use crate::change::{deserialize_change, Change, ChangeView};
use crate::model;
use crate::order;
use crate::order::{insert_two, insert_uuid, uuid_lt};
use crate::types::{key_eq, uuid_eq, SyncVersion, Uuid, WriteLogEntry, WriteLogEntryView};
use vstd::prelude::*;

verus! {

/// How strong the claim of an entry is: that of a higher ranked writer (a
/// smaller rank) is stronger, then that of a later version, then that of the
/// greater identifier.
#[derive(Clone, Copy, PartialEq, Eq, Debug)]
pub struct Strength {
    pub rank: u32,
    pub epoch: u32,
    pub seq: u64,
    pub writer: Uuid,
}

/// The rank of a writer: its last mention counts, and one that is not
/// mentioned ranks lowest.
pub open spec fn rank_of(ranks: Seq<(Uuid, u32)>, w: Uuid) -> u32
    decreases ranks.len(),
{
    if ranks.len() == 0 {
        u32::MAX
    } else if ranks.last().0 == w {
        ranks.last().1
    } else {
        rank_of(ranks.drop_last(), w)
    }
}

/// The strength of what is committed at `v`.
pub open spec fn strength(v: SyncVersion, ranks: Seq<(Uuid, u32)>) -> Strength {
    Strength {
        rank: rank_of(ranks, v.writer_sg_uuid),
        epoch: v.epoch,
        seq: v.seq,
        writer: v.writer_sg_uuid,
    }
}

/// `a` is weaker than `b`.
pub open spec fn weaker(a: Strength, b: Strength) -> bool {
    ||| a.rank > b.rank
    ||| a.rank == b.rank && a.epoch < b.epoch
    ||| a.rank == b.rank && a.epoch == b.epoch && a.seq < b.seq
    ||| a.rank == b.rank && a.epoch == b.epoch && a.seq == b.seq && order::lex_lt(
        a.writer@,
        b.writer@,
    )
}

/// `a` was committed before `b`, by the counters and then by the writer.
pub open spec fn earlier(a: SyncVersion, b: SyncVersion) -> bool {
    ||| a.epoch < b.epoch
    ||| a.epoch == b.epoch && a.seq < b.seq
    ||| a.epoch == b.epoch && a.seq == b.seq && order::lex_lt(a.writer_sg_uuid@, b.writer_sg_uuid@)
}

/// A log entry as the merge reads it: when it was committed, and what it
/// records, if that can be read.
pub struct Claim {
    pub version: SyncVersion,
    pub says: Option<Change>,
}

pub struct ClaimView {
    pub version: SyncVersion,
    pub says: Option<ChangeView>,
}

impl View for Claim {
    type V = ClaimView;

    open spec fn view(&self) -> ClaimView {
        ClaimView {
            version: self.version,
            says: match self.says {
                Some(c) => Some(c@),
                None => None,
            },
        }
    }
}

/// The claim that an entry makes.
pub open spec fn claim_of(e: WriteLogEntryView) -> ClaimView {
    ClaimView { version: e.version, says: change::parse_change(e.change_payload) }
}

/// The claims that a log makes.
pub open spec fn claims_of(log: Seq<WriteLogEntryView>) -> Seq<ClaimView> {
    Seq::new(log.len(), |i: int| claim_of(log[i]))
}

pub open spec fn adds_app(d: Uuid, id: Uuid) -> spec_fn(ClaimView) -> bool {
    |e: ClaimView|
        e.says matches Some(ChangeView::AddApplication { device_uuid, app_id, .. })
            && device_uuid == d && app_id == id
}

pub open spec fn removes_app(d: Uuid, id: Uuid) -> spec_fn(ClaimView) -> bool {
    |e: ClaimView|
        e.says matches Some(ChangeView::RemoveApplication { device_uuid, app_id })
            && device_uuid == d && app_id == id
}

pub open spec fn renames_app(d: Uuid, id: Uuid) -> spec_fn(ClaimView) -> bool {
    |e: ClaimView|
        e.says matches Some(ChangeView::UpdateApplicationAlias { device_uuid, app_id, .. })
            && device_uuid == d && app_id == id
}

pub open spec fn adds_device(u: Uuid) -> spec_fn(ClaimView) -> bool {
    |e: ClaimView|
        e.says matches Some(ChangeView::AddDevice { uuid, .. }) && uuid == u
}

pub open spec fn sets_contact(u: Uuid) -> spec_fn(ClaimView) -> bool {
    |e: ClaimView|
        e.says matches Some(ChangeView::UpsertContact { uuid, .. }) && uuid == u
}

/// The `i`-th entry makes the strongest of the claims `p`; of equally strong
/// ones, the first.
pub open spec fn is_strongest(
    log: Seq<ClaimView>,
    p: spec_fn(ClaimView) -> bool,
    ranks: Seq<(Uuid, u32)>,
    i: int,
) -> bool {
    &&& 0 <= i < log.len()
    &&& p(log[i])
    &&& forall|j: int|
        0 <= j < log.len() && p(#[trigger] log[j]) ==> {
            ||| weaker(strength(log[j].version, ranks), strength(log[i].version, ranks))
            ||| log[j].version == log[i].version && i <= j
        }
}

/// The `i`-th entry makes the earliest of the claims `p`; of equally early
/// ones, the first.
pub open spec fn is_earliest(
    log: Seq<ClaimView>,
    p: spec_fn(ClaimView) -> bool,
    i: int,
) -> bool {
    &&& 0 <= i < log.len()
    &&& p(log[i])
    &&& forall|j: int|
        0 <= j < log.len() && p(#[trigger] log[j]) ==> {
            ||| earlier(log[i].version, log[j].version)
            ||| log[j].version == log[i].version && i <= j
        }
}

/// The strongest of the claims `p`.
pub open spec fn strongest(
    log: Seq<ClaimView>,
    p: spec_fn(ClaimView) -> bool,
    ranks: Seq<(Uuid, u32)>,
) -> int {
    choose|i: int| is_strongest(log, p, ranks, i)
}

/// The earliest of the claims `p`.
pub open spec fn earliest(
    log: Seq<ClaimView>,
    p: spec_fn(ClaimView) -> bool,
) -> int {
    choose|i: int| is_earliest(log, p, i)
}

/// The name that an entry gives an application.
pub open spec fn alias_said(e: ClaimView) -> Seq<char> {
    match e.says {
        Some(ChangeView::AddApplication { app_alias, .. }) => app_alias,
        Some(ChangeView::UpdateApplicationAlias { new_alias, .. }) => new_alias,
        _ => Seq::empty(),
    }
}

/// The name under which a log has an application, if it has it.
pub open spec fn app_in(
    log: Seq<ClaimView>,
    ranks: Seq<(Uuid, u32)>,
    d: Uuid,
    id: Uuid,
) -> Option<Seq<char>> {
    if model::any_where(log, removes_app(d, id)) || !model::any_where(log, adds_app(d, id)) {
        None
    } else if model::any_where(log, renames_app(d, id)) {
        Some(alias_said(log[strongest(log, renames_app(d, id), ranks)]))
    } else {
        Some(alias_said(log[strongest(log, adds_app(d, id), ranks)]))
    }
}

/// How a log describes a device, if it has it.
pub open spec fn device_in(log: Seq<ClaimView>, u: Uuid) -> Option<ChangeView> {
    if model::any_where(log, adds_device(u)) {
        log[earliest(log, adds_device(u))].says
    } else {
        None
    }
}

/// The same contact, with its devices in normal order.
pub open spec fn normal_contact(c: ChangeView) -> ChangeView {
    match c {
        ChangeView::UpsertContact { uuid, alias, public_key, devices } => ChangeView::UpsertContact {
            uuid,
            alias,
            public_key,
            devices: cards::normal_cards(devices),
        },
        _ => c,
    }
}

/// How a log describes a contact, if it has it.
pub open spec fn contact_in(
    log: Seq<ClaimView>,
    ranks: Seq<(Uuid, u32)>,
    u: Uuid,
) -> Option<ChangeView> {
    if model::any_where(log, sets_contact(u)) {
        Some(normal_contact(log[strongest(log, sets_contact(u), ranks)].says.unwrap()))
    } else {
        None
    }
}

/// Nothing is weaker than itself, and of two strengths with different versions
/// one is weaker.
pub proof fn lemma_weaker(a: SyncVersion, b: SyncVersion, ranks: Seq<(Uuid, u32)>)
    ensures
        weaker(strength(a, ranks), strength(b, ranks)) || weaker(
            strength(b, ranks),
            strength(a, ranks),
        ) || a == b,
        !(weaker(strength(a, ranks), strength(b, ranks)) && weaker(
            strength(b, ranks),
            strength(a, ranks),
        )),
        a == b ==> !weaker(strength(a, ranks), strength(b, ranks)),
{
    order::lemma_lex_total(a.writer_sg_uuid@, b.writer_sg_uuid@);
    order::lemma_uuid_bytes(a.writer_sg_uuid, b.writer_sg_uuid);
}

pub proof fn lemma_weaker_transitive(a: Strength, b: Strength, c: Strength)
    requires
        weaker(a, b),
        weaker(b, c),
    ensures
        weaker(a, c),
{
    if order::lex_lt(a.writer@, b.writer@) && order::lex_lt(b.writer@, c.writer@) {
        order::lemma_lex_transitive(a.writer@, b.writer@, c.writer@);
    }
}

pub proof fn lemma_earlier(a: SyncVersion, b: SyncVersion)
    ensures
        earlier(a, b) || earlier(b, a) || a == b,
        !(earlier(a, b) && earlier(b, a)),
        a == b ==> !earlier(a, b),
{
    order::lemma_lex_total(a.writer_sg_uuid@, b.writer_sg_uuid@);
    order::lemma_uuid_bytes(a.writer_sg_uuid, b.writer_sg_uuid);
}

pub proof fn lemma_earlier_transitive(a: SyncVersion, b: SyncVersion, c: SyncVersion)
    requires
        earlier(a, b),
        earlier(b, c),
    ensures
        earlier(a, c),
{
    if order::lex_lt(a.writer_sg_uuid@, b.writer_sg_uuid@) && order::lex_lt(
        b.writer_sg_uuid@,
        c.writer_sg_uuid@,
    ) {
        order::lemma_lex_transitive(a.writer_sg_uuid@, b.writer_sg_uuid@, c.writer_sg_uuid@);
    }
}

/// There is one strongest claim.
pub proof fn lemma_strongest_at(
    log: Seq<ClaimView>,
    p: spec_fn(ClaimView) -> bool,
    ranks: Seq<(Uuid, u32)>,
    i: int,
)
    requires
        is_strongest(log, p, ranks, i),
    ensures
        strongest(log, p, ranks) == i,
{
    let k = strongest(log, p, ranks);
    assert(is_strongest(log, p, ranks, k));
    assert(p(log[i]) && p(log[k]));
    lemma_weaker(log[i].version, log[k].version, ranks);
}

/// There is one earliest claim.
pub proof fn lemma_earliest_at(
    log: Seq<ClaimView>,
    p: spec_fn(ClaimView) -> bool,
    i: int,
)
    requires
        is_earliest(log, p, i),
    ensures
        earliest(log, p) == i,
{
    let k = earliest(log, p);
    assert(is_earliest(log, p, k));
    assert(p(log[i]) && p(log[k]));
    lemma_earlier(log[i].version, log[k].version);
}

/// Where a claim is made, one is strongest.
pub proof fn lemma_strongest_exists(
    log: Seq<ClaimView>,
    p: spec_fn(ClaimView) -> bool,
    ranks: Seq<(Uuid, u32)>,
)
    requires
        model::any_where(log, p),
    ensures
        is_strongest(log, p, ranks, strongest(log, p, ranks)),
    decreases log.len(),
{
    let t = log.drop_last();
    let n = log.len() - 1;
    if model::any_where(t, p) {
        lemma_strongest_exists(t, p, ranks);
        let k = strongest(t, p, ranks);
        let w = if p(log[n]) && weaker(
            strength(log[k].version, ranks),
            strength(log[n].version, ranks),
        ) {
            n
        } else {
            k
        };
        assert forall|j: int| 0 <= j < log.len() && p(#[trigger] log[j]) implies {
            ||| weaker(strength(log[j].version, ranks), strength(log[w].version, ranks))
            ||| log[j].version == log[w].version && w <= j
        } by {
            if j < n {
                assert(t[j] == log[j] && p(t[j]));
                if w == n && weaker(
                    strength(log[j].version, ranks),
                    strength(log[k].version, ranks),
                ) {
                    lemma_weaker_transitive(
                        strength(log[j].version, ranks),
                        strength(log[k].version, ranks),
                        strength(log[n].version, ranks),
                    );
                }
            } else {
                lemma_weaker(log[k].version, log[n].version, ranks);
            }
        }
        assert(is_strongest(log, p, ranks, w));
    } else {
        let k = choose|k: int| 0 <= k < log.len() && p(#[trigger] log[k]);
        if k < n {
            assert(t[k] == log[k]);
        }
        assert forall|j: int| 0 <= j < log.len() && p(#[trigger] log[j]) implies j == n by {
            if j < n {
                assert(t[j] == log[j]);
            }
        }
        assert(is_strongest(log, p, ranks, n));
    }
}

/// Where a claim is made, one is earliest.
pub proof fn lemma_earliest_exists(
    log: Seq<ClaimView>,
    p: spec_fn(ClaimView) -> bool,
)
    requires
        model::any_where(log, p),
    ensures
        is_earliest(log, p, earliest(log, p)),
    decreases log.len(),
{
    let t = log.drop_last();
    let n = log.len() - 1;
    if model::any_where(t, p) {
        lemma_earliest_exists(t, p);
        let k = earliest(t, p);
        let w = if p(log[n]) && earlier(log[n].version, log[k].version) {
            n
        } else {
            k
        };
        assert forall|j: int| 0 <= j < log.len() && p(#[trigger] log[j]) implies {
            ||| earlier(log[w].version, log[j].version)
            ||| log[j].version == log[w].version && w <= j
        } by {
            if j < n {
                assert(t[j] == log[j] && p(t[j]));
                if w == n && earlier(log[k].version, log[j].version) {
                    lemma_earlier_transitive(log[n].version, log[k].version, log[j].version);
                }
            } else {
                lemma_earlier(log[k].version, log[n].version);
            }
        }
        assert(is_earliest(log, p, w));
    } else {
        let k = choose|k: int| 0 <= k < log.len() && p(#[trigger] log[k]);
        if k < n {
            assert(t[k] == log[k]);
        }
        assert forall|j: int| 0 <= j < log.len() && p(#[trigger] log[j]) implies j == n by {
            if j < n {
                assert(t[j] == log[j]);
            }
        }
        assert(is_earliest(log, p, n));
    }
}

/// The claims at the version `v`.
pub open spec fn at_version(v: SyncVersion) -> spec_fn(WriteLogEntryView) -> bool {
    |e: WriteLogEntryView| e.version == v
}

/// The entries whose version is not in `local`.
pub open spec fn unknown_to(local: Seq<WriteLogEntryView>) -> spec_fn(WriteLogEntryView) -> bool {
    |e: WriteLogEntryView| !model::any_where(local, at_version(e.version))
}

/// The peer's entries that this side does not have.
pub open spec fn news(
    local: Seq<WriteLogEntryView>,
    peer: Seq<WriteLogEntryView>,
) -> Seq<WriteLogEntryView> {
    model::keep(peer, unknown_to(local))
}

/// The log after the merge.
pub open spec fn merged(
    local: Seq<WriteLogEntryView>,
    peer: Seq<WriteLogEntryView>,
) -> Seq<WriteLogEntryView> {
    local + news(local, peer)
}

/// The devices that `tgt` has and `cur` has not.
pub open spec fn new_device(cur: Seq<ClaimView>, tgt: Seq<ClaimView>) -> spec_fn(Uuid) -> bool {
    |u: Uuid| device_in(tgt, u) is Some && device_in(cur, u) is None
}

/// The applications that `tgt` has and `cur` has not, or has under another
/// name.
pub open spec fn new_app(
    cur: Seq<ClaimView>,
    tgt: Seq<ClaimView>,
    ranks: Seq<(Uuid, u32)>,
) -> spec_fn((Uuid, Uuid)) -> bool {
    |k: (Uuid, Uuid)|
        app_in(tgt, ranks, k.0, k.1) is Some && app_in(cur, ranks, k.0, k.1) != app_in(
            tgt,
            ranks,
            k.0,
            k.1,
        )
}

/// The applications that `cur` has and `tgt` has not.
pub open spec fn gone_app(
    cur: Seq<ClaimView>,
    tgt: Seq<ClaimView>,
    ranks: Seq<(Uuid, u32)>,
) -> spec_fn((Uuid, Uuid)) -> bool {
    |k: (Uuid, Uuid)|
        app_in(cur, ranks, k.0, k.1) is Some && app_in(tgt, ranks, k.0, k.1) is None
}

/// The contacts that `tgt` has and `cur` has not, or has otherwise.
pub open spec fn new_contact(
    cur: Seq<ClaimView>,
    tgt: Seq<ClaimView>,
    ranks: Seq<(Uuid, u32)>,
) -> spec_fn(Uuid) -> bool {
    |u: Uuid|
        contact_in(tgt, ranks, u) is Some && contact_in(cur, ranks, u) != contact_in(tgt, ranks, u)
}

/// The change that brings an application in line with `tgt`.
pub open spec fn app_change(
    cur: Seq<ClaimView>,
    tgt: Seq<ClaimView>,
    ranks: Seq<(Uuid, u32)>,
    k: (Uuid, Uuid),
) -> ChangeView {
    let alias = app_in(tgt, ranks, k.0, k.1).unwrap();
    if app_in(cur, ranks, k.0, k.1) is None {
        ChangeView::AddApplication { device_uuid: k.0, app_id: k.1, app_alias: alias }
    } else {
        ChangeView::UpdateApplicationAlias { device_uuid: k.0, app_id: k.1, new_alias: alias }
    }
}

pub open spec fn device_changes(tgt: Seq<ClaimView>, keys: Seq<Uuid>) -> Seq<ChangeView> {
    Seq::new(keys.len(), |i: int| device_in(tgt, keys[i]).unwrap())
}

pub open spec fn app_changes(
    cur: Seq<ClaimView>,
    tgt: Seq<ClaimView>,
    ranks: Seq<(Uuid, u32)>,
    keys: Seq<(Uuid, Uuid)>,
) -> Seq<ChangeView> {
    Seq::new(keys.len(), |i: int| app_change(cur, tgt, ranks, keys[i]))
}

pub open spec fn gone_changes(keys: Seq<(Uuid, Uuid)>) -> Seq<ChangeView> {
    Seq::new(
        keys.len(),
        |i: int| ChangeView::RemoveApplication { device_uuid: keys[i].0, app_id: keys[i].1 },
    )
}

pub open spec fn contact_changes(
    tgt: Seq<ClaimView>,
    ranks: Seq<(Uuid, u32)>,
    keys: Seq<Uuid>,
) -> Seq<ChangeView> {
    Seq::new(keys.len(), |i: int| contact_in(tgt, ranks, keys[i]).unwrap())
}

/// The changes that lead from what `cur` says to what `tgt` says: new devices,
/// new and renamed applications, applications that are gone, and contacts, each
/// in order of the identifiers.
pub open spec fn difference(
    cur: Seq<ClaimView>,
    tgt: Seq<ClaimView>,
    ranks: Seq<(Uuid, u32)>,
) -> Seq<ChangeView> {
    device_changes(tgt, order::listing(new_device(cur, tgt), order::uuid_key())) + app_changes(
        cur,
        tgt,
        ranks,
        order::listing(new_app(cur, tgt, ranks), order::two_key()),
    ) + gone_changes(order::listing(gone_app(cur, tgt, ranks), order::two_key()))
        + contact_changes(
        tgt,
        ranks,
        order::listing(new_contact(cur, tgt, ranks), order::uuid_key()),
    )
}

/// What the merge is asked to look for.
pub enum Topic {
    AddsApp(Uuid, Uuid),
    RemovesApp(Uuid, Uuid),
    RenamesApp(Uuid, Uuid),
    AddsDevice(Uuid),
    SetsContact(Uuid),
}

pub open spec fn on_topic(t: Topic) -> spec_fn(ClaimView) -> bool {
    match t {
        Topic::AddsApp(d, id) => adds_app(d, id),
        Topic::RemovesApp(d, id) => removes_app(d, id),
        Topic::RenamesApp(d, id) => renames_app(d, id),
        Topic::AddsDevice(u) => adds_device(u),
        Topic::SetsContact(u) => sets_contact(u),
    }
}

/// Whether a claim is on a topic.
fn is_on(c: &Claim, t: &Topic) -> (r: bool)
    ensures
        r == on_topic(*t)(c@),
{
    match (t, &c.says) {
        (Topic::AddsApp(d, id), Some(Change::AddApplication { device_uuid, app_id, .. })) =>
            uuid_eq(device_uuid, d) && uuid_eq(app_id, id),
        (Topic::RemovesApp(d, id), Some(Change::RemoveApplication { device_uuid, app_id })) =>
            uuid_eq(device_uuid, d) && uuid_eq(app_id, id),
        (Topic::RenamesApp(d, id), Some(Change::UpdateApplicationAlias { device_uuid, app_id, .. })) =>
            uuid_eq(device_uuid, d) && uuid_eq(app_id, id),
        (Topic::AddsDevice(u), Some(Change::AddDevice { uuid, .. })) => uuid_eq(uuid, u),
        (Topic::SetsContact(u), Some(Change::UpsertContact { uuid, .. })) => uuid_eq(uuid, u),
        _ => false,
    }
}

/// The rank of a writer.
fn writer_rank(ranks: &Vec<(Uuid, u32)>, w: &Uuid) -> (r: u32)
    ensures
        r == rank_of(ranks@, *w),
{
    let mut i: usize = ranks.len();
    assert(ranks@.take(i as int) =~= ranks@);
    while i > 0
        invariant
            i <= ranks@.len(),
            rank_of(ranks@.take(i as int), *w) == rank_of(ranks@, *w),
        decreases i,
    {
        assert(ranks@.take(i as int).last() == ranks@[i - 1]);
        assert(ranks@.take(i as int).drop_last() =~= ranks@.take(i - 1));
        if uuid_eq(&ranks[i - 1].0, w) {
            return ranks[i - 1].1;
        }
        i -= 1;
    }
    u32::MAX
}

/// Whether what was committed at `a` is weaker than what was committed at `b`.
fn is_weaker(a: &SyncVersion, b: &SyncVersion, ranks: &Vec<(Uuid, u32)>) -> (r: bool)
    ensures
        r == weaker(strength(*a, ranks@), strength(*b, ranks@)),
{
    let x: u32 = writer_rank(ranks, &a.writer_sg_uuid);
    let y: u32 = writer_rank(ranks, &b.writer_sg_uuid);
    if x != y {
        x > y
    } else if a.epoch != b.epoch {
        a.epoch < b.epoch
    } else if a.seq != b.seq {
        a.seq < b.seq
    } else {
        uuid_lt(&a.writer_sg_uuid, &b.writer_sg_uuid)
    }
}

/// Whether `a` was committed before `b`.
fn is_earlier(a: &SyncVersion, b: &SyncVersion) -> (r: bool)
    ensures
        r == earlier(*a, *b),
{
    if a.epoch != b.epoch {
        a.epoch < b.epoch
    } else if a.seq != b.seq {
        a.seq < b.seq
    } else {
        uuid_lt(&a.writer_sg_uuid, &b.writer_sg_uuid)
    }
}

/// Whether one of the first `n` claims is on a topic.
fn any_on(claims: &Vec<Claim>, n: usize, t: &Topic) -> (r: bool)
    requires
        n <= claims@.len(),
    ensures
        r == model::any_where(model::views(claims@).take(n as int), on_topic(*t)),
{
    broadcast use model::group_views;

    let ghost log = model::views(claims@).take(n as int);
    let mut i: usize = 0;
    while i < n
        invariant
            i <= n <= claims@.len(),
            log == model::views(claims@).take(n as int),
            forall|j: int| 0 <= j < i ==> !on_topic(*t)(#[trigger] log[j]),
        decreases n - i,
    {
        if is_on(&claims[i], t) {
            assert(on_topic(*t)(log[i as int]));
            return true;
        }
        assert(!on_topic(*t)(log[i as int]));
        i += 1;
    }
    false
}

/// The strongest of the first `n` claims that are on a topic.
fn find_strongest(claims: &Vec<Claim>, n: usize, ranks: &Vec<(Uuid, u32)>, t: &Topic) -> (r: Option<
    usize,
>)
    requires
        n <= claims@.len(),
    ensures
        match r {
            Some(i) => i < n && is_strongest(
                model::views(claims@).take(n as int),
                on_topic(*t),
                ranks@,
                i as int,
            ),
            None => !model::any_where(model::views(claims@).take(n as int), on_topic(*t)),
        },
{
    broadcast use model::group_views;

    let ghost log = model::views(claims@).take(n as int);
    let ghost p = on_topic(*t);
    let mut best: Option<usize> = None;
    let mut i: usize = 0;
    while i < n
        invariant
            i <= n <= claims@.len(),
            log == model::views(claims@).take(n as int),
            p == on_topic(*t),
            match best {
                Some(k) => is_strongest(log.take(i as int), p, ranks@, k as int),
                None => forall|j: int| 0 <= j < i ==> !p(#[trigger] log[j]),
            },
        decreases n - i,
    {
        assert(log[i as int] == claims@[i as int]@);
        let ghost before = log.take(i as int);
        let ghost after = log.take(i + 1);
        if is_on(&claims[i], t) {
            match best {
                Some(k) => {
                    if is_weaker(&claims[k].version, &claims[i].version, ranks) {
                        best = Some(i);
                        proof {
                            assert forall|j: int| 0 <= j < after.len() && p(#[trigger] after[j]) implies {
                                ||| weaker(
                                    strength(after[j].version, ranks@),
                                    strength(after[i as int].version, ranks@),
                                )
                                ||| after[j].version == after[i as int].version && i <= j
                            } by {
                                if j < i {
                                    assert(before[j] == after[j] && p(before[j]));
                                    if weaker(
                                        strength(before[j].version, ranks@),
                                        strength(before[k as int].version, ranks@),
                                    ) {
                                        lemma_weaker_transitive(
                                            strength(before[j].version, ranks@),
                                            strength(before[k as int].version, ranks@),
                                            strength(after[i as int].version, ranks@),
                                        );
                                    }
                                }
                            }
                        }
                    } else {
                        proof {
                            assert forall|j: int| 0 <= j < after.len() && p(#[trigger] after[j]) implies {
                                ||| weaker(
                                    strength(after[j].version, ranks@),
                                    strength(after[k as int].version, ranks@),
                                )
                                ||| after[j].version == after[k as int].version && k <= j
                            } by {
                                if j < i {
                                    assert(before[j] == after[j] && p(before[j]));
                                } else {
                                    lemma_weaker(
                                        after[k as int].version,
                                        after[i as int].version,
                                        ranks@,
                                    );
                                }
                            }
                            assert(before[k as int] == after[k as int]);
                        }
                    }
                },
                None => {
                    best = Some(i);
                    proof {
                        assert forall|j: int| 0 <= j < after.len() && p(#[trigger] after[j]) implies j
                            == i by {
                            if j < i {
                                assert(!p(log[j]));
                            }
                        }
                    }
                },
            }
        } else {
            proof {
                if let Some(k) = best {
                    assert forall|j: int| 0 <= j < after.len() && p(#[trigger] after[j]) implies {
                        ||| weaker(
                            strength(after[j].version, ranks@),
                            strength(after[k as int].version, ranks@),
                        )
                        ||| after[j].version == after[k as int].version && k <= j
                    } by {
                        if j < i {
                            assert(before[j] == after[j] && p(before[j]));
                        }
                    }
                    assert(before[k as int] == after[k as int]);
                }
            }
        }
        i += 1;
    }
    assert(log.take(n as int) =~= log);
    best
}

/// The earliest of the first `n` claims that are on a topic.
fn find_earliest(claims: &Vec<Claim>, n: usize, t: &Topic) -> (r: Option<usize>)
    requires
        n <= claims@.len(),
    ensures
        match r {
            Some(i) => i < n && is_earliest(
                model::views(claims@).take(n as int),
                on_topic(*t),
                i as int,
            ),
            None => !model::any_where(model::views(claims@).take(n as int), on_topic(*t)),
        },
{
    broadcast use model::group_views;

    let ghost log = model::views(claims@).take(n as int);
    let ghost p = on_topic(*t);
    let mut best: Option<usize> = None;
    let mut i: usize = 0;
    while i < n
        invariant
            i <= n <= claims@.len(),
            log == model::views(claims@).take(n as int),
            p == on_topic(*t),
            match best {
                Some(k) => is_earliest(log.take(i as int), p, k as int),
                None => forall|j: int| 0 <= j < i ==> !p(#[trigger] log[j]),
            },
        decreases n - i,
    {
        assert(log[i as int] == claims@[i as int]@);
        let ghost before = log.take(i as int);
        let ghost after = log.take(i + 1);
        if is_on(&claims[i], t) {
            match best {
                Some(k) => {
                    if is_earlier(&claims[i].version, &claims[k].version) {
                        best = Some(i);
                        proof {
                            assert forall|j: int| 0 <= j < after.len() && p(#[trigger] after[j]) implies {
                                ||| earlier(after[i as int].version, after[j].version)
                                ||| after[j].version == after[i as int].version && i <= j
                            } by {
                                if j < i {
                                    assert(before[j] == after[j] && p(before[j]));
                                    if earlier(before[k as int].version, before[j].version) {
                                        lemma_earlier_transitive(
                                            after[i as int].version,
                                            before[k as int].version,
                                            before[j].version,
                                        );
                                    }
                                }
                            }
                        }
                    } else {
                        proof {
                            assert forall|j: int| 0 <= j < after.len() && p(#[trigger] after[j]) implies {
                                ||| earlier(after[k as int].version, after[j].version)
                                ||| after[j].version == after[k as int].version && k <= j
                            } by {
                                if j < i {
                                    assert(before[j] == after[j] && p(before[j]));
                                } else {
                                    lemma_earlier(
                                        after[k as int].version,
                                        after[i as int].version,
                                    );
                                }
                            }
                            assert(before[k as int] == after[k as int]);
                        }
                    }
                },
                None => {
                    best = Some(i);
                    proof {
                        assert forall|j: int| 0 <= j < after.len() && p(#[trigger] after[j]) implies j
                            == i by {
                            if j < i {
                                assert(!p(log[j]));
                            }
                        }
                    }
                },
            }
        } else {
            proof {
                if let Some(k) = best {
                    assert forall|j: int| 0 <= j < after.len() && p(#[trigger] after[j]) implies {
                        ||| earlier(after[k as int].version, after[j].version)
                        ||| after[j].version == after[k as int].version && k <= j
                    } by {
                        if j < i {
                            assert(before[j] == after[j] && p(before[j]));
                        }
                    }
                    assert(before[k as int] == after[k as int]);
                }
            }
        }
        i += 1;
    }
    assert(log.take(n as int) =~= log);
    best
}

/// The claim, among the first `n`, under whose name an application is there.
fn find_app_name(
    claims: &Vec<Claim>,
    n: usize,
    ranks: &Vec<(Uuid, u32)>,
    d: &Uuid,
    id: &Uuid,
) -> (r: Option<usize>)
    requires
        n <= claims@.len(),
    ensures
        match app_in(model::views(claims@).take(n as int), ranks@, *d, *id) {
            Some(s) => {
                &&& r is Some
                &&& r->0 < n
                &&& names_app(claims@[r->0 as int]@)
                &&& alias_said(claims@[r->0 as int]@) == s
            },
            None => r is None,
        },
{
    broadcast use model::group_views;

    let ghost log = model::views(claims@).take(n as int);
    if any_on(claims, n, &Topic::RemovesApp(*d, *id)) {
        return None;
    }
    let added = find_strongest(claims, n, ranks, &Topic::AddsApp(*d, *id));
    match added {
        None => None,
        Some(a) => {
            assert(adds_app(*d, *id)(log[a as int]));
            match find_strongest(claims, n, ranks, &Topic::RenamesApp(*d, *id)) {
                Some(k) => {
                    proof {
                        assert(renames_app(*d, *id)(log[k as int]));
                        lemma_strongest_at(log, renames_app(*d, *id), ranks@, k as int);
                    }
                    Some(k)
                },
                None => {
                    proof {
                        lemma_strongest_at(log, adds_app(*d, *id), ranks@, a as int);
                    }
                    Some(a)
                },
            }
        },
    }
}

/// The claim adds or renames an application.
pub open spec fn names_app(c: ClaimView) -> bool {
    ||| c.says matches Some(ChangeView::AddApplication { .. })
    ||| c.says matches Some(ChangeView::UpdateApplicationAlias { .. })
}

/// The name that a claim gives an application.
fn said_alias(c: &Claim) -> (r: String)
    requires
        names_app(c@),
    ensures
        r@ == alias_said(c@),
{
    match &c.says {
        Some(Change::AddApplication { app_alias, .. }) => app_alias.clone(),
        Some(Change::UpdateApplicationAlias { new_alias, .. }) => new_alias.clone(),
        _ => String::new(),
    }
}

/// A log has a device exactly if an entry adds it, and describes it by one.
pub proof fn lemma_device_in(log: Seq<ClaimView>, u: Uuid)
    ensures
        device_in(log, u) is Some <==> model::any_where(log, adds_device(u)),
        device_in(log, u) matches Some(c) ==> (c matches ChangeView::AddDevice { uuid, .. } && uuid
            == u),
{
    if model::any_where(log, adds_device(u)) {
        lemma_earliest_exists(log, adds_device(u));
        assert(adds_device(u)(log[earliest(log, adds_device(u))]));
    }
}

/// A log has a contact exactly if an entry sets it, and describes it by one.
pub proof fn lemma_contact_in(log: Seq<ClaimView>, ranks: Seq<(Uuid, u32)>, u: Uuid)
    ensures
        contact_in(log, ranks, u) is Some <==> model::any_where(log, sets_contact(u)),
        contact_in(log, ranks, u) matches Some(c) ==> (c matches ChangeView::UpsertContact {
            uuid,
            ..
        } && uuid == u),
{
    if model::any_where(log, sets_contact(u)) {
        lemma_strongest_exists(log, sets_contact(u), ranks);
        assert(sets_contact(u)(log[strongest(log, sets_contact(u), ranks)]));
    }
}

/// The devices that the claims have and the first `n` have not.
fn new_devices(claims: &Vec<Claim>, n: usize) -> (r: Vec<Uuid>)
    requires
        n <= claims@.len(),
    ensures
        order::is_listing(
            r@,
            new_device(model::views(claims@).take(n as int), model::views(claims@)),
            order::uuid_key(),
        ),
{
    broadcast use model::group_views;

    let ghost tgt = model::views(claims@);
    let ghost cur = tgt.take(n as int);
    let mut keys: Vec<Uuid> = Vec::new();
    let mut i: usize = 0;
    while i < claims.len()
        invariant
            i <= claims@.len(),
            n <= claims@.len(),
            tgt == model::views(claims@),
            cur == tgt.take(n as int),
            order::strictly(keys@, order::uuid_key()),
            forall|k: Uuid| #[trigger]
                keys@.contains(k) <==> model::any_where(tgt.take(i as int), adds_device(k))
                    && !model::any_where(cur, adds_device(k)),
        decreases claims@.len() - i,
    {
        let ghost before = keys@;
        if let Some(Change::AddDevice { uuid, .. }) = &claims[i].says {
            if !any_on(claims, n, &Topic::AddsDevice(*uuid)) {
                insert_uuid(&mut keys, *uuid);
            }
        }
        proof {
            assert forall|k: Uuid| #[trigger]
                keys@.contains(k) <==> model::any_where(tgt.take(i + 1), adds_device(k))
                    && !model::any_where(cur, adds_device(k)) by {
                model::lemma_any_step(tgt, adds_device(k), i as int);
                assert(tgt[i as int] == claims@[i as int]@);
                assert(before.contains(k) <==> model::any_where(tgt.take(i as int), adds_device(k))
                    && !model::any_where(cur, adds_device(k)));
            }
        }
        i += 1;
    }
    proof {
        assert(tgt.take(tgt.len() as int) =~= tgt);
        let p = new_device(cur, tgt);
        assert forall|k: Uuid| #[trigger] keys@.contains(k) <==> p(k) by {
            lemma_device_in(tgt, k);
            lemma_device_in(cur, k);
        }
    }
    keys
}

/// Whether a log has an application at all.
proof fn lemma_app_in(log: Seq<ClaimView>, ranks: Seq<(Uuid, u32)>, d: Uuid, id: Uuid)
    ensures
        app_in(log, ranks, d, id) is Some ==> model::any_where(log, adds_app(d, id)),
{
}

/// Whether an application has to be added or renamed to get from the first `n`
/// claims to all of them.
fn app_differs(claims: &Vec<Claim>, n: usize, ranks: &Vec<(Uuid, u32)>, d: &Uuid, id: &Uuid) -> (r:
    bool)
    requires
        n <= claims@.len(),
    ensures
        r == new_app(model::views(claims@).take(n as int), model::views(claims@), ranks@)(
            (*d, *id),
        ),
{
    broadcast use model::group_views;

    assert(model::views(claims@).take(claims@.len() as int) =~= model::views(claims@));
    match find_app_name(claims, claims.len(), ranks, d, id) {
        Some(t) => match find_app_name(claims, n, ranks, d, id) {
            Some(c) => !(said_alias(&claims[t]) == said_alias(&claims[c])),
            None => true,
        },
        None => false,
    }
}

/// The applications to add or rename.
fn new_apps(claims: &Vec<Claim>, n: usize, ranks: &Vec<(Uuid, u32)>) -> (r: Vec<(Uuid, Uuid)>)
    requires
        n <= claims@.len(),
    ensures
        order::is_listing(
            r@,
            new_app(model::views(claims@).take(n as int), model::views(claims@), ranks@),
            order::two_key(),
        ),
{
    broadcast use model::group_views;

    let ghost tgt = model::views(claims@);
    let ghost cur = tgt.take(n as int);
    let ghost p = new_app(cur, tgt, ranks@);
    let mut keys: Vec<(Uuid, Uuid)> = Vec::new();
    let mut i: usize = 0;
    while i < claims.len()
        invariant
            i <= claims@.len(),
            n <= claims@.len(),
            tgt == model::views(claims@),
            cur == tgt.take(n as int),
            p == new_app(cur, tgt, ranks@),
            order::strictly(keys@, order::two_key()),
            forall|k: (Uuid, Uuid)| #[trigger]
                keys@.contains(k) <==> model::any_where(tgt.take(i as int), adds_app(k.0, k.1))
                    && p(k),
        decreases claims@.len() - i,
    {
        let ghost before = keys@;
        if let Some(Change::AddApplication { device_uuid, app_id, .. }) = &claims[i].says {
            if app_differs(claims, n, ranks, device_uuid, app_id) {
                insert_two(&mut keys, (*device_uuid, *app_id));
            }
        }
        proof {
            assert forall|k: (Uuid, Uuid)| #[trigger]
                keys@.contains(k) <==> model::any_where(tgt.take(i + 1), adds_app(k.0, k.1)) && p(
                    k,
                ) by {
                model::lemma_any_step(tgt, adds_app(k.0, k.1), i as int);
                assert(tgt[i as int] == claims@[i as int]@);
                assert(before.contains(k) <==> model::any_where(
                    tgt.take(i as int),
                    adds_app(k.0, k.1),
                ) && p(k));
            }
        }
        i += 1;
    }
    proof {
        assert(tgt.take(tgt.len() as int) =~= tgt);
        assert forall|k: (Uuid, Uuid)| #[trigger] keys@.contains(k) <==> p(k) by {
            lemma_app_in(tgt, ranks@, k.0, k.1);
        }
    }
    keys
}

/// The applications to remove.
fn gone_apps(claims: &Vec<Claim>, n: usize, ranks: &Vec<(Uuid, u32)>) -> (r: Vec<(Uuid, Uuid)>)
    requires
        n <= claims@.len(),
    ensures
        order::is_listing(
            r@,
            gone_app(model::views(claims@).take(n as int), model::views(claims@), ranks@),
            order::two_key(),
        ),
{
    broadcast use model::group_views;

    let ghost tgt = model::views(claims@);
    let ghost cur = tgt.take(n as int);
    let ghost p = gone_app(cur, tgt, ranks@);
    assert(tgt.take(tgt.len() as int) =~= tgt);
    let mut keys: Vec<(Uuid, Uuid)> = Vec::new();
    let mut i: usize = 0;
    while i < n
        invariant
            i <= n <= claims@.len(),
            tgt == model::views(claims@),
            tgt.take(tgt.len() as int) == tgt,
            cur == tgt.take(n as int),
            p == gone_app(cur, tgt, ranks@),
            order::strictly(keys@, order::two_key()),
            forall|k: (Uuid, Uuid)| #[trigger]
                keys@.contains(k) <==> model::any_where(cur.take(i as int), adds_app(k.0, k.1))
                    && p(k),
        decreases n - i,
    {
        let ghost before = keys@;
        if let Some(Change::AddApplication { device_uuid, app_id, .. }) = &claims[i].says {
            let here = find_app_name(claims, n, ranks, device_uuid, app_id);
            let there = find_app_name(claims, claims.len(), ranks, device_uuid, app_id);
            if here.is_some() && there.is_none() {
                insert_two(&mut keys, (*device_uuid, *app_id));
            }
        }
        proof {
            assert forall|k: (Uuid, Uuid)| #[trigger]
                keys@.contains(k) <==> model::any_where(cur.take(i + 1), adds_app(k.0, k.1)) && p(
                    k,
                ) by {
                model::lemma_any_step(cur, adds_app(k.0, k.1), i as int);
                assert(cur[i as int] == claims@[i as int]@);
                assert(before.contains(k) <==> model::any_where(
                    cur.take(i as int),
                    adds_app(k.0, k.1),
                ) && p(k));
            }
        }
        i += 1;
    }
    proof {
        assert(cur.take(n as int) =~= cur);
        assert forall|k: (Uuid, Uuid)| #[trigger] keys@.contains(k) <==> p(k) by {
            lemma_app_in(cur, ranks@, k.0, k.1);
        }
    }
    keys
}

/// The contact that a claim sets, with its devices in normal order.
fn said_contact(c: &Claim) -> (r: Change)
    requires
        c@.says matches Some(ChangeView::UpsertContact { .. }),
    ensures
        r@ == normal_contact(c@.says.unwrap()),
        r is UpsertContact,
{
    match &c.says {
        Some(Change::UpsertContact { uuid, alias, public_key, devices }) => Change::UpsertContact {
            uuid: *uuid,
            alias: alias.clone(),
            public_key: *public_key,
            devices: normalize_cards(devices),
        },
        _ => Change::UpsertContact {
            uuid: c.version.writer_sg_uuid,
            alias: String::new(),
            public_key: [0u8; 32],
            devices: Vec::new(),
        },
    }
}

/// Whether two descriptions of a contact are the same.
fn same_contact_change(a: &Change, b: &Change) -> (r: bool)
    requires
        a is UpsertContact,
        b is UpsertContact,
    ensures
        r == (a@ == b@),
{
    match (a, b) {
        (
            Change::UpsertContact { uuid: u, alias: x, public_key: k, devices: d },
            Change::UpsertContact { uuid: v, alias: y, public_key: l, devices: e },
        ) => uuid_eq(u, v) && *x == *y && key_eq(k, l) && cards_eq(d, e),
        _ => false,
    }
}

/// How the first `n` claims describe a contact.
fn find_contact_change(claims: &Vec<Claim>, n: usize, ranks: &Vec<(Uuid, u32)>, u: &Uuid) -> (r:
    Option<Change>)
    requires
        n <= claims@.len(),
    ensures
        match contact_in(model::views(claims@).take(n as int), ranks@, *u) {
            Some(c) => r is Some && r->0@ == c && r->0 is UpsertContact,
            None => r is None,
        },
{
    broadcast use model::group_views;

    let ghost log = model::views(claims@).take(n as int);
    match find_strongest(claims, n, ranks, &Topic::SetsContact(*u)) {
        Some(k) => {
            proof {
                assert(sets_contact(*u)(log[k as int]));
                lemma_strongest_at(log, sets_contact(*u), ranks@, k as int);
            }
            Some(said_contact(&claims[k]))
        },
        None => None,
    }
}

/// The contacts to set.
fn new_contacts(claims: &Vec<Claim>, n: usize, ranks: &Vec<(Uuid, u32)>) -> (r: Vec<Uuid>)
    requires
        n <= claims@.len(),
    ensures
        order::is_listing(
            r@,
            new_contact(model::views(claims@).take(n as int), model::views(claims@), ranks@),
            order::uuid_key(),
        ),
{
    broadcast use model::group_views;

    let ghost tgt = model::views(claims@);
    let ghost cur = tgt.take(n as int);
    let ghost p = new_contact(cur, tgt, ranks@);
    assert(tgt.take(tgt.len() as int) =~= tgt);
    let mut keys: Vec<Uuid> = Vec::new();
    let mut i: usize = 0;
    while i < claims.len()
        invariant
            i <= claims@.len(),
            n <= claims@.len(),
            tgt == model::views(claims@),
            tgt.take(tgt.len() as int) == tgt,
            cur == tgt.take(n as int),
            p == new_contact(cur, tgt, ranks@),
            order::strictly(keys@, order::uuid_key()),
            forall|k: Uuid| #[trigger]
                keys@.contains(k) <==> model::any_where(tgt.take(i as int), sets_contact(k)) && p(
                    k,
                ),
        decreases claims@.len() - i,
    {
        let ghost before = keys@;
        if let Some(Change::UpsertContact { uuid, .. }) = &claims[i].says {
            let there = find_contact_change(claims, claims.len(), ranks, uuid);
            let here = find_contact_change(claims, n, ranks, uuid);
            let differs = match (&here, &there) {
                (_, None) => false,
                (None, Some(_)) => true,
                (Some(h), Some(t)) => !same_contact_change(h, t),
            };
            if differs {
                insert_uuid(&mut keys, *uuid);
            }
        }
        proof {
            assert forall|k: Uuid| #[trigger]
                keys@.contains(k) <==> model::any_where(tgt.take(i + 1), sets_contact(k)) && p(
                    k,
                ) by {
                model::lemma_any_step(tgt, sets_contact(k), i as int);
                assert(tgt[i as int] == claims@[i as int]@);
                assert(before.contains(k) <==> model::any_where(
                    tgt.take(i as int),
                    sets_contact(k),
                ) && p(k));
            }
        }
        i += 1;
    }
    proof {
        assert forall|k: Uuid| #[trigger] keys@.contains(k) <==> p(k) by {
            lemma_contact_in(tgt, ranks@, k);
        }
    }
    keys
}

/// The changes that lead from what the first `n` claims say to what all say.
fn diff_claims(claims: &Vec<Claim>, n: usize, ranks: &Vec<(Uuid, u32)>) -> (r: Vec<Change>)
    requires
        n <= claims@.len(),
    ensures
        model::views(r@) == difference(
            model::views(claims@).take(n as int),
            model::views(claims@),
            ranks@,
        ),
{
    broadcast use model::group_views;

    let ghost tgt = model::views(claims@);
    let ghost cur = tgt.take(n as int);
    assert(tgt.take(tgt.len() as int) =~= tgt);
    let mut out: Vec<Change> = Vec::new();

    let devices = new_devices(claims, n);
    let ghost dk = devices@;
    let ghost part1 = device_changes(tgt, dk);
    let mut i: usize = 0;
    while i < devices.len()
        invariant
            i <= devices@.len(),
            n <= claims@.len(),
            tgt == model::views(claims@),
            tgt.take(tgt.len() as int) == tgt,
            dk == devices@,
            order::is_listing(dk, new_device(cur, tgt), order::uuid_key()),
            part1 == device_changes(tgt, dk),
            model::views(out@) == part1.take(i as int),
        decreases devices@.len() - i,
    {
        proof {
            assert(dk.contains(dk[i as int]));
            lemma_device_in(tgt, dk[i as int]);
            model::lemma_take_push(part1, i as int);
        }
        if let Some(k) = find_earliest(claims, claims.len(), &Topic::AddsDevice(devices[i])) {
            proof {
                lemma_earliest_at(tgt, adds_device(dk[i as int]), k as int);
            }
            if let Some(c) = &claims[k].says {
                out.push(c.clone());
            }
        }
        i += 1;
    }
    assert(part1.take(part1.len() as int) =~= part1);

    let apps = new_apps(claims, n, ranks);
    let ghost ak = apps@;
    let ghost part2 = app_changes(cur, tgt, ranks@, ak);
    let mut j: usize = 0;
    assert(part1 + part2.take(0) =~= part1);
    while j < apps.len()
        invariant
            j <= apps@.len(),
            n <= claims@.len(),
            tgt == model::views(claims@),
            tgt.take(tgt.len() as int) == tgt,
            cur == tgt.take(n as int),
            ak == apps@,
            order::is_listing(ak, new_app(cur, tgt, ranks@), order::two_key()),
            part2 == app_changes(cur, tgt, ranks@, ak),
            model::views(out@) == part1 + part2.take(j as int),
        decreases apps@.len() - j,
    {
        proof {
            assert(ak.contains(ak[j as int]));
            model::lemma_add_take_push(part1, part2, j as int);
        }
        let d = apps[j].0;
        let id = apps[j].1;
        if let Some(k) = find_app_name(claims, claims.len(), ranks, &d, &id) {
            let alias = said_alias(&claims[k]);
            match find_app_name(claims, n, ranks, &d, &id) {
                None => out.push(
                    Change::AddApplication { device_uuid: d, app_id: id, app_alias: alias },
                ),
                Some(_) => out.push(
                    Change::UpdateApplicationAlias { device_uuid: d, app_id: id, new_alias: alias },
                ),
            }
        }
        j += 1;
    }
    assert(part2.take(part2.len() as int) =~= part2);

    let gone = gone_apps(claims, n, ranks);
    let ghost rk = gone@;
    let ghost part3 = gone_changes(rk);
    let mut k: usize = 0;
    assert(part1 + part2 + part3.take(0) =~= part1 + part2);
    while k < gone.len()
        invariant
            k <= gone@.len(),
            rk == gone@,
            part3 == gone_changes(rk),
            model::views(out@) == part1 + part2 + part3.take(k as int),
        decreases gone@.len() - k,
    {
        out.push(Change::RemoveApplication { device_uuid: gone[k].0, app_id: gone[k].1 });
        proof {
            model::lemma_add_take_push(part1 + part2, part3, k as int);
        }
        k += 1;
    }
    assert(part3.take(part3.len() as int) =~= part3);

    let contacts = new_contacts(claims, n, ranks);
    let ghost ck = contacts@;
    let ghost part4 = contact_changes(tgt, ranks@, ck);
    let mut m: usize = 0;
    assert(part1 + part2 + part3 + part4.take(0) =~= part1 + part2 + part3);
    while m < contacts.len()
        invariant
            m <= contacts@.len(),
            tgt == model::views(claims@),
            tgt.take(tgt.len() as int) == tgt,
            ck == contacts@,
            order::is_listing(ck, new_contact(cur, tgt, ranks@), order::uuid_key()),
            part4 == contact_changes(tgt, ranks@, ck),
            model::views(out@) == part1 + part2 + part3 + part4.take(m as int),
        decreases contacts@.len() - m,
    {
        proof {
            assert(ck.contains(ck[m as int]));
            model::lemma_add_take_push(part1 + part2 + part3, part4, m as int);
        }
        if let Some(c) = find_contact_change(claims, claims.len(), ranks, &contacts[m]) {
            out.push(c);
        }
        m += 1;
    }
    proof {
        assert(part4.take(part4.len() as int) =~= part4);
        order::lemma_uuid_key();
        order::lemma_two_key();
        order::lemma_listing_is(dk, new_device(cur, tgt), order::uuid_key());
        order::lemma_listing_is(ak, new_app(cur, tgt, ranks@), order::two_key());
        order::lemma_listing_is(rk, gone_app(cur, tgt, ranks@), order::two_key());
        order::lemma_listing_is(ck, new_contact(cur, tgt, ranks@), order::uuid_key());
    }
    out
}

/// Reads the entries of a log as claims, behind those that are there.
fn push_claims(out: &mut Vec<Claim>, log: &[WriteLogEntry])
    ensures
        model::views(final(out)@) == model::views(old(out)@) + claims_of(model::views(log@)),
{
    broadcast use model::group_views;

    let ghost c = claims_of(model::views(log@));
    let mut i: usize = 0;
    assert(model::views(out@) =~= model::views(old(out)@) + c.take(0));
    while i < log.len()
        invariant
            i <= log@.len(),
            c == claims_of(model::views(log@)),
            model::views(out@) == model::views(old(out)@) + c.take(i as int),
        decreases log@.len() - i,
    {
        out.push(
            Claim {
                version: log[i].version,
                says: deserialize_change(log[i].change_payload.as_slice()),
            },
        );
        proof {
            model::lemma_add_take_push(model::views(old(out)@), c, i as int);
        }
        i += 1;
    }
    assert(c.take(c.len() as int) =~= c);
}

/// Whether a log has an entry at the version `v`.
fn has_version(log: &[WriteLogEntry], v: &SyncVersion) -> (r: bool)
    ensures
        r == model::any_where(model::views(log@), at_version(*v)),
{
    broadcast use model::group_views;

    let ghost s = model::views(log@);
    let mut i: usize = 0;
    while i < log.len()
        invariant
            i <= log@.len(),
            s == model::views(log@),
            forall|j: int| 0 <= j < i ==> !at_version(*v)(#[trigger] s[j]),
        decreases log@.len() - i,
    {
        if log[i].version.same(v) {
            assert(at_version(*v)(s[i as int]));
            return true;
        }
        assert(!at_version(*v)(s[i as int]));
        i += 1;
    }
    false
}

/// What a merge found.
#[derive(Debug, PartialEq, Eq)]
pub struct MergeOutput {
    /// The peer's entries that the local log does not have.
    pub new_entries: Vec<WriteLogEntry>,
    /// The changes that bring the local state in line with the merged log;
    /// devices come before the applications on them.
    pub changes_to_apply: Vec<Change>,
}

/// Merges the log of a peer into the local one. `writer_ranks` gives the rank
/// of each known writer, a smaller one being stronger.
pub fn merge_logs(
    local_log: &[WriteLogEntry],
    peer_log: &[WriteLogEntry],
    writer_ranks: &Vec<(Uuid, u32)>,
) -> (r: MergeOutput)
    ensures
        model::views(r.new_entries@) == news(model::views(local_log@), model::views(peer_log@)),
        r.new_entries@.len() == 0 ==> r.changes_to_apply@.len() == 0,
        r.new_entries@.len() > 0 ==> model::views(r.changes_to_apply@) == difference(
            claims_of(model::views(local_log@)),
            claims_of(merged(model::views(local_log@), model::views(peer_log@))),
            writer_ranks@,
        ),
{
    broadcast use model::group_views;

    let ghost local = model::views(local_log@);
    let ghost peer = model::views(peer_log@);
    let mut new_entries: Vec<WriteLogEntry> = Vec::new();
    let mut i: usize = 0;
    assert(model::views(new_entries@) =~= news(local, peer.take(0)));
    while i < peer_log.len()
        invariant
            i <= peer_log@.len(),
            local == model::views(local_log@),
            peer == model::views(peer_log@),
            model::views(new_entries@) == news(local, peer.take(i as int)),
        decreases peer_log@.len() - i,
    {
        if !has_version(local_log, &peer_log[i].version) {
            new_entries.push(peer_log[i].clone());
        }
        proof {
            model::lemma_keep_step(peer, unknown_to(local), i as int);
        }
        i += 1;
    }
    assert(peer.take(peer.len() as int) =~= peer);
    if new_entries.len() == 0 {
        return MergeOutput { new_entries, changes_to_apply: Vec::new() };
    }
    let mut claims: Vec<Claim> = Vec::new();
    push_claims(&mut claims, local_log);
    let n: usize = claims.len();
    push_claims(&mut claims, new_entries.as_slice());
    proof {
        let all = merged(local, peer);
        assert(model::views(claims@) =~= claims_of(all));
        assert(model::views(claims@).take(n as int) =~= claims_of(local));
    }
    let changes_to_apply = diff_claims(&claims, n, writer_ranks);
    MergeOutput { new_entries, changes_to_apply }
}

/// Merging a log that holds nothing new changes nothing.
pub proof fn law_merge_known(local: Seq<WriteLogEntryView>, peer: Seq<WriteLogEntryView>)
    requires
        forall|i: int|
            0 <= i < peer.len() ==> model::any_where(
                local,
                at_version((#[trigger] peer[i]).version),
            ),
    ensures
        news(local, peer) == Seq::<WriteLogEntryView>::empty(),
        merged(local, peer) == local,
{
    let k = news(local, peer);
    if k.len() > 0 {
        model::lemma_keep_contains(peer, unknown_to(local), k[0]);
        assert(k.contains(k[0]));
        let i = choose|i: int| 0 <= i < peer.len() && peer[i] == k[0];
        assert(unknown_to(local)(peer[i]));
    }
    assert(k =~= Seq::empty());
    assert(merged(local, peer) =~= local);
}

/// An application that any entry removes is gone, whatever else the log says.
pub proof fn law_removal_wins(
    log: Seq<ClaimView>,
    ranks: Seq<(Uuid, u32)>,
    d: Uuid,
    id: Uuid,
    i: int,
)
    requires
        0 <= i < log.len(),
        removes_app(d, id)(log[i]),
    ensures
        app_in(log, ranks, d, id) is None,
{
    assert(model::any_where(log, removes_app(d, id)));
}

/// The same version always carries the same payload.
pub open spec fn agreeing(a: Seq<WriteLogEntryView>, b: Seq<WriteLogEntryView>) -> bool {
    forall|i: int, j: int|
        0 <= i < a.len() && 0 <= j < b.len() && (#[trigger] a[i]).version == (
        #[trigger] b[j]).version ==> a[i].change_payload == b[j].change_payload
}

/// Every claim of `a` is made by `b` too.
pub open spec fn claims_within(a: Seq<ClaimView>, b: Seq<ClaimView>) -> bool {
    forall|i: int| 0 <= i < a.len() ==> b.contains(#[trigger] a[i])
}

proof fn lemma_merged_within(a: Seq<WriteLogEntryView>, b: Seq<WriteLogEntryView>)
    requires
        agreeing(a, b),
    ensures
        claims_within(claims_of(merged(a, b)), claims_of(merged(b, a))),
{
    let m = merged(a, b);
    let w = merged(b, a);
    let cm = claims_of(m);
    let cw = claims_of(w);
    assert forall|i: int| 0 <= i < cm.len() implies cw.contains(#[trigger] cm[i]) by {
        let e = m[i];
        if i < a.len() {
            assert(e == a[i]);
            if model::any_where(b, at_version(e.version)) {
                let j = choose|j: int| 0 <= j < b.len() && at_version(e.version)(#[trigger] b[j]);
                assert(a[i].version == b[j].version);
                assert(w[j] == b[j]);
                assert(cw[j] == cm[i]);
            } else {
                model::lemma_keep_contains(a, unknown_to(b), e);
                assert(a.contains(e));
                let k = choose|k: int| 0 <= k < news(b, a).len() && news(b, a)[k] == e;
                assert(w[b.len() + k] == e);
                assert(cw[b.len() + k] == cm[i]);
            }
        } else {
            let nw = news(a, b);
            assert(e == nw[i - a.len()]);
            assert(nw.contains(e));
            model::lemma_keep_contains(b, unknown_to(a), e);
            let j = choose|j: int| 0 <= j < b.len() && b[j] == e;
            assert(w[j] == e);
            assert(cw[j] == cm[i]);
        }
    }
}

/// Claims at the same version say the same.
pub open spec fn coherent(a: Seq<ClaimView>) -> bool {
    forall|i: int, j: int|
        0 <= i < a.len() && 0 <= j < a.len() && (#[trigger] a[i]).version == (
        #[trigger] a[j]).version ==> a[i].says == a[j].says
}

proof fn lemma_merged_coherent(a: Seq<WriteLogEntryView>, b: Seq<WriteLogEntryView>)
    requires
        agreeing(a, a),
        agreeing(b, b),
        agreeing(a, b),
    ensures
        coherent(claims_of(merged(a, b))),
{
    let m = merged(a, b);
    let nw = news(a, b);
    let c = claims_of(m);
    assert forall|i: int, j: int|
        0 <= i < c.len() && 0 <= j < c.len() && (#[trigger] c[i]).version == (
        #[trigger] c[j]).version implies c[i].says == c[j].says by {
        if i >= a.len() {
            assert(nw.contains(nw[i - a.len()]));
            model::lemma_keep_contains(b, unknown_to(a), nw[i - a.len()]);
        }
        if j >= a.len() {
            assert(nw.contains(nw[j - a.len()]));
            model::lemma_keep_contains(b, unknown_to(a), nw[j - a.len()]);
        }
        if i < a.len() && j < a.len() {
            assert(a[i].version == a[j].version);
        } else if i < a.len() {
            let l = choose|l: int| 0 <= l < b.len() && b[l] == nw[j - a.len()];
            assert(a[i].version == b[l].version);
        } else if j < a.len() {
            let l = choose|l: int| 0 <= l < b.len() && b[l] == nw[i - a.len()];
            assert(a[j].version == b[l].version);
        } else {
            let l = choose|l: int| 0 <= l < b.len() && b[l] == nw[i - a.len()];
            let k = choose|k: int| 0 <= k < b.len() && b[k] == nw[j - a.len()];
            assert(b[l].version == b[k].version);
        }
    }
}

proof fn lemma_same_any(a: Seq<ClaimView>, b: Seq<ClaimView>, p: spec_fn(ClaimView) -> bool)
    requires
        claims_within(a, b),
    ensures
        model::any_where(a, p) ==> model::any_where(b, p),
{
    if model::any_where(a, p) {
        let i = choose|i: int| 0 <= i < a.len() && p(#[trigger] a[i]);
        assert(b.contains(a[i]));
        let j = choose|j: int| 0 <= j < b.len() && b[j] == a[i];
        assert(p(b[j]));
    }
}

proof fn lemma_same_strongest(
    a: Seq<ClaimView>,
    b: Seq<ClaimView>,
    p: spec_fn(ClaimView) -> bool,
    ranks: Seq<(Uuid, u32)>,
)
    requires
        claims_within(a, b),
        claims_within(b, a),
        coherent(a),
        model::any_where(a, p),
    ensures
        a[strongest(a, p, ranks)] == b[strongest(b, p, ranks)],
{
    lemma_same_any(a, b, p);
    lemma_strongest_exists(a, p, ranks);
    lemma_strongest_exists(b, p, ranks);
    let i = strongest(a, p, ranks);
    let j = strongest(b, p, ranks);
    assert(b.contains(a[i]));
    let k = choose|k: int| 0 <= k < b.len() && b[k] == a[i];
    assert(a.contains(b[j]));
    let l = choose|l: int| 0 <= l < a.len() && a[l] == b[j];
    assert(p(b[k]) && p(a[l]));
    lemma_weaker(a[i].version, b[j].version, ranks);
    assert(a[i].version == a[l].version);
}

proof fn lemma_same_earliest(a: Seq<ClaimView>, b: Seq<ClaimView>, p: spec_fn(ClaimView) -> bool)
    requires
        claims_within(a, b),
        claims_within(b, a),
        coherent(a),
        model::any_where(a, p),
    ensures
        a[earliest(a, p)] == b[earliest(b, p)],
{
    lemma_same_any(a, b, p);
    lemma_earliest_exists(a, p);
    lemma_earliest_exists(b, p);
    let i = earliest(a, p);
    let j = earliest(b, p);
    assert(b.contains(a[i]));
    let k = choose|k: int| 0 <= k < b.len() && b[k] == a[i];
    assert(a.contains(b[j]));
    let l = choose|l: int| 0 <= l < a.len() && a[l] == b[j];
    assert(p(b[k]) && p(a[l]));
    lemma_earlier(a[i].version, b[j].version);
    assert(a[i].version == a[l].version);
}

/// Both sides of a partition arrive at the same state, whichever merges the
/// other's log: the same applications under the same names, the same devices
/// and the same contacts.
pub proof fn law_merge_converges(
    a: Seq<WriteLogEntryView>,
    b: Seq<WriteLogEntryView>,
    ranks: Seq<(Uuid, u32)>,
    d: Uuid,
    id: Uuid,
    u: Uuid,
)
    requires
        agreeing(a, a),
        agreeing(b, b),
        agreeing(a, b),
    ensures
        app_in(claims_of(merged(a, b)), ranks, d, id) == app_in(
            claims_of(merged(b, a)),
            ranks,
            d,
            id,
        ),
        device_in(claims_of(merged(a, b)), u) == device_in(claims_of(merged(b, a)), u),
        contact_in(claims_of(merged(a, b)), ranks, u) == contact_in(
            claims_of(merged(b, a)),
            ranks,
            u,
        ),
{
    let x = claims_of(merged(a, b));
    let y = claims_of(merged(b, a));
    assert(agreeing(b, a)) by {
        assert forall|i: int, j: int|
            0 <= i < b.len() && 0 <= j < a.len() && (#[trigger] b[i]).version == (
            #[trigger] a[j]).version implies b[i].change_payload == a[j].change_payload by {}
    }
    lemma_merged_within(a, b);
    lemma_merged_within(b, a);
    lemma_merged_coherent(a, b);
    lemma_same_any(x, y, removes_app(d, id));
    lemma_same_any(y, x, removes_app(d, id));
    lemma_same_any(x, y, adds_app(d, id));
    lemma_same_any(y, x, adds_app(d, id));
    lemma_same_any(x, y, renames_app(d, id));
    lemma_same_any(y, x, renames_app(d, id));
    lemma_same_any(x, y, adds_device(u));
    lemma_same_any(y, x, adds_device(u));
    lemma_same_any(x, y, sets_contact(u));
    lemma_same_any(y, x, sets_contact(u));
    if model::any_where(x, adds_app(d, id)) {
        lemma_same_strongest(x, y, adds_app(d, id), ranks);
    }
    if model::any_where(x, renames_app(d, id)) {
        lemma_same_strongest(x, y, renames_app(d, id), ranks);
    }
    if model::any_where(x, adds_device(u)) {
        lemma_same_earliest(x, y, adds_device(u));
    }
    if model::any_where(x, sets_contact(u)) {
        lemma_same_strongest(x, y, sets_contact(u), ranks);
    }
}

/// A name that was given on purpose beats the one an application came with, and
/// of such names the one of the best ranked writer stands.
pub proof fn law_rename_beats_add(
    log: Seq<ClaimView>,
    ranks: Seq<(Uuid, u32)>,
    d: Uuid,
    id: Uuid,
    k: int,
)
    requires
        0 <= k < log.len(),
        renames_app(d, id)(log[k]),
        app_in(log, ranks, d, id) is Some,
    ensures
        exists|i: int|
            0 <= i < log.len() && renames_app(d, id)(#[trigger] log[i]) && app_in(log, ranks, d, id)
                == Some(alias_said(log[i])) && rank_of(ranks, log[i].version.writer_sg_uuid)
                <= rank_of(ranks, log[k].version.writer_sg_uuid),
{
    let p = renames_app(d, id);
    assert(model::any_where(log, p));
    lemma_strongest_exists(log, p, ranks);
    let i = strongest(log, p, ranks);
    assert(p(log[i]));
    assert(p(log[k]));
}

} // verus!
