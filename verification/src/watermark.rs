//! Watermarks: how far two servers of a user agree on each writer's history.
use crate::lists;
use crate::model;
use crate::types::{
    uuid_eq, Node, PeerWatermarks, PeerWatermarksView, Scope, SyncVersion, Uuid, WriteLogEntryView,
};
use crate::wire;
use crate::wire::{
    push_u16, push_u32, push_u64, push_uuid, read_scope, read_sync_version, read_u16, write_scope,
};
use vstd::prelude::*;

verus! {

/// `a` is later in a writer's history than `b`.
pub open spec fn later(a: SyncVersion, b: SyncVersion) -> bool {
    a.epoch > b.epoch || (a.epoch == b.epoch && a.seq > b.seq)
}

/// Whether `a` is later in a writer's history than `b`.
pub fn is_later(a: &SyncVersion, b: &SyncVersion) -> (r: bool)
    ensures
        r == later(*a, *b),
{
    a.epoch > b.epoch || (a.epoch == b.epoch && a.seq > b.seq)
}

pub open spec fn mark_is(w: Uuid) -> spec_fn((Uuid, SyncVersion)) -> bool {
    |m: (Uuid, SyncVersion)| m.0 == w
}

/// The marks after one more entry was seen: the latest version of each writer.
pub open spec fn marked(
    marks: Seq<(Uuid, SyncVersion)>,
    e: WriteLogEntryView,
    scope: Scope,
) -> Seq<(Uuid, SyncVersion)> {
    let w = e.version.writer_sg_uuid;
    if e.scope != scope {
        marks
    } else {
        match model::first_where(marks, mark_is(w)) {
            Some(i) => if later(e.version, marks[i].1) {
                marks.update(i, (marks[i].0, e.version))
            } else {
                marks
            },
            None => marks.push((w, e.version)),
        }
    }
}

/// The latest version of each writer in a log, for one scope.
pub open spec fn marks_of(log: Seq<WriteLogEntryView>, scope: Scope) -> Seq<(Uuid, SyncVersion)>
    decreases log.len(),
{
    if log.len() == 0 {
        Seq::empty()
    } else {
        marked(marks_of(log.drop_last(), scope), log.last(), scope)
    }
}

/// The mark of a writer.
pub fn find_mark(marks: &Vec<(Uuid, SyncVersion)>, w: &Uuid) -> (r: Option<usize>)
    ensures
        match model::first_where(marks@, mark_is(*w)) {
            Some(i) => r == Some(i as usize) && 0 <= i < marks@.len() && i == r->0 && marks@[i].0
                == *w,
            None => r is None,
        },
{
    let mut i: usize = 0;
    while i < marks.len()
        invariant
            i <= marks@.len(),
            forall|j: int| 0 <= j < i ==> !mark_is(*w)(#[trigger] marks@[j]),
        decreases marks@.len() - i,
    {
        if uuid_eq(&marks[i].0, w) {
            proof {
                assert(mark_is(*w)(marks@[i as int]));
                model::lemma_first_at(marks@, mark_is(*w), i as int);
            }
            return Some(i);
        }
        i += 1;
    }
    proof {
        model::lemma_first_none(marks@, mark_is(*w));
    }
    None
}

/// The latest version of each writer in the node's log, for one scope.
pub fn build_local_watermark_map(node: &Node, scope: Scope) -> (r: Vec<(Uuid, SyncVersion)>)
    ensures
        r@ == marks_of(node@.owner.write_log, scope),
{
    broadcast use model::group_views;

    let log = &node.owner.write_log;
    let ghost s = node@.owner.write_log;
    let mut marks: Vec<(Uuid, SyncVersion)> = Vec::new();
    let mut i: usize = 0;
    assert(s.take(0) =~= Seq::empty());
    while i < log.len()
        invariant
            i <= log@.len(),
            s == model::views(log@),
            marks@ == marks_of(s.take(i as int), scope),
        decreases log@.len() - i,
    {
        proof {
            assert(s.take(i + 1).drop_last() =~= s.take(i as int));
            assert(s.take(i + 1).last() == s[i as int]);
        }
        let e = &log[i];
        if e.scope == scope {
            let w = e.version.writer_sg_uuid;
            match find_mark(&marks, &w) {
                Some(k) => {
                    if is_later(&e.version, &marks[k].1) {
                        marks.set(k, (w, e.version));
                    }
                },
                None => marks.push((w, e.version)),
            }
        }
        i += 1;
    }
    assert(s.take(s.len() as int) =~= s);
    marks
}

/// An entry of a writer, in a scope.
pub open spec fn written_by(w: Uuid, scope: Scope) -> spec_fn(WriteLogEntryView) -> bool {
    |e: WriteLogEntryView| e.scope == scope && e.version.writer_sg_uuid == w
}

/// Every writer with an entry in the log has one mark, and its mark is the
/// latest of its entries.
pub proof fn law_marks_are_latest(log: Seq<WriteLogEntryView>, scope: Scope, w: Uuid)
    ensures
        match model::first_where(marks_of(log, scope), mark_is(w)) {
            Some(i) => {
                let v = marks_of(log, scope)[i].1;
                &&& forall|j: int|
                    0 <= j < log.len() && written_by(w, scope)(#[trigger] log[j]) ==> !later(
                        log[j].version,
                        v,
                    )
                &&& exists|j: int|
                    0 <= j < log.len() && written_by(w, scope)(#[trigger] log[j]) && log[j].version
                        == v
                &&& forall|k: int|
                    0 <= k < marks_of(log, scope).len() && (#[trigger] marks_of(log, scope)[k]).0
                        == w ==> k == i
            },
            None => !model::any_where(log, written_by(w, scope)),
        },
    decreases log.len(),
{
    let m = marks_of(log, scope);
    model::lemma_first_where(m, mark_is(w));
    if log.len() > 0 {
        let t = log.drop_last();
        let b = marks_of(t, scope);
        let e = log.last();
        let n = log.len() - 1;
        law_marks_are_latest(t, scope, w);
        model::lemma_first_where(b, mark_is(w));
        model::lemma_first_where(b, mark_is(e.version.writer_sg_uuid));
        assert forall|j: int| 0 <= j < n implies #[trigger] log[j] == t[j] by {}
        if written_by(w, scope)(e) {
            assert(log[n] == e);
            match model::first_where(b, mark_is(w)) {
                Some(i) => {
                    assert(m.len() == b.len());
                    assert forall|k: int| 0 <= k < i implies !mark_is(w)(#[trigger] m[k]) by {
                        assert(!mark_is(w)(b[k]));
                    }
                    assert(model::is_first(m, mark_is(w), i));
                    model::lemma_first_at(m, mark_is(w), i);
                    let v = m[i].1;
                    if !later(e.version, b[i].1) {
                        let j = choose|j: int|
                            0 <= j < t.len() && written_by(w, scope)(#[trigger] t[j])
                                && t[j].version == b[i].1;
                        assert(written_by(w, scope)(log[j]) && log[j].version == v);
                    } else {
                        assert(written_by(w, scope)(log[n]) && log[n].version == v);
                    }
                    assert forall|k: int| 0 <= k < m.len() && (#[trigger] m[k]).0 == w implies k
                        == i by {
                        assert(b[k].0 == w);
                    }
                },
                None => {
                    let i = b.len() as int;
                    assert forall|k: int| 0 <= k < i implies !mark_is(w)(#[trigger] m[k]) by {
                        assert(!mark_is(w)(b[k]));
                    }
                    assert(model::is_first(m, mark_is(w), i));
                    model::lemma_first_at(m, mark_is(w), i);
                    assert(written_by(w, scope)(log[n]) && log[n].version == m[i].1);
                    assert forall|j: int|
                        0 <= j < log.len() && written_by(w, scope)(
                            #[trigger] log[j],
                        ) implies !later(log[j].version, m[i].1) by {
                        if j < n {
                            assert(written_by(w, scope)(t[j]));
                        }
                    }
                    assert forall|k: int| 0 <= k < m.len() && (#[trigger] m[k]).0 == w implies k
                        == i by {
                        if k < i {
                            assert(!mark_is(w)(b[k]));
                        }
                    }
                },
            }
        } else {
            match model::first_where(b, mark_is(w)) {
                Some(i) => {
                    assert forall|k: int| 0 <= k < i implies !mark_is(w)(#[trigger] m[k]) by {
                        assert(!mark_is(w)(b[k]));
                    }
                    assert(m[i] == b[i]);
                    assert(model::is_first(m, mark_is(w), i));
                    model::lemma_first_at(m, mark_is(w), i);
                    let j = choose|j: int|
                        0 <= j < t.len() && written_by(w, scope)(#[trigger] t[j]) && t[j].version
                            == b[i].1;
                    assert(written_by(w, scope)(log[j]) && log[j].version == m[i].1);
                    assert forall|k: int| 0 <= k < m.len() && (#[trigger] m[k]).0 == w implies k
                        == i by {
                        if k < b.len() {
                            assert(b[k].0 == w);
                        }
                    }
                },
                None => {
                    assert forall|k: int| 0 <= k < m.len() implies !mark_is(w)(#[trigger] m[k]) by {
                        if k < b.len() {
                            assert(!mark_is(w)(b[k]));
                        }
                    }
                    model::lemma_first_none(m, mark_is(w));
                    assert forall|j: int| 0 <= j < log.len() implies !written_by(w, scope)(
                        #[trigger] log[j],
                    ) by {
                        if j < n {
                            assert(!written_by(w, scope)(t[j]));
                        }
                    }
                },
            }
        }
    }
}

pub open spec fn enc_mark(m: (Uuid, SyncVersion)) -> Seq<u8> {
    m.0@ + wire::enc_u32(m.1.epoch) + wire::enc_u64(m.1.seq)
}

pub open spec fn mark_enc() -> spec_fn((Uuid, SyncVersion)) -> Seq<u8> {
    |m: (Uuid, SyncVersion)| enc_mark(m)
}

pub open spec fn parse_mark(d: Seq<u8>, p: int) -> Option<((Uuid, SyncVersion), int)> {
    match wire::parse_version(d, p) {
        Some((v, q)) => Some(((v.writer_sg_uuid, v), q)),
        None => None,
    }
}

pub open spec fn mark_parser() -> spec_fn(Seq<u8>, int) -> Option<((Uuid, SyncVersion), int)> {
    |d: Seq<u8>, p: int| parse_mark(d, p)
}

/// The layout of marks: the scope, a count, and the first 65535 marks.
pub open spec fn enc_marks(scope: Scope, map: Seq<(Uuid, SyncVersion)>) -> Seq<u8> {
    let n = wire::least(map.len() as int, 65535);
    seq![wire::scope_byte(scope)] + wire::enc_u16(n as u16) + lists::enc_all(map.take(n), mark_enc())
}

pub open spec fn parse_marks(d: Seq<u8>) -> Option<(Scope, Seq<(Uuid, SyncVersion)>)> {
    match wire::parse_scope(d, 0) {
        Some((scope, p)) => match wire::parse_u16(d, p) {
            Some((n, q)) => match lists::parse_many(d, q, n as nat, mark_parser()) {
                Some((map, _)) => Some((scope, map)),
                None => None,
            },
            None => None,
        },
        None => None,
    }
}

/// Encodes marks.
pub fn serialize_watermark_map(scope: Scope, map: &[(Uuid, SyncVersion)]) -> (r: Vec<u8>)
    ensures
        r@ == enc_marks(scope, map@),
{
    let mut n: usize = map.len();
    if n > 65535 {
        n = 65535;
    }
    let mut buf: Vec<u8> = Vec::new();
    write_scope(&mut buf, scope);
    push_u16(&mut buf, n as u16);
    let ghost start = buf@;
    let ghost h = map@.take(n as int);
    let mut i: usize = 0;
    assert(buf@ =~= start + lists::enc_all(h.take(0), mark_enc()));
    while i < n
        invariant
            i <= n <= map@.len(),
            h == map@.take(n as int),
            buf@ == start + lists::enc_all(h.take(i as int), mark_enc()),
        decreases n - i,
    {
        push_uuid(&mut buf, &map[i].0);
        push_u32(&mut buf, map[i].1.epoch);
        push_u64(&mut buf, map[i].1.seq);
        proof {
            lists::lemma_enc_step(h, mark_enc(), i as int);
        }
        i += 1;
        assert(buf@ =~= start + lists::enc_all(h.take(i as int), mark_enc()));
    }
    assert(h.take(n as int) =~= h);
    assert(buf@ =~= enc_marks(scope, map@));
    buf
}

/// Decodes marks; `None` if they are truncated.
pub fn parse_watermark_map(data: &[u8]) -> (r: Option<(Scope, Vec<(Uuid, SyncVersion)>)>)
    ensures
        match parse_marks(data@) {
            Some((s, m)) => r matches Some((rs, rm)) && rs == s && rm@ == m,
            None => r is None,
        },
{
    let mut pos: usize = 0;
    let scope = match read_scope(data, &mut pos) {
        Some(s) => s,
        None => { return None; },
    };
    let n: u16 = match read_u16(data, &mut pos) {
        Some(x) => x,
        None => { return None; },
    };
    let ghost p = pos as int;
    let mut out: Vec<(Uuid, SyncVersion)> = Vec::new();
    let mut i: u16 = 0;
    while i < n
        invariant
            i <= n,
            pos <= data@.len(),
            lists::parse_many(data@, p, i as nat, mark_parser()) == Some((out@, pos as int)),
            parse_marks(data@) is Some ==> lists::parse_many(data@, p, n as nat, mark_parser())
                is Some,
        decreases n - i,
    {
        match read_sync_version(data, &mut pos) {
            Some(v) => {
                out.push((v.writer_sg_uuid, v));
                i += 1;
            },
            None => {
                proof {
                    lists::lemma_parse_stuck(data@, p, (i + 1) as nat, n as nat, mark_parser());
                }
                return None;
            },
        }
    }
    Some((scope, out))
}

/// Marks are read as they were written.
pub proof fn law_watermark_roundtrip(scope: Scope, map: Seq<(Uuid, SyncVersion)>)
    requires
        map.len() <= 65535,
        forall|i: int| 0 <= i < map.len() ==> (#[trigger] map[i]).0 == map[i].1.writer_sg_uuid,
    ensures
        parse_marks(enc_marks(scope, map)) == Some((scope, map)),
{
    let d = enc_marks(scope, map);
    let n = map.len() as int;
    assert(map.take(n) =~= map);
    let s = seq![wire::scope_byte(scope)];
    let c = wire::enc_u16(n as u16);
    let e = lists::enc_all(map, mark_enc());
    wire::lemma_stands_whole(d);
    wire::lemma_stands_split(d, 0, s + c, e);
    wire::lemma_stands_split(d, 0, s, c);
    wire::lemma_scope(d, 0, scope);
    wire::lemma_u16(d, 1, n as u16);
    assert forall|i: int| 0 <= i < map.len() implies lists::reads_back(
        d,
        #[trigger] map[i],
        mark_enc()(map[i]),
        mark_parser(),
    ) by {
        assert forall|q: int| #[trigger] wire::stands_at(d, q, mark_enc()(map[i])) implies mark_parser()(
            d,
            q,
        ) == Some((map[i], q + mark_enc()(map[i]).len())) by {
            wire::lemma_version(d, q, map[i].1);
        }
    }
    lists::lemma_many(d, 3, map, mark_enc(), mark_parser());
}

/// The beginning of a writer's history.
pub open spec fn origin(w: Uuid) -> SyncVersion {
    SyncVersion { writer_sg_uuid: w, epoch: 0, seq: 0 }
}

/// How far both sides have a writer's history: the earlier of the two marks,
/// or the beginning if one side has none.
pub open spec fn agreed_on(m: (Uuid, SyncVersion), peer: Seq<(Uuid, SyncVersion)>) -> SyncVersion {
    match model::first_where(peer, mark_is(m.0)) {
        Some(j) => if later(m.1, peer[j].1) {
            peer[j].1
        } else {
            m.1
        },
        None => origin(m.0),
    }
}

pub open spec fn version_by(w: Uuid) -> spec_fn(SyncVersion) -> bool {
    |v: SyncVersion| v.writer_sg_uuid == w
}

/// The beginnings of the writers that only the peer has, each once.
pub open spec fn peer_only(
    own: Seq<(Uuid, SyncVersion)>,
    peer: Seq<(Uuid, SyncVersion)>,
) -> Seq<SyncVersion>
    decreases peer.len(),
{
    if peer.len() == 0 {
        Seq::empty()
    } else {
        let before = peer_only(own, peer.drop_last());
        let w = peer.last().0;
        if model::any_where(own, mark_is(w)) || model::any_where(before, version_by(w)) {
            before
        } else {
            before.push(origin(w))
        }
    }
}

/// How far both sides have each writer's history.
pub open spec fn agreed(
    own: Seq<(Uuid, SyncVersion)>,
    peer: Seq<(Uuid, SyncVersion)>,
) -> Seq<SyncVersion> {
    Seq::new(own.len(), |i: int| agreed_on(own[i], peer)) + peer_only(own, peer)
}

/// Whether a writer has a version in the list.
fn has_version_by(v: &Vec<SyncVersion>, from: usize, w: &Uuid) -> (r: bool)
    requires
        from <= v@.len(),
    ensures
        r == model::any_where(v@.skip(from as int), version_by(*w)),
{
    let ghost s = v@.skip(from as int);
    let mut i: usize = from;
    while i < v.len()
        invariant
            from <= i <= v@.len(),
            s == v@.skip(from as int),
            forall|j: int| 0 <= j < i - from ==> !version_by(*w)(#[trigger] s[j]),
        decreases v@.len() - i,
    {
        if uuid_eq(&v[i].writer_sg_uuid, w) {
            assert(version_by(*w)(s[i - from]));
            return true;
        }
        assert(!version_by(*w)(s[i - from]));
        i += 1;
    }
    false
}

/// How far both sides have each writer's history.
pub fn agreed_marks(own: &Vec<(Uuid, SyncVersion)>, peer: &Vec<(Uuid, SyncVersion)>) -> (r: Vec<
    SyncVersion,
>)
    ensures
        r@ == agreed(own@, peer@),
{
    let ghost first = Seq::new(own@.len(), |i: int| agreed_on(own@[i], peer@));
    let mut out: Vec<SyncVersion> = Vec::new();
    let mut i: usize = 0;
    while i < own.len()
        invariant
            i <= own@.len(),
            first == Seq::new(own@.len(), |i: int| agreed_on(own@[i], peer@)),
            out@ == first.take(i as int),
        decreases own@.len() - i,
    {
        let v = match find_mark(peer, &own[i].0) {
            Some(j) => {
                if is_later(&own[i].1, &peer[j].1) {
                    peer[j].1
                } else {
                    own[i].1
                }
            },
            None => SyncVersion { writer_sg_uuid: own[i].0, epoch: 0, seq: 0 },
        };
        out.push(v);
        proof {
            model::lemma_take_push(first, i as int);
        }
        i += 1;
    }
    assert(out@ =~= first);
    let n: usize = out.len();
    let mut j: usize = 0;
    assert(peer@.take(0) =~= Seq::empty());
    assert(out@ =~= first + peer_only(own@, peer@.take(0)));
    while j < peer.len()
        invariant
            j <= peer@.len(),
            n == first.len(),
            n <= out@.len(),
            out@ == first + peer_only(own@, peer@.take(j as int)),
        decreases peer@.len() - j,
    {
        let ghost before = peer_only(own@, peer@.take(j as int));
        let w = peer[j].0;
        proof {
            assert(peer@.take(j + 1).drop_last() =~= peer@.take(j as int));
            assert(peer@.take(j + 1).last() == peer@[j as int]);
            assert(out@.skip(n as int) =~= before);
            model::lemma_first_where(own@, mark_is(w));
        }
        if find_mark(own, &w).is_none() && !has_version_by(&out, n, &w) {
            proof {
                model::lemma_add_push(first, before, origin(w));
            }
            out.push(SyncVersion { writer_sg_uuid: w, epoch: 0, seq: 0 });
        }
        j += 1;
    }
    assert(peer@.take(peer@.len() as int) =~= peer@);
    out
}

pub open spec fn marks_for(peer: Uuid) -> spec_fn(PeerWatermarksView) -> bool {
    |m: PeerWatermarksView| m.peer == peer
}

/// The marks agreed with each peer, after those with one peer were set.
pub open spec fn with_marks(
    list: Seq<PeerWatermarksView>,
    peer: Uuid,
    marks: Seq<SyncVersion>,
) -> Seq<PeerWatermarksView> {
    match model::first_where(list, marks_for(peer)) {
        Some(i) => list.update(i, PeerWatermarksView { peer, marks }),
        None => list.push(PeerWatermarksView { peer, marks }),
    }
}

/// The position of the marks agreed with a peer.
pub fn find_peer_marks(list: &Vec<PeerWatermarks>, peer: &Uuid) -> (r: Option<usize>)
    ensures
        match model::first_where(model::views(list@), marks_for(*peer)) {
            Some(i) => r == Some(i as usize) && 0 <= i < list@.len() && i == r->0,
            None => r is None,
        },
{
    broadcast use model::group_views;

    let ghost s = model::views(list@);
    let mut i: usize = 0;
    while i < list.len()
        invariant
            i <= list@.len(),
            s == model::views(list@),
            forall|j: int| 0 <= j < i ==> !marks_for(*peer)(#[trigger] s[j]),
        decreases list@.len() - i,
    {
        if uuid_eq(&list[i].peer, peer) {
            proof {
                assert(marks_for(*peer)(s[i as int]));
                model::lemma_first_at(s, marks_for(*peer), i as int);
            }
            return Some(i);
        }
        i += 1;
    }
    proof {
        model::lemma_first_none(s, marks_for(*peer));
    }
    None
}

/// Sets the marks agreed with a peer.
pub fn set_peer_marks(list: &mut Vec<PeerWatermarks>, peer: Uuid, marks: Vec<SyncVersion>)
    ensures
        model::views(final(list)@) == with_marks(model::views(old(list)@), peer, marks@),
{
    broadcast use model::group_views;

    match find_peer_marks(list, &peer) {
        Some(i) => {
            list.set(i, PeerWatermarks { peer, marks });
        },
        None => {
            list.push(PeerWatermarks { peer, marks });
        },
    }
}

/// How far a peer has a writer's history, as far as is known.
pub open spec fn mark_with(list: Seq<PeerWatermarksView>, peer: Uuid, w: Uuid) -> Option<
    SyncVersion,
> {
    match model::first_where(list, marks_for(peer)) {
        Some(i) => match model::first_where(list[i].marks, version_by(w)) {
            Some(j) => Some(list[i].marks[j]),
            None => None,
        },
        None => None,
    }
}

/// How far a peer has a writer's history, as far as is known.
pub fn find_mark_with(list: &Vec<PeerWatermarks>, peer: &Uuid, w: &Uuid) -> (r: Option<SyncVersion>)
    ensures
        r == mark_with(model::views(list@), *peer, *w),
{
    broadcast use model::group_views;

    let i = match find_peer_marks(list, peer) {
        Some(i) => i,
        None => { return None; },
    };
    let marks = &list[i].marks;
    let mut j: usize = 0;
    while j < marks.len()
        invariant
            j <= marks@.len(),
            model::first_where(model::views(list@), marks_for(*peer)) == Some(i as int),
            marks@ == model::views(list@)[i as int].marks,
            forall|k: int| 0 <= k < j ==> !version_by(*w)(#[trigger] marks@[k]),
        decreases marks@.len() - j,
    {
        if uuid_eq(&marks[j].writer_sg_uuid, w) {
            proof {
                assert(version_by(*w)(marks@[j as int]));
                model::lemma_first_at(marks@, version_by(*w), j as int);
            }
            return Some(marks[j]);
        }
        j += 1;
    }
    proof {
        model::lemma_first_none(marks@, version_by(*w));
    }
    None
}

/// Every mark stands under the writer of its version.
pub open spec fn keyed(marks: Seq<(Uuid, SyncVersion)>) -> bool {
    forall|k: int| 0 <= k < marks.len() ==> (#[trigger] marks[k]).0 == marks[k].1.writer_sg_uuid
}

/// The marks of a log stand under the writers of their versions.
pub proof fn lemma_marks_keyed(log: Seq<WriteLogEntryView>, scope: Scope)
    ensures
        keyed(marks_of(log, scope)),
    decreases log.len(),
{
    if log.len() > 0 {
        let b = marks_of(log.drop_last(), scope);
        let w = log.last().version.writer_sg_uuid;
        lemma_marks_keyed(log.drop_last(), scope);
        model::lemma_first_where(b, mark_is(w));
        assert forall|k: int| 0 <= k < marks_of(log, scope).len() implies (#[trigger] marks_of(
            log,
            scope,
        )[k]).0 == marks_of(log, scope)[k].1.writer_sg_uuid by {
            if k < b.len() {
                assert(b[k].0 == b[k].1.writer_sg_uuid);
            }
        }
    }
}

proof fn lemma_peer_only(own: Seq<(Uuid, SyncVersion)>, peer: Seq<(Uuid, SyncVersion)>, i: int)
    requires
        0 <= i < peer_only(own, peer).len(),
    ensures
        peer_only(own, peer)[i] == origin(peer_only(own, peer)[i].writer_sg_uuid),
    decreases peer.len(),
{
    let before = peer_only(own, peer.drop_last());
    if i < before.len() {
        lemma_peer_only(own, peer.drop_last(), i);
    }
}

/// What is agreed on a writer's history is never later than the peer's own
/// mark, and is the beginning where the peer has none.
pub proof fn law_agreed_within_peer(
    own: Seq<(Uuid, SyncVersion)>,
    peer: Seq<(Uuid, SyncVersion)>,
    w: Uuid,
)
    requires
        keyed(own),
        keyed(peer),
    ensures
        match model::first_where(agreed(own, peer), version_by(w)) {
            Some(i) => {
                let v = agreed(own, peer)[i];
                v == origin(w) || match model::first_where(peer, mark_is(w)) {
                    Some(j) => !later(v, peer[j].1),
                    None => false,
                }
            },
            None => true,
        },
{
    let all = agreed(own, peer);
    model::lemma_first_where(all, version_by(w));
    match model::first_where(all, version_by(w)) {
        Some(i) => {
            assert(version_by(w)(all[i]));
            if i < own.len() {
                assert(all[i] == agreed_on(own[i], peer));
                model::lemma_first_where(peer, mark_is(own[i].0));
                assert(own[i].0 == own[i].1.writer_sg_uuid);
                match model::first_where(peer, mark_is(own[i].0)) {
                    Some(j) => {
                        assert(mark_is(own[i].0)(peer[j]));
                        assert(peer[j].0 == peer[j].1.writer_sg_uuid);
                    },
                    None => {},
                }
            } else {
                assert(all[i] == peer_only(own, peer)[i - own.len()]);
                lemma_peer_only(own, peer, i - own.len());
            }
        },
        None => {},
    }
}

} // verus!
