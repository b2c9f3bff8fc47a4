//! The page that shows how far this node and its peers agree.
use crate::find;
use crate::find::{find_contact_of_device, find_device};
use crate::forms;
use crate::layout;
use crate::layout::{layout, put_escaped, put_hex};
use crate::markup;
use crate::model;
use crate::order;
use crate::order::{sort_texts, sort_uuids};
use crate::sessions;
use crate::text;
use crate::text::{blank, is_empty, owned, put, put_dec, text_eq};
use crate::types::{
    uuid_eq, Device, DeviceGrade, DeviceView, Node, NodeView, PeerWatermarks, PeerWatermarksView,
    ReceivedProposal, ReceivedProposalView, SgHostStatus, SyncVersion, Uuid,
};
use crate::watermark;
use crate::watermark::find_peer_marks;
use vstd::prelude::*;

verus! {

/// What this node holds itself. `retention` is how long the log goes back, in
/// seconds.
pub open spec fn local_section(n: NodeView, retention: u64) -> Seq<char> {
    let v = n.owner.public_version;
    markup::LOCAL_UUID@ + forms::hex_of(n.device_uuid@) + markup::LOCAL_WRITER@ + forms::hex_of(
        v.writer_sg_uuid@,
    ) + markup::LOCAL_EPOCH@ + text::dec(v.epoch as nat) + markup::LOCAL_SEQ@ + text::dec(
        v.seq as nat,
    ) + markup::LOCAL_ENTRIES@ + text::dec(n.owner.write_log.len()) + markup::LOCAL_DAYS@
        + text::dec((retention / 86400) as nat) + markup::LOCAL_END@
}

fn show_local(node: &Node, retention: u64) -> (r: String)
    ensures
        r@ == local_section(node@, retention),
{
    let v = &node.owner.public_version;
    let mut s = owned(markup::LOCAL_UUID);
    put_hex(&mut s, &node.device_uuid);
    put(&mut s, markup::LOCAL_WRITER);
    put_hex(&mut s, &v.writer_sg_uuid);
    put(&mut s, markup::LOCAL_EPOCH);
    put_dec(&mut s, v.epoch as u64);
    put(&mut s, markup::LOCAL_SEQ);
    put_dec(&mut s, v.seq);
    put(&mut s, markup::LOCAL_ENTRIES);
    put_dec(&mut s, node.owner.write_log.len() as u64);
    put(&mut s, markup::LOCAL_DAYS);
    put_dec(&mut s, retention / 86400);
    put(&mut s, markup::LOCAL_END);
    s
}

/// The name of a device: its own, behind the contact's where it is not the
/// user's.
pub open spec fn name_of(n: NodeView, u: Uuid) -> Seq<char> {
    if u == n.device_uuid {
        "(this device)"@
    } else {
        match model::first_where(n.owner.user.devices, find::device_is(u)) {
            Some(i) => n.owner.user.devices[i].alias,
            None => match model::first_where(n.owner.contact_users, find::contact_has_device(u)) {
                Some(c) => {
                    let user = n.owner.contact_users[c].user;
                    let d = model::first_where(user.devices, find::device_is(u)).unwrap();
                    user.alias + "/"@ + user.devices[d].alias
                },
                None => "(unknown)"@,
            },
        }
    }
}

fn show_name(node: &Node, u: &Uuid) -> (r: String)
    ensures
        r@ == name_of(node@, *u),
{
    broadcast use model::group_views;

    if uuid_eq(u, &node.device_uuid) {
        return owned("(this device)");
    }
    if let Some(i) = find_device(&node.owner.user.devices, u) {
        return node.owner.user.devices[i].alias.clone();
    }
    if let Some(c) = find_contact_of_device(&node.owner.contact_users, u) {
        let user = &node.owner.contact_users[c].user;
        proof {
            model::lemma_first_where(
                model::views(node.owner.contact_users@),
                find::contact_has_device(*u),
            );
            model::lemma_first_where(model::views(user.devices@), find::device_is(*u));
        }
        if let Some(d) = find_device(&user.devices, u) {
            let mut s = user.alias.clone();
            put(&mut s, "/");
            put(&mut s, user.devices[d].alias.as_str());
            return s;
        }
    }
    owned("(unknown)")
}

/// What polling found of one host of a server.
pub open spec fn host_row(n: NodeView, u: Uuid) -> spec_fn(Seq<char>) -> Seq<char> {
    |h: Seq<char>|
        match model::first_where(n.sg_statuses, sessions::status_at(u, h)) {
            Some(i) => {
                let s = n.sg_statuses[i].status;
                markup::PEER_HOST_NAME@ + forms::escaped(h) + markup::PEER_HOST_STATUS@ + (if s.up {
                    markup::PEER_UP@
                } else {
                    markup::PEER_DOWN@
                }) + markup::PEER_HOST_RTT@ + (match s.last_rtt {
                    Some(ns) => text::dec((ns / 1_000_000) as nat) + "ms"@,
                    None => "—"@,
                }) + markup::PEER_HOST_END@
            },
            None => markup::PEER_HOST_UNPOLLED_NAME@ + forms::escaped(h)
                + markup::PEER_HOST_UNPOLLED_END@,
        }
}

fn find_status(list: &Vec<SgHostStatus>, u: &Uuid, h: &String) -> (r: Option<usize>)
    ensures
        match model::first_where(model::views(list@), sessions::status_at(*u, h@)) {
            Some(i) => r == Some(i as usize) && i == r->0 && 0 <= i < list@.len(),
            None => r is None,
        },
{
    broadcast use model::group_views;

    let ghost s = model::views(list@);
    let ghost p = sessions::status_at(*u, h@);
    let mut i: usize = 0;
    while i < list.len()
        invariant
            i <= list@.len(),
            s == model::views(list@),
            p == sessions::status_at(*u, h@),
            forall|j: int| 0 <= j < i ==> !p(#[trigger] s[j]),
        decreases list@.len() - i,
    {
        if uuid_eq(&list[i].device_uuid, u) && text_eq(list[i].host.as_str(), h.as_str()) {
            proof {
                assert(p(s[i as int]));
                model::lemma_first_at(s, p, i as int);
            }
            return Some(i);
        }
        assert(!p(s[i as int]));
        i += 1;
    }
    proof {
        model::lemma_first_none(s, p);
    }
    None
}

fn show_peer_host(node: &Node, u: &Uuid, h: &String) -> (r: String)
    ensures
        r@ == host_row(node@, *u)(h@),
{
    broadcast use model::group_views;

    match find_status(&node.sg_statuses, u, h) {
        Some(i) => {
            let status = node.sg_statuses[i].status;
            let mut s = owned(markup::PEER_HOST_NAME);
            put_escaped(&mut s, h.as_str());
            put(&mut s, markup::PEER_HOST_STATUS);
            if status.up {
                put(&mut s, markup::PEER_UP);
            } else {
                put(&mut s, markup::PEER_DOWN);
            }
            put(&mut s, markup::PEER_HOST_RTT);
            let rtt = match status.last_rtt {
                Some(ns) => {
                    let mut t = blank();
                    put_dec(&mut t, ns / 1_000_000);
                    assert(t@ =~= text::dec((ns / 1_000_000) as nat));
                    put(&mut t, "ms");
                    t
                },
                None => owned("—"),
            };
            put(&mut s, rtt.as_str());
            put(&mut s, markup::PEER_HOST_END);
            s
        },
        None => {
            let mut s = owned(markup::PEER_HOST_UNPOLLED_NAME);
            put_escaped(&mut s, h.as_str());
            put(&mut s, markup::PEER_HOST_UNPOLLED_END);
            s
        },
    }
}

/// Another server of this user.
pub open spec fn other_server(own: Uuid) -> spec_fn(DeviceView) -> bool {
    |d: DeviceView| d.grade == DeviceGrade::SG && d.uuid != own
}

/// Another server of this user, with its hosts.
pub open spec fn peer_row(n: NodeView) -> spec_fn(DeviceView) -> Seq<char> {
    |d: DeviceView|
        markup::ROW@ + forms::escaped(d.alias) + markup::PEER_ROW_UUID@ + forms::hex_of(d.uuid@)
            + markup::PEER_ROW_HOSTS@ + text::rows(d.hosts, host_row(n, d.uuid))
            + markup::PEER_ROW_END@
}

fn show_peer(node: &Node, d: &Device) -> (r: String)
    ensures
        r@ == peer_row(node@)(d@),
{
    broadcast use model::group_views;

    let ghost hs = model::views(d.hosts@);
    let ghost f = host_row(node@, d.uuid);
    let mut hosts = blank();
    let mut i: usize = 0;
    proof {
        text::lemma_rows_none(hs, f);
    }
    while i < d.hosts.len()
        invariant
            i <= d.hosts@.len(),
            hs == model::views(d.hosts@),
            f == host_row(node@, d.uuid),
            hosts@ == text::rows(hs.take(i as int), f),
        decreases d.hosts@.len() - i,
    {
        put(&mut hosts, show_peer_host(node, &d.uuid, &d.hosts[i]).as_str());
        proof {
            text::lemma_rows_step(hs, f, i as int);
        }
        i += 1;
    }
    let mut s = owned(markup::ROW);
    put_escaped(&mut s, d.alias.as_str());
    put(&mut s, markup::PEER_ROW_UUID);
    put_hex(&mut s, &d.uuid);
    put(&mut s, markup::PEER_ROW_HOSTS);
    put(&mut s, hosts.as_str());
    put(&mut s, markup::PEER_ROW_END);
    s
}

/// A table, or a note where it has no rows.
pub open spec fn table_or(rows: Seq<char>, none: Seq<char>, head: Seq<char>, end: Seq<char>) -> Seq<
    char,
> {
    if rows.len() == 0 {
        none
    } else {
        head + rows + end
    }
}

fn show_table(rows: &String, none: &str, head: &str, end: &str) -> (r: String)
    ensures
        r@ == table_or(rows@, none@, head@, end@),
{
    if is_empty(rows) {
        owned(none)
    } else {
        let mut s = owned(head);
        put(&mut s, rows.as_str());
        put(&mut s, end);
        s
    }
}

/// The other servers of this user, and whether they answer.
pub open spec fn peers_section(n: NodeView) -> Seq<char> {
    table_or(
        text::rows(
            model::keep(n.owner.user.devices, other_server(n.device_uuid)),
            peer_row(n),
        ),
        markup::NO_PEERS@,
        markup::PEERS_ROWS@,
        markup::PEERS_END@,
    )
}

fn show_peers(node: &Node) -> (r: String)
    ensures
        r@ == peers_section(node@),
{
    broadcast use model::group_views;

    let devices: &Vec<Device> = &node.owner.user.devices;
    let ghost s = model::views(devices@);
    let ghost p = other_server(node.device_uuid);
    let ghost f = peer_row(node@);
    let mut rows = blank();
    let mut i: usize = 0;
    assert(s.take(0) =~= Seq::empty());
    while i < devices.len()
        invariant
            i <= devices@.len(),
            s == model::views(devices@),
            p == other_server(node.device_uuid),
            f == peer_row(node@),
            rows@ == text::rows(model::keep(s.take(i as int), p), f),
        decreases devices@.len() - i,
    {
        proof {
            model::lemma_keep_step(s, p, i as int);
            text::lemma_rows_push(model::keep(s.take(i as int), p), f, s[i as int]);
        }
        let d = &devices[i];
        if d.grade == DeviceGrade::SG && !uuid_eq(&d.uuid, &node.device_uuid) {
            put(&mut rows, show_peer(node, d).as_str());
        }
        i += 1;
    }
    assert(s.take(s.len() as int) =~= s);
    show_table(&rows, markup::NO_PEERS, markup::PEERS_ROWS, markup::PEERS_END)
}

/// How far a peer and this node agree about one writer.
pub open spec fn mark_row(n: NodeView, v: SyncVersion) -> Seq<char> {
    markup::MARK_ROW_ALIAS@ + name_of(n, v.writer_sg_uuid) + markup::MARK_ROW_WRITER@
        + forms::hex_of(v.writer_sg_uuid@) + markup::MARK_ROW_EPOCH@ + text::dec(v.epoch as nat)
        + markup::MARK_ROW_SEQ@ + text::dec(v.seq as nat) + markup::ROW_END@
}

pub open spec fn as_is() -> spec_fn(Seq<char>) -> Seq<char> {
    |s: Seq<char>| s
}

/// How far a peer and this node agree, writer by writer, in order.
pub open spec fn mark_rows(n: NodeView, marks: Seq<SyncVersion>) -> Seq<char> {
    text::rows(
        order::sorted(Seq::new(marks.len(), |i: int| mark_row(n, marks[i])), order::text_key()),
        as_is(),
    )
}

fn show_mark(node: &Node, v: &SyncVersion) -> (r: String)
    ensures
        r@ == mark_row(node@, *v),
{
    let mut s = owned(markup::MARK_ROW_ALIAS);
    put(&mut s, show_name(node, &v.writer_sg_uuid).as_str());
    put(&mut s, markup::MARK_ROW_WRITER);
    put_hex(&mut s, &v.writer_sg_uuid);
    put(&mut s, markup::MARK_ROW_EPOCH);
    put_dec(&mut s, v.epoch as u64);
    put(&mut s, markup::MARK_ROW_SEQ);
    put_dec(&mut s, v.seq);
    put(&mut s, markup::ROW_END);
    s
}

fn show_marks(node: &Node, marks: &Vec<SyncVersion>) -> (r: String)
    ensures
        r@ == mark_rows(node@, marks@),
{
    broadcast use model::group_views;

    let ghost want = Seq::new(marks@.len(), |i: int| mark_row(node@, marks@[i]));
    let mut rows: Vec<String> = Vec::new();
    let mut i: usize = 0;
    assert(model::views(rows@) =~= want.take(0));
    while i < marks.len()
        invariant
            i <= marks@.len(),
            want == Seq::new(marks@.len(), |i: int| mark_row(node@, marks@[i])),
            model::views(rows@) == want.take(i as int),
        decreases marks@.len() - i,
    {
        rows.push(show_mark(node, &marks[i]));
        proof {
            model::lemma_take_push(want, i as int);
        }
        i += 1;
    }
    assert(want.take(want.len() as int) =~= want);
    let inorder = sort_texts(&rows);
    let ghost s = model::views(inorder@);
    let mut out = blank();
    let mut k: usize = 0;
    proof {
        text::lemma_rows_none(s, as_is());
    }
    while k < inorder.len()
        invariant
            k <= inorder@.len(),
            s == model::views(inorder@),
            out@ == text::rows(s.take(k as int), as_is()),
        decreases inorder@.len() - k,
    {
        put(&mut out, inorder[k].as_str());
        proof {
            text::lemma_rows_step(s, as_is(), k as int);
        }
        k += 1;
    }
    out
}

/// The peers with marks.
pub open spec fn marked_peers(s: Seq<PeerWatermarksView>) -> Seq<Uuid> {
    Seq::new(s.len(), |i: int| s[i].peer)
}

/// The marks that are kept for a peer.
pub open spec fn marks_kept(n: NodeView, u: Uuid) -> Seq<SyncVersion> {
    let i = model::first_where(n.owner.last_watermarks, watermark::marks_for(u)).unwrap();
    n.owner.last_watermarks[i].marks
}

/// A peer with the marks that are kept for it.
pub open spec fn marks_row(n: NodeView) -> spec_fn(Uuid) -> Seq<char> {
    |u: Uuid|
        markup::ROW@ + forms::escaped(name_of(n, u)) + markup::MARKS_ROW_UUID@ + forms::hex_of(u@)
            + markup::MARKS_ROW_ROWS@ + mark_rows(n, marks_kept(n, u)) + markup::MARKS_ROW_END@
}

/// How far the peers and this node agree.
pub open spec fn marks_section(n: NodeView) -> Seq<char> {
    table_or(
        text::rows(
            order::sorted(marked_peers(n.owner.last_watermarks), order::uuid_key()),
            marks_row(n),
        ),
        markup::NO_MARKS@,
        markup::MARKS_ROWS@,
        markup::MARKS_END@,
    )
}

/// What is sorted stays what it was.
proof fn lemma_sorted_member(s: Seq<Uuid>, k: int)
    requires
        0 <= k < order::sorted(s, order::uuid_key()).len(),
    ensures
        s.contains(order::sorted(s, order::uuid_key())[k]),
{
    broadcast use vstd::seq_lib::group_to_multiset_ensures;

    let t = order::sorted(s, order::uuid_key());
    order::lemma_sorted(s, order::uuid_key());
    assert(t.contains(t[k]));
    assert(t.to_multiset().count(t[k]) > 0);
    assert(s.to_multiset().count(t[k]) > 0);
}

fn show_peer_marks(node: &Node) -> (r: String)
    ensures
        r@ == marks_section(node@),
{
    broadcast use model::group_views;

    let list: &Vec<PeerWatermarks> = &node.owner.last_watermarks;
    let ghost lv = model::views(list@);
    let ghost want = marked_peers(lv);
    let mut peers: Vec<Uuid> = Vec::new();
    let mut i: usize = 0;
    assert(peers@ =~= want.take(0));
    while i < list.len()
        invariant
            i <= list@.len(),
            lv == model::views(list@),
            want == marked_peers(lv),
            peers@ == want.take(i as int),
        decreases list@.len() - i,
    {
        peers.push(list[i].peer);
        proof {
            model::lemma_take_push(want, i as int);
        }
        i += 1;
    }
    assert(want.take(want.len() as int) =~= want);
    let inorder = sort_uuids(&peers);
    let ghost f = marks_row(node@);
    let mut rows = blank();
    let mut k: usize = 0;
    proof {
        text::lemma_rows_none(inorder@, f);
    }
    while k < inorder.len()
        invariant
            k <= inorder@.len(),
            inorder@ == order::sorted(want, order::uuid_key()),
            list == node.owner.last_watermarks,
            lv == model::views(list@),
            want == marked_peers(lv),
            f == marks_row(node@),
            rows@ == text::rows(inorder@.take(k as int), f),
        decreases inorder@.len() - k,
    {
        let u = inorder[k];
        proof {
            lemma_sorted_member(want, k as int);
            let j = choose|j: int| 0 <= j < want.len() && want[j] == u;
            assert(watermark::marks_for(u)(lv[j]));
            model::lemma_first_some(lv, watermark::marks_for(u), j);
        }
        if let Some(j) = find_peer_marks(list, &u) {
            let mut row = owned(markup::ROW);
            put_escaped(&mut row, show_name(node, &u).as_str());
            put(&mut row, markup::MARKS_ROW_UUID);
            put_hex(&mut row, &u);
            put(&mut row, markup::MARKS_ROW_ROWS);
            put(&mut row, show_marks(node, &list[j].marks).as_str());
            put(&mut row, markup::MARKS_ROW_END);
            put(&mut rows, row.as_str());
            proof {
                assert(row@ == f(u));
                text::lemma_rows_step(inorder@, f, k as int);
            }
        }
        k += 1;
    }
    show_table(&rows, markup::NO_MARKS, markup::MARKS_ROWS, markup::MARKS_END)
}

pub open spec fn proposal_of(u: Uuid) -> spec_fn(ReceivedProposalView) -> bool {
    |p: ReceivedProposalView| p.peer == u
}

/// The peers with a proposal.
pub open spec fn proposing_peers(s: Seq<ReceivedProposalView>) -> Seq<Uuid> {
    Seq::new(s.len(), |i: int| s[i].peer)
}

/// How many entries a peer proposes.
pub open spec fn proposed_count(n: NodeView, u: Uuid) -> nat {
    let s = n.owner.received_merge_proposals;
    s[model::first_where(s, proposal_of(u)).unwrap()].entries.len()
}

/// A peer with how many entries it proposes.
pub open spec fn proposal_row(n: NodeView) -> spec_fn(Uuid) -> Seq<char> {
    |u: Uuid|
        markup::ROW@ + forms::escaped(name_of(n, u)) + markup::PROPOSAL_ROW_UUID@ + forms::hex_of(
            u@,
        ) + markup::PROPOSAL_ROW_COUNT@ + text::dec(proposed_count(n, u))
            + markup::PROPOSAL_ROW_PLURAL@ + (if proposed_count(n, u) == 1 {
            "y"@
        } else {
            "ies"@
        }) + markup::ROW_END@
}

/// What the peers propose.
pub open spec fn proposals_section(n: NodeView) -> Seq<char> {
    table_or(
        text::rows(
            order::sorted(
                proposing_peers(n.owner.received_merge_proposals),
                order::uuid_key(),
            ),
            proposal_row(n),
        ),
        markup::NO_PROPOSALS@,
        markup::PROPOSALS_ROWS@,
        markup::PROPOSALS_END@,
    )
}

fn find_proposal(list: &Vec<ReceivedProposal>, u: &Uuid) -> (r: Option<usize>)
    ensures
        match model::first_where(model::views(list@), proposal_of(*u)) {
            Some(i) => r == Some(i as usize) && i == r->0 && 0 <= i < list@.len(),
            None => r is None,
        },
{
    broadcast use model::group_views;

    let ghost s = model::views(list@);
    let mut i: usize = 0;
    while i < list.len()
        invariant
            i <= list@.len(),
            s == model::views(list@),
            forall|j: int| 0 <= j < i ==> !proposal_of(*u)(#[trigger] s[j]),
        decreases list@.len() - i,
    {
        if uuid_eq(&list[i].peer, u) {
            proof {
                assert(proposal_of(*u)(s[i as int]));
                model::lemma_first_at(s, proposal_of(*u), i as int);
            }
            return Some(i);
        }
        i += 1;
    }
    proof {
        model::lemma_first_none(s, proposal_of(*u));
    }
    None
}

fn show_proposals(node: &Node) -> (r: String)
    ensures
        r@ == proposals_section(node@),
{
    broadcast use model::group_views;

    let list: &Vec<ReceivedProposal> = &node.owner.received_merge_proposals;
    let ghost lv = model::views(list@);
    let ghost want = proposing_peers(lv);
    let mut peers: Vec<Uuid> = Vec::new();
    let mut i: usize = 0;
    assert(peers@ =~= want.take(0));
    while i < list.len()
        invariant
            i <= list@.len(),
            lv == model::views(list@),
            want == proposing_peers(lv),
            peers@ == want.take(i as int),
        decreases list@.len() - i,
    {
        peers.push(list[i].peer);
        proof {
            model::lemma_take_push(want, i as int);
        }
        i += 1;
    }
    assert(want.take(want.len() as int) =~= want);
    let inorder = sort_uuids(&peers);
    let ghost f = proposal_row(node@);
    let mut rows = blank();
    let mut k: usize = 0;
    proof {
        text::lemma_rows_none(inorder@, f);
    }
    while k < inorder.len()
        invariant
            k <= inorder@.len(),
            inorder@ == order::sorted(want, order::uuid_key()),
            list == node.owner.received_merge_proposals,
            lv == model::views(list@),
            want == proposing_peers(lv),
            f == proposal_row(node@),
            rows@ == text::rows(inorder@.take(k as int), f),
        decreases inorder@.len() - k,
    {
        let u = inorder[k];
        proof {
            lemma_sorted_member(want, k as int);
            let j = choose|j: int| 0 <= j < want.len() && want[j] == u;
            assert(proposal_of(u)(lv[j]));
            model::lemma_first_some(lv, proposal_of(u), j);
        }
        if let Some(j) = find_proposal(list, &u) {
            let n: usize = list[j].entries.len();
            let mut row = owned(markup::ROW);
            put_escaped(&mut row, show_name(node, &u).as_str());
            put(&mut row, markup::PROPOSAL_ROW_UUID);
            put_hex(&mut row, &u);
            put(&mut row, markup::PROPOSAL_ROW_COUNT);
            put_dec(&mut row, n as u64);
            put(&mut row, markup::PROPOSAL_ROW_PLURAL);
            if n == 1 {
                put(&mut row, "y");
            } else {
                put(&mut row, "ies");
            }
            put(&mut row, markup::ROW_END);
            put(&mut rows, row.as_str());
            proof {
                assert(row@ == f(u));
                text::lemma_rows_step(inorder@, f, k as int);
            }
        }
        k += 1;
    }
    show_table(&rows, markup::NO_PROPOSALS, markup::PROPOSALS_ROWS, markup::PROPOSALS_END)
}

/// The page that shows how far this node and its peers agree.
pub open spec fn diagnostics(n: NodeView, retention: u64) -> Seq<char> {
    layout::page(
        n,
        "Diagnostics"@,
        "<h1>Diagnostics</h1>"@ + local_section(n, retention) + peers_section(n) + marks_section(n)
            + proposals_section(n),
    )
}

/// The page that shows how far this node and its peers agree. `retention` is how
/// long the log goes back, in seconds.
pub fn render_diagnostics(node: &Node, retention: u64) -> (r: String)
    ensures
        r@ == diagnostics(node@, retention),
{
    let mut s = owned("<h1>Diagnostics</h1>");
    put(&mut s, show_local(node, retention).as_str());
    put(&mut s, show_peers(node).as_str());
    put(&mut s, show_peer_marks(node).as_str());
    put(&mut s, show_proposals(node).as_str());
    layout(node, "Diagnostics", s.as_str())
}

} // verus!
