//! What stands round every admin page.
use crate::forms;
use crate::forms::{hex_bytes, html_escape};
use crate::markup;
use crate::model;
use crate::routing;
use crate::routing::is_polled_down;
use crate::text;
use crate::text::{blank, join_texts, owned, put, put_dec};
use crate::types::{uuid_eq, Device, DeviceGrade, DeviceView, HostAddr, Node, NodeView, Uuid};
use vstd::prelude::*;

verus! {

/// Appends text so that it can stand in a page.
pub fn put_escaped(s: &mut String, t: &str)
    ensures
        final(s)@ == old(s)@ + forms::escaped(t@),
{
    put(s, html_escape(t).as_str());
}

/// Appends an identifier in hexadecimal.
pub fn put_hex(s: &mut String, u: &Uuid)
    ensures
        final(s)@ == old(s)@ + forms::hex_of(u@),
{
    put(s, hex_bytes(u.as_slice()).as_str());
}

/// An endpoint as text.
pub open spec fn host_text(h: HostAddr) -> Seq<char> {
    text::dec(h.ip.a as nat) + "."@ + text::dec(h.ip.b as nat) + "."@ + text::dec(h.ip.c as nat)
        + "."@ + text::dec(h.ip.d as nat) + ":"@ + text::dec(h.port as nat)
}

/// An endpoint as text.
pub fn show_host(h: HostAddr) -> (r: String)
    ensures
        r@ == host_text(h),
{
    let mut s = blank();
    put_dec(&mut s, h.ip.a as u64);
    assert(s@ =~= text::dec(h.ip.a as nat));
    put(&mut s, ".");
    put_dec(&mut s, h.ip.b as u64);
    put(&mut s, ".");
    put_dec(&mut s, h.ip.c as u64);
    put(&mut s, ".");
    put_dec(&mut s, h.ip.d as u64);
    put(&mut s, ":");
    put_dec(&mut s, h.port as u64);
    s
}

/// Another server of this user, polled and down.
pub open spec fn down_peer(n: NodeView) -> spec_fn(DeviceView) -> bool {
    |d: DeviceView|
        d.grade == DeviceGrade::SG && d.uuid != n.device_uuid && routing::polled_down(n, d.uuid)
}

/// The names of devices, written so that they can stand in a page.
pub open spec fn escaped_names(s: Seq<DeviceView>) -> Seq<Seq<char>> {
    Seq::new(s.len(), |i: int| forms::escaped(s[i].alias))
}

/// The notice that some of the user's servers cannot be reached; nothing where
/// all can, or were not polled yet.
pub open spec fn banner(n: NodeView) -> Seq<char> {
    let down = model::keep(n.owner.user.devices, down_peer(n));
    if down.len() == 0 {
        Seq::empty()
    } else {
        markup::PARTITION_PEERS@ + text::joined(escaped_names(down), ", "@) + markup::PARTITION_END@
    }
}

/// The notice that some of the user's servers cannot be reached.
pub fn partition_banner(node: &Node) -> (r: String)
    ensures
        r@ == banner(node@),
{
    broadcast use model::group_views;

    let devices: &Vec<Device> = &node.owner.user.devices;
    let ghost s = model::views(devices@);
    let ghost p = down_peer(node@);
    let mut names: Vec<String> = Vec::new();
    let mut i: usize = 0;
    assert(s.take(0) =~= Seq::empty());
    assert(model::views(names@) =~= escaped_names(model::keep(s.take(0), p)));
    while i < devices.len()
        invariant
            i <= devices@.len(),
            s == model::views(devices@),
            s == node@.owner.user.devices,
            p == down_peer(node@),
            model::views(names@) == escaped_names(model::keep(s.take(i as int), p)),
        decreases devices@.len() - i,
    {
        proof {
            model::lemma_keep_step(s, p, i as int);
        }
        let d = &devices[i];
        if d.grade == DeviceGrade::SG && !uuid_eq(&d.uuid, &node.device_uuid) && is_polled_down(
            node,
            &d.uuid,
        ) {
            let ghost kept = model::keep(s.take(i as int), p);
            let name = html_escape(d.alias.as_str());
            assert(name@ == forms::escaped(s[i as int].alias));
            names.push(name);
            assert(escaped_names(kept).push(name@) =~= escaped_names(kept.push(s[i as int])));
            assert(model::views(names@) =~= escaped_names(kept.push(s[i as int])));
        }
        i += 1;
    }
    assert(s.take(s.len() as int) =~= s);
    if names.len() == 0 {
        return blank();
    }
    let mut out = owned(markup::PARTITION_PEERS);
    put(&mut out, join_texts(&names, ", ").as_str());
    put(&mut out, markup::PARTITION_END);
    out
}

/// A page with its title, its menu and the notice above its contents.
pub open spec fn page(n: NodeView, title: Seq<char>, body: Seq<char>) -> Seq<char> {
    markup::LAYOUT_TITLE@ + title + markup::LAYOUT_CSS@ + markup::CSS@ + markup::LAYOUT_BANNER@
        + banner(n) + body + markup::LAYOUT_END@
}

/// A page with its title, its menu and the notice above its contents.
pub fn layout(node: &Node, title: &str, body: &str) -> (r: String)
    ensures
        r@ == page(node@, title@, body@),
{
    let mut s = owned(markup::LAYOUT_TITLE);
    put(&mut s, title);
    put(&mut s, markup::LAYOUT_CSS);
    put(&mut s, markup::CSS);
    put(&mut s, markup::LAYOUT_BANNER);
    put(&mut s, partition_banner(node).as_str());
    put(&mut s, body);
    put(&mut s, markup::LAYOUT_END);
    s
}

/// A page of the setup.
pub open spec fn setup_page(body: Seq<char>) -> Seq<char> {
    markup::SETUP_LAYOUT_CSS@ + markup::SETUP_CSS@ + markup::SETUP_LAYOUT_BODY@ + body
        + markup::SETUP_LAYOUT_END@
}

/// A page of the setup.
pub fn setup_layout(body: &str) -> (r: String)
    ensures
        r@ == setup_page(body@),
{
    let mut s = owned(markup::SETUP_LAYOUT_CSS);
    put(&mut s, markup::SETUP_CSS);
    put(&mut s, markup::SETUP_LAYOUT_BODY);
    put(&mut s, body);
    put(&mut s, markup::SETUP_LAYOUT_END);
    s
}

/// There is no notice where every other server of the user is up or was not
/// polled.
pub proof fn law_no_false_alarm(n: NodeView)
    requires
        forall|i: int|
            0 <= i < n.owner.user.devices.len() && (#[trigger] n.owner.user.devices[i]).uuid
                != n.device_uuid ==> !routing::polled_down(n, n.owner.user.devices[i].uuid),
    ensures
        banner(n) == Seq::<char>::empty(),
{
    let s = n.owner.user.devices;
    let down = model::keep(s, down_peer(n));
    if down.len() > 0 {
        model::lemma_keep_contains(s, down_peer(n), down[0]);
        assert(down.contains(down[0]));
        let i = choose|i: int| 0 <= i < s.len() && s[i] == down[0];
        assert(s[i].uuid != n.device_uuid);
    }
}

/// A server of the user that was polled and is down is named in the notice.
pub proof fn law_partition_shows(n: NodeView, i: int)
    requires
        0 <= i < n.owner.user.devices.len(),
        down_peer(n)(n.owner.user.devices[i]),
    ensures
        banner(n) == markup::PARTITION_PEERS@ + text::joined(
            escaped_names(model::keep(n.owner.user.devices, down_peer(n))),
            ", "@,
        ) + markup::PARTITION_END@,
        escaped_names(model::keep(n.owner.user.devices, down_peer(n))).contains(
            forms::escaped(n.owner.user.devices[i].alias),
        ),
{
    let s = n.owner.user.devices;
    let down = model::keep(s, down_peer(n));
    model::lemma_keep_contains(s, down_peer(n), s[i]);
    assert(s.contains(s[i]));
    let k = choose|k: int| 0 <= k < down.len() && down[k] == s[i];
    assert(escaped_names(down)[k] == forms::escaped(s[i].alias));
}

} // verus!
