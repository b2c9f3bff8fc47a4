//! Settings as text: addresses, ports, switches and lists of hosts.
use crate::model;
use crate::numbers;
use crate::numbers::read_number;
use crate::text;
use crate::text::{chars_of, lower_text, split_text, string_of, text_eq, trim};
use crate::types::{Contact, ContactView, Device, DeviceView, HostAddr, Ipv4, Node};
use vstd::prelude::*;

verus! {

/// The port of the admin pages, where nothing else is set.
pub const DEFAULT_HTTP_PORT: u16 = 8777;

/// The port for datagrams, where nothing else is set.
pub const DEFAULT_PORT: u16 = 7777;

/// The port that a setting asks for; `other` where there is none or it is no
/// port.
pub open spec fn port_or(value: Option<Seq<char>>, other: u16) -> u16 {
    match value {
        Some(s) => match numbers::number_to(s, 65535) {
            Some(n) => n as u16,
            None => other,
        },
        None => other,
    }
}

pub open spec fn text_of(s: Option<&str>) -> Option<Seq<char>> {
    match s {
        Some(t) => Some(t@),
        None => None,
    }
}

fn read_port(value: Option<&str>, other: u16) -> (r: u16)
    ensures
        r == port_or(text_of(value), other),
{
    match value {
        Some(s) => match read_number(s, 65535) {
            Some(n) => n as u16,
            None => other,
        },
        None => other,
    }
}

/// The port of the admin pages; `value` is what the environment says.
pub fn http_port(value: Option<&str>) -> (r: u16)
    ensures
        r == port_or(text_of(value), DEFAULT_HTTP_PORT),
{
    read_port(value, DEFAULT_HTTP_PORT)
}

/// The port for datagrams; `value` is what the environment says.
pub fn udp_port(value: Option<&str>) -> (r: u16)
    ensures
        r == port_or(text_of(value), DEFAULT_PORT),
{
    read_port(value, DEFAULT_PORT)
}

/// A switch is on where it is set to `1` or to `true` in any case.
pub open spec fn is_on(value: Option<Seq<char>>) -> bool {
    match value {
        Some(s) => s == "1"@ || text::lowered(s) == "true"@,
        None => false,
    }
}

/// Whether a switch is on; `value` is what the environment says.
pub fn switched_on(value: Option<&str>) -> (r: bool)
    ensures
        r == is_on(text_of(value)),
{
    match value {
        Some(s) => text_eq(s, "1") || text_eq(lower_text(s).as_str(), "true"),
        None => false,
    }
}

/// One part of a dotted address: a number up to 255 in one to three digits, with
/// no zero before others.
pub open spec fn octet_in(s: Seq<char>) -> Option<u8> {
    if 1 <= s.len() <= 3 && numbers::all_digits(s) && (s.len() == 1 || s[0] != '0')
        && numbers::digits_value(s) <= 255 {
        Some(numbers::digits_value(s) as u8)
    } else {
        None
    }
}

fn read_octet(s: &String) -> (r: Option<u8>)
    ensures
        r == octet_in(s@),
{
    let v = chars_of(s.as_str());
    if v.len() < 1 || v.len() > 3 {
        return None;
    }
    if v.len() > 1 && v[0] == '0' {
        return None;
    }
    if v[0] == '+' {
        assert(!numbers::is_digit(s@[0]));
        return None;
    }
    match read_number(s.as_str(), 255) {
        Some(n) => Some(n as u8),
        None => None,
    }
}

/// The address that four numbers between dots write.
pub open spec fn ipv4_in(s: Seq<char>) -> Option<Ipv4> {
    let p = text::split(s, '.');
    if p.len() != 4 {
        None
    } else {
        match (octet_in(p[0]), octet_in(p[1]), octet_in(p[2]), octet_in(p[3])) {
            (Some(a), Some(b), Some(c), Some(d)) => Some(Ipv4 { a, b, c, d }),
            _ => None,
        }
    }
}

/// Reads a dotted address.
pub fn parse_ipv4(s: &str) -> (r: Option<Ipv4>)
    ensures
        r == ipv4_in(s@),
{
    broadcast use model::group_views;

    let p = split_text(s, '.');
    if p.len() != 4 {
        return None;
    }
    match (read_octet(&p[0]), read_octet(&p[1]), read_octet(&p[2]), read_octet(&p[3])) {
        (Some(a), Some(b), Some(c), Some(d)) => Some(Ipv4 { a, b, c, d }),
        _ => None,
    }
}

/// This machine only.
pub open spec fn loopback() -> Ipv4 {
    Ipv4 { a: 127, b: 0, c: 0, d: 1 }
}

/// Every interface.
pub open spec fn any_interface() -> Ipv4 {
    Ipv4 { a: 0, b: 0, c: 0, d: 0 }
}

/// Where the admin pages are served: only on this machine, unless a setting asks
/// for an address, or the older switch for every interface.
pub open spec fn bind_address(bind: Option<Seq<char>>, bind_all: bool) -> Ipv4 {
    let t = match bind {
        Some(s) => text::trimmed(s),
        None => Seq::empty(),
    };
    if t.len() > 0 {
        if text::lowered(t) == "localhost"@ {
            loopback()
        } else {
            match ipv4_in(t) {
                Some(ip) => ip,
                None => loopback(),
            }
        }
    } else if bind_all {
        any_interface()
    } else {
        loopback()
    }
}

/// Where the admin pages are served.
pub fn parse_http_bind(bind: Option<&str>, bind_all: bool) -> (r: Ipv4)
    ensures
        r == bind_address(text_of(bind), bind_all),
{
    let local = Ipv4 { a: 127, b: 0, c: 0, d: 1 };
    if let Some(raw) = bind {
        let s = trim(raw);
        if s.as_str().unicode_len() > 0 {
            if text_eq(lower_text(s.as_str()).as_str(), "localhost") {
                return local;
            }
            return match parse_ipv4(s.as_str()) {
                Some(ip) => ip,
                None => local,
            };
        }
    }
    if bind_all {
        return Ipv4 { a: 0, b: 0, c: 0, d: 0 };
    }
    local
}

/// Where the admin pages are served; the arguments are what the environment says.
pub fn http_bind_ip(bind: Option<&str>, bind_all: Option<&str>) -> (r: Ipv4)
    ensures
        r == bind_address(text_of(bind), is_on(text_of(bind_all))),
{
    parse_http_bind(bind, switched_on(bind_all))
}

/// Nobody but this machine reaches the admin pages unless a setting says so.
pub proof fn law_private_by_default(bind: Option<Seq<char>>)
    requires
        bind is None || text::trimmed(bind->0).len() == 0 || ipv4_in(text::trimmed(bind->0)) is None,
    ensures
        bind_address(bind, false) == loopback(),
{
}

/// An explicit address wins over the older switch.
pub proof fn law_explicit_bind_wins(bind: Seq<char>, bind_all: bool)
    requires
        text::trimmed(bind).len() > 0,
    ensures
        bind_address(Some(bind), bind_all) == bind_address(Some(bind), false),
{
}

pub open spec fn not_blank() -> spec_fn(Seq<char>) -> bool {
    |s: Seq<char>| s.len() > 0
}

/// The pieces between commas, without white space round them.
pub open spec fn trimmed_parts(t: Seq<char>) -> Seq<Seq<char>> {
    let p = text::split(t, ',');
    Seq::new(p.len(), |i: int| text::trimmed(p[i]))
}

/// The hosts in a list with commas; blank entries do not count.
pub open spec fn hosts_in(t: Seq<char>) -> Seq<Seq<char>> {
    model::keep(trimmed_parts(t), not_blank())
}

/// The hosts under which a server is found; `value` is what the environment
/// says.
pub fn parse_pnet_hosts(value: &str) -> (r: Vec<String>)
    ensures
        model::views(r@) == hosts_in(value@),
{
    broadcast use model::group_views;

    let parts = split_text(value, ',');
    let ghost s = trimmed_parts(value@);
    let mut out: Vec<String> = Vec::new();
    let mut i: usize = 0;
    assert(s.take(0) =~= Seq::empty());
    assert(model::views(out@) =~= model::keep(s.take(0), not_blank()));
    while i < parts.len()
        invariant
            i <= parts@.len(),
            model::views(parts@) == text::split(value@, ','),
            s == trimmed_parts(value@),
            model::views(out@) == model::keep(s.take(i as int), not_blank()),
        decreases parts@.len() - i,
    {
        proof {
            model::lemma_keep_step(s, not_blank(), i as int);
        }
        let h = trim(parts[i].as_str());
        assert(s[i as int] == h@);
        if h.as_str().unicode_len() > 0 {
            out.push(h);
        }
        i += 1;
    }
    assert(s.take(s.len() as int) =~= s);
    out
}

/// Every host in a list stands in it once it is read, and none is blank.
pub proof fn law_hosts_are_named(t: Seq<char>, h: Seq<char>)
    ensures
        hosts_in(t).contains(h) <==> trimmed_parts(t).contains(h) && h.len() > 0,
{
    model::lemma_keep_contains(trimmed_parts(t), not_blank(), h);
}

/// Where the last colon stands.
pub open spec fn last_colon(s: Seq<char>) -> Option<int>
    decreases s.len(),
{
    if s.len() == 0 {
        None
    } else if s.last() == ':' {
        Some(s.len() - 1)
    } else {
        last_colon(s.drop_last())
    }
}

/// The endpoint that an entry writes down itself: an address, perhaps with a
/// port.
pub open spec fn literal_host(s: Seq<char>) -> Option<HostAddr> {
    match last_colon(s) {
        Some(i) => match (ipv4_in(s.take(i)), numbers::number_to(s.skip(i + 1), 65535)) {
            (Some(ip), Some(port)) => Some(HostAddr { ip, port: port as u16 }),
            _ => None,
        },
        None => match ipv4_in(s) {
            Some(ip) => Some(HostAddr { ip, port: DEFAULT_PORT }),
            None => None,
        },
    }
}

/// Reads an entry that is an address, perhaps with a port. Any other entry is a
/// name, which only the resolver knows.
pub fn parse_host_entry(entry: &str) -> (r: Option<HostAddr>)
    ensures
        r == literal_host(entry@),
{
    let v = chars_of(entry);
    let n: usize = v.len();
    let mut i: usize = n;
    assert(v@.take(n as int) =~= v@);
    while i > 0
        invariant
            i <= n == v@.len(),
            v@ == entry@,
            last_colon(v@) == last_colon(v@.take(i as int)),
        decreases i,
    {
        proof {
            assert(v@.take(i as int).last() == v@[i - 1]);
            assert(v@.take(i as int).drop_last() =~= v@.take(i - 1));
        }
        if v[i - 1] == ':' {
            let host = string_of(&v, 0, i - 1);
            let port = string_of(&v, i, n);
            proof {
                assert(host@ =~= entry@.take(i - 1));
                assert(port@ =~= entry@.skip(i as int));
            }
            return match (parse_ipv4(host.as_str()), read_number(port.as_str(), 65535)) {
                (Some(ip), Some(p)) => Some(HostAddr { ip, port: p as u16 }),
                _ => None,
            };
        }
        i -= 1;
    }
    assert(last_colon(v@.take(0)) is None);
    match parse_ipv4(entry) {
        Some(ip) => Some(HostAddr { ip, port: DEFAULT_PORT }),
        None => None,
    }
}

/// The hosts of devices, one device after the other.
pub open spec fn device_hosts(devices: Seq<DeviceView>) -> Seq<Seq<char>>
    decreases devices.len(),
{
    if devices.len() == 0 {
        Seq::empty()
    } else {
        device_hosts(devices.drop_last()) + devices.last().hosts
    }
}

/// The hosts of contacts' devices.
pub open spec fn contact_hosts(contacts: Seq<ContactView>) -> Seq<Seq<char>>
    decreases contacts.len(),
{
    if contacts.len() == 0 {
        Seq::empty()
    } else {
        contact_hosts(contacts.drop_last()) + device_hosts(contacts.last().user.devices)
    }
}

fn push_device_hosts(out: &mut Vec<String>, devices: &Vec<Device>)
    ensures
        model::views(final(out)@) == model::views(old(out)@) + device_hosts(
            model::views(devices@),
        ),
{
    broadcast use model::group_views;

    let ghost s = model::views(devices@);
    let ghost start = model::views(out@);
    let mut i: usize = 0;
    assert(s.take(0) =~= Seq::empty());
    assert(start + device_hosts(s.take(0)) =~= start);
    while i < devices.len()
        invariant
            i <= devices@.len(),
            s == model::views(devices@),
            model::views(out@) == start + device_hosts(s.take(i as int)),
        decreases devices@.len() - i,
    {
        let ghost before = model::views(out@);
        let mut more = crate::types::clone_strings(&devices[i].hosts);
        out.append(&mut more);
        proof {
            assert(s.take(i + 1).drop_last() =~= s.take(i as int));
            assert(s.take(i + 1).last() == s[i as int]);
            assert(model::views(out@) =~= before + s[i as int].hosts);
            assert(before + s[i as int].hosts =~= start + (device_hosts(s.take(i as int))
                + s[i as int].hosts));
        }
        i += 1;
    }
    assert(s.take(s.len() as int) =~= s);
}

/// Every host that this node may want to reach: those of the user's own devices,
/// then those of the contacts' devices.
pub fn known_hosts(node: &Node) -> (r: Vec<String>)
    ensures
        model::views(r@) == device_hosts(node@.owner.user.devices) + contact_hosts(
            node@.owner.contact_users,
        ),
{
    broadcast use model::group_views;

    let mut out: Vec<String> = Vec::new();
    assert(model::views(out@) =~= Seq::empty());
    push_device_hosts(&mut out, &node.owner.user.devices);
    let contacts: &Vec<Contact> = &node.owner.contact_users;
    let ghost s = model::views(contacts@);
    let ghost start = device_hosts(node@.owner.user.devices);
    let mut i: usize = 0;
    assert(s.take(0) =~= Seq::empty());
    assert(model::views(out@) =~= start + contact_hosts(s.take(0)));
    while i < contacts.len()
        invariant
            i <= contacts@.len(),
            s == model::views(contacts@),
            model::views(out@) == start + contact_hosts(s.take(i as int)),
        decreases contacts@.len() - i,
    {
        let ghost before = contact_hosts(s.take(i as int));
        push_device_hosts(&mut out, &contacts[i].user.devices);
        proof {
            assert(s.take(i + 1).drop_last() =~= s.take(i as int));
            assert(s.take(i + 1).last() == s[i as int]);
            let more = device_hosts(s[i as int].user.devices);
            assert(start + before + more =~= start + (before + more));
        }
        i += 1;
    }
    assert(s.take(s.len() as int) =~= s);
    out
}

/// A host of one of some devices.
pub open spec fn host_among(devices: Seq<DeviceView>, h: Seq<char>) -> bool {
    exists|i: int| 0 <= i < devices.len() && (#[trigger] devices[i]).hosts.contains(h)
}

proof fn lemma_host_among(devices: Seq<DeviceView>, h: Seq<char>)
    ensures
        device_hosts(devices).contains(h) <==> host_among(devices, h),
    decreases devices.len(),
{
    let all = device_hosts(devices);
    if devices.len() > 0 {
        let t = devices.drop_last();
        let rest = device_hosts(t);
        let d = devices[devices.len() - 1];
        lemma_host_among(t, h);
        if rest.contains(h) {
            let k = choose|k: int| 0 <= k < rest.len() && rest[k] == h;
            assert(all[k] == h);
            let i = choose|i: int| 0 <= i < t.len() && (#[trigger] t[i]).hosts.contains(h);
            assert(devices[i] == t[i]);
        }
        if d.hosts.contains(h) {
            let k = choose|k: int| 0 <= k < d.hosts.len() && d.hosts[k] == h;
            assert(all[rest.len() + k] == h);
        }
        if all.contains(h) {
            let k = choose|k: int| 0 <= k < all.len() && all[k] == h;
            if k < rest.len() {
                assert(rest[k] == h);
            } else {
                assert(d.hosts[k - rest.len()] == h);
            }
        }
        if host_among(devices, h) {
            let i = choose|i: int|
                0 <= i < devices.len() && (#[trigger] devices[i]).hosts.contains(h);
            if i < t.len() {
                assert(t[i] == devices[i]);
            }
        }
    }
}

proof fn lemma_contact_hosts(contacts: Seq<ContactView>, h: Seq<char>)
    ensures
        contact_hosts(contacts).contains(h) <==> exists|i: int|
            0 <= i < contacts.len() && host_among((#[trigger] contacts[i]).user.devices, h),
    decreases contacts.len(),
{
    let all = contact_hosts(contacts);
    if contacts.len() > 0 {
        let t = contacts.drop_last();
        let rest = contact_hosts(t);
        let c = contacts[contacts.len() - 1];
        let more = device_hosts(c.user.devices);
        lemma_contact_hosts(t, h);
        lemma_host_among(c.user.devices, h);
        if rest.contains(h) {
            let k = choose|k: int| 0 <= k < rest.len() && rest[k] == h;
            assert(all[k] == h);
            let i = choose|i: int|
                0 <= i < t.len() && host_among((#[trigger] t[i]).user.devices, h);
            assert(contacts[i] == t[i]);
        }
        if more.contains(h) {
            let k = choose|k: int| 0 <= k < more.len() && more[k] == h;
            assert(all[rest.len() + k] == h);
            assert(host_among(contacts[contacts.len() - 1].user.devices, h));
        }
        if all.contains(h) {
            let k = choose|k: int| 0 <= k < all.len() && all[k] == h;
            if k < rest.len() {
                assert(rest[k] == h);
            } else {
                assert(more[k - rest.len()] == h);
            }
        }
        if exists|i: int|
            0 <= i < contacts.len() && host_among((#[trigger] contacts[i]).user.devices, h) {
            let i = choose|i: int|
                0 <= i < contacts.len() && host_among((#[trigger] contacts[i]).user.devices, h);
            if i < t.len() {
                assert(t[i] == contacts[i]);
            }
        }
    }
}

/// The hosts that a node may want to reach are those of the user's and of the
/// contacts' devices, all of them and no others.
pub proof fn law_all_hosts_are_known(
    devices: Seq<DeviceView>,
    contacts: Seq<ContactView>,
    h: Seq<char>,
)
    ensures
        (device_hosts(devices) + contact_hosts(contacts)).contains(h) <==> host_among(devices, h)
            || exists|i: int|
            0 <= i < contacts.len() && host_among((#[trigger] contacts[i]).user.devices, h),
{
    let a = device_hosts(devices);
    let b = contact_hosts(contacts);
    lemma_host_among(devices, h);
    lemma_contact_hosts(contacts, h);
    if a.contains(h) {
        let k = choose|k: int| 0 <= k < a.len() && a[k] == h;
        assert((a + b)[k] == h);
    }
    if b.contains(h) {
        let k = choose|k: int| 0 <= k < b.len() && b[k] == h;
        assert((a + b)[a.len() + k] == h);
    }
    if (a + b).contains(h) {
        let k = choose|k: int| 0 <= k < (a + b).len() && (a + b)[k] == h;
        if k < a.len() {
            assert(a[k] == h);
        } else {
            assert(b[k - a.len()] == h);
        }
    }
}

} // verus!
