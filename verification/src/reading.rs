//! What is written down is read again: numbers, endpoints, fields of forms,
//! escaped text and the first lines of requests.
use crate::app_edge;
use crate::app_edge::UpdateView;
use crate::forms;
use crate::hosts;
use crate::http;
use crate::http::RequestLineView;
use crate::layout;
use crate::model;
use crate::numbers;
use crate::routing;
use crate::routing::ResolvedHostView;
use crate::text;
use crate::totp;
use crate::types::{HostAddr, PeerAddr, Uuid};
use crate::wire;
use vstd::prelude::*;
use vstd::string::*;

verus! {

/// A text does not have a character.
pub open spec fn free_of(s: Seq<char>, c: char) -> bool {
    forall|i: int| 0 <= i < s.len() ==> #[trigger] s[i] != c
}

/// A number that is written in decimal is read as the number: by digits alone,
/// with none too many.
pub proof fn law_number_reads_back(n: nat)
    ensures
        numbers::number_in(text::dec(n)) == Some(n),
        numbers::all_digits(text::dec(n)),
        text::dec(n).len() > 0,
        n >= 10 ==> text::dec(n)[0] != '0',
        n < 1000 ==> text::dec(n).len() <= 3,
    decreases n,
{
    lemma_dec(n);
    let s = text::dec(n);
    assert(numbers::is_digit(s[0]));
    assert(s[0] != '+');
}

proof fn lemma_digit(d: nat)
    requires
        d < 10,
    ensures
        numbers::is_digit(text::digit(d)),
        text::digit(d) as nat == 48 + d,
        d > 0 ==> text::digit(d) != '0',
{
}

proof fn lemma_dec(n: nat)
    ensures
        numbers::all_digits(text::dec(n)),
        numbers::digits_value(text::dec(n)) == n,
        text::dec(n).len() > 0,
        n > 0 ==> text::dec(n)[0] != '0',
        n < 1000 ==> text::dec(n).len() <= 3,
        n < 100 ==> text::dec(n).len() <= 2,
        n < 10 ==> text::dec(n).len() == 1,
    decreases n,
{
    let s = text::dec(n);
    if n < 10 {
        lemma_digit(n);
        assert(s.drop_last() =~= Seq::empty());
        assert(numbers::digits_value(s.drop_last()) == 0);
    } else {
        let t = text::dec(n / 10);
        lemma_dec(n / 10);
        lemma_digit(n % 10);
        assert(s.drop_last() =~= t);
        assert forall|i: int| 0 <= i < s.len() implies numbers::is_digit(#[trigger] s[i]) by {
            if i < t.len() {
                assert(s[i] == t[i]);
            }
        }
    }
}

proof fn lemma_split_tail(s: Seq<char>, sep: char, t: Seq<char>)
    requires
        free_of(t, sep),
    ensures
        text::split(s + seq![sep] + t, sep) == text::split(s, sep).push(t),
    decreases t.len(),
{
    let all = s + seq![sep] + t;
    if t.len() == 0 {
        assert(all.drop_last() =~= s);
        assert(all.last() == sep);
        assert(t =~= Seq::empty());
    } else {
        let u = t.drop_last();
        assert forall|i: int| 0 <= i < u.len() implies #[trigger] u[i] != sep by {
            assert(u[i] == t[i]);
        }
        lemma_split_tail(s, sep, u);
        assert(all.drop_last() =~= s + seq![sep] + u);
        assert(all.last() == t[t.len() - 1]);
        let r = text::split(s, sep).push(u);
        assert(r.drop_last() =~= text::split(s, sep));
        assert(u.push(t.last()) =~= t);
    }
}

proof fn lemma_split_one(s: Seq<char>, sep: char)
    requires
        free_of(s, sep),
    ensures
        text::split(s, sep) == seq![s],
    decreases s.len(),
{
    if s.len() > 0 {
        let t = s.drop_last();
        assert forall|i: int| 0 <= i < t.len() implies #[trigger] t[i] != sep by {
            assert(t[i] == s[i]);
        }
        lemma_split_one(t, sep);
        assert(s[s.len() - 1] != sep);
        assert(t.push(s.last()) =~= s);
        assert(text::split(s, sep) =~= seq![s]);
    } else {
        assert(s =~= Seq::empty());
    }
}

/// Pieces that are written with a separator between them are read as the pieces.
pub proof fn law_pieces_read_back(parts: Seq<Seq<char>>, sep: char)
    requires
        parts.len() > 0,
        forall|i: int| 0 <= i < parts.len() ==> free_of(#[trigger] parts[i], sep),
    ensures
        text::split(text::joined(parts, seq![sep]), sep) == parts,
    decreases parts.len(),
{
    if parts.len() == 1 {
        lemma_split_one(parts[0], sep);
        assert(parts =~= seq![parts[0]]);
    } else {
        let t = parts.drop_last();
        assert forall|i: int| 0 <= i < t.len() implies free_of(#[trigger] t[i], sep) by {
            assert(t[i] == parts[i]);
        }
        law_pieces_read_back(t, sep);
        let last = parts[parts.len() - 1];
        lemma_split_tail(text::joined(t, seq![sep]), sep, last);
        assert(t.push(last) =~= parts);
    }
}

proof fn lemma_octet(b: u8)
    ensures
        hosts::octet_in(text::dec(b as nat)) == Some(b),
        free_of(text::dec(b as nat), '.'),
        free_of(text::dec(b as nat), ':'),
{
    lemma_dec(b as nat);
    lemma_no_marks(b as nat);
}

proof fn lemma_no_marks(n: nat)
    ensures
        free_of(text::dec(n), '.'),
        free_of(text::dec(n), ':'),
{
    lemma_dec(n);
    let s = text::dec(n);
    assert forall|i: int| 0 <= i < s.len() implies #[trigger] s[i] != '.' && s[i] != ':' by {
        assert(numbers::is_digit(s[i]));
    }
}

proof fn lemma_last_colon(s: Seq<char>, t: Seq<char>)
    requires
        free_of(t, ':'),
    ensures
        hosts::last_colon(s + seq![':'] + t) == Some(s.len() as int),
    decreases t.len(),
{
    let all = s + seq![':'] + t;
    if t.len() == 0 {
        assert(all.last() == ':');
    } else {
        let u = t.drop_last();
        assert forall|i: int| 0 <= i < u.len() implies #[trigger] u[i] != ':' by {
            assert(u[i] == t[i]);
        }
        lemma_last_colon(s, u);
        assert(all.drop_last() =~= s + seq![':'] + u);
        assert(all.last() == t[t.len() - 1]);
    }
}

/// An endpoint that is shown is read as the endpoint.
pub proof fn law_endpoint_reads_back(h: HostAddr)
    ensures
        hosts::literal_host(layout::host_text(h)) == Some(h),
{
    reveal_strlit(".");
    reveal_strlit(":");
    let a = text::dec(h.ip.a as nat);
    let b = text::dec(h.ip.b as nat);
    let c = text::dec(h.ip.c as nat);
    let d = text::dec(h.ip.d as nat);
    let p = text::dec(h.port as nat);
    let dot = seq!['.'];
    assert("."@ =~= dot);
    assert(":"@ =~= seq![':']);
    lemma_octet(h.ip.a);
    lemma_octet(h.ip.b);
    lemma_octet(h.ip.c);
    lemma_octet(h.ip.d);
    lemma_no_marks(h.port as nat);
    law_number_reads_back(h.port as nat);
    let ip = a + dot + b + dot + c + dot + d;
    lemma_split_one(a, '.');
    lemma_split_tail(a, '.', b);
    lemma_split_tail(a + dot + b, '.', c);
    lemma_split_tail(a + dot + b + dot + c, '.', d);
    let parts = text::split(ip, '.');
    assert(parts == seq![a].push(b).push(c).push(d));
    assert(hosts::ipv4_in(ip) == Some(h.ip));
    let s = layout::host_text(h);
    assert(s =~= ip + seq![':'] + p);
    lemma_last_colon(ip, p);
    assert(s.take(ip.len() as int) =~= ip);
    assert(s.skip(ip.len() + 1int) =~= p);
}

/// The value of a field is that of the first part of a form that has its name.
pub proof fn law_field_reads_back(
    parts: Seq<Seq<char>>,
    i: int,
    name: Seq<char>,
    value: Seq<char>,
)
    requires
        0 <= i < parts.len(),
        forall|k: int| 0 <= k < parts.len() ==> free_of(#[trigger] parts[k], '&'),
        parts[i] == name + seq!['='] + value,
        forall|k: int|
            0 <= k < i ==> (#[trigger] parts[k]).len() <= name.len() || parts[k].take(
                name.len() + 1int,
            ) != name + seq!['='],
    ensures
        forms::param_in(text::joined(parts, seq!['&']), name) == Some(value),
{
    law_pieces_read_back(parts, '&');
    let p = forms::names(name);
    let x = parts[i];
    assert(x.take(name.len() as int) =~= name);
    assert(x[name.len() as int] == '=');
    assert(p(x));
    assert forall|k: int| 0 <= k < i implies !p(#[trigger] parts[k]) by {
        if p(parts[k]) {
            assert(parts[k].take(name.len() + 1int) =~= name + seq!['=']);
        }
    }
    model::lemma_first_at(parts, p, i);
    assert(x.skip(name.len() + 1int) =~= value);
}

/// A field that no part of a form has is not there.
pub proof fn law_missing_field(parts: Seq<Seq<char>>, name: Seq<char>)
    requires
        parts.len() > 0,
        forall|k: int| 0 <= k < parts.len() ==> free_of(#[trigger] parts[k], '&'),
        forall|k: int|
            0 <= k < parts.len() ==> (#[trigger] parts[k]).len() <= name.len() || parts[k].take(
                name.len() + 1int,
            ) != name + seq!['='],
    ensures
        forms::param_in(text::joined(parts, seq!['&']), name) is None,
{
    law_pieces_read_back(parts, '&');
    let p = forms::names(name);
    assert forall|k: int| 0 <= k < parts.len() implies !p(#[trigger] parts[k]) by {
        if p(parts[k]) {
            assert(parts[k].take(name.len() + 1int) =~= name + seq!['=']);
        }
    }
    model::lemma_first_none(parts, p);
}

proof fn lemma_url_front(s: Seq<u8>)
    requires
        s.len() > 0,
    ensures
        totp::url_bytes(s) == totp::url_byte(s[0]) + totp::url_bytes(s.skip(1)),
    decreases s.len(),
{
    let t = s.drop_last();
    if t.len() > 0 {
        lemma_url_front(t);
        assert(t.skip(1) =~= s.skip(1).drop_last());
        let a = totp::url_byte(s[0]);
        let b = totp::url_bytes(t.skip(1));
        let c = totp::url_byte(s.last());
        assert((a + b) + c =~= a + (b + c));
        assert(s.skip(1).last() == s.last());
    } else {
        assert(t =~= Seq::empty());
        assert(s.skip(1) =~= Seq::empty());
        assert(totp::url_bytes(t) =~= Seq::empty());
        assert(totp::url_bytes(s) =~= totp::url_byte(s[0]));
        assert(totp::url_byte(s[0]) + totp::url_bytes(s.skip(1)) =~= totp::url_byte(s[0]));
    }
}

/// The bytes of text in which every character takes one.
pub open spec fn narrow(s: Seq<char>) -> Seq<u8> {
    Seq::new(s.len(), |i: int| s[i] as u8)
}

proof fn lemma_upper_hex(d: int)
    requires
        0 <= d < 16,
    ensures
        forms::nibble_of(totp::upper_hex(d) as u8) == Some(d as u8),
{
}

/// Bytes that are written for a URL are read as the bytes.
pub proof fn law_url_reads_back(b: Seq<u8>)
    ensures
        forms::unescaped(narrow(totp::url_bytes(b))) == b,
    decreases b.len(),
{
    let u = totp::url_bytes(b);
    if b.len() == 0 {
        assert(narrow(u) =~= Seq::empty());
        assert(b =~= Seq::empty());
    } else {
        let x = b[0];
        let t = b.skip(1);
        lemma_url_front(b);
        law_url_reads_back(t);
        let head = totp::url_byte(x);
        let rest = totp::url_bytes(t);
        let n = narrow(u);
        assert(n.skip(head.len() as int) =~= narrow(rest));
        if totp::unreserved(x) {
            assert(n[0] == x);
            assert(seq![x] + t =~= b);
        } else {
            lemma_upper_hex(x as int / 16);
            lemma_upper_hex(x as int % 16);
            assert(n[0] == 37);
            assert(n[1] == totp::upper_hex(x as int / 16) as u8);
            assert(n[2] == totp::upper_hex(x as int % 16) as u8);
            assert(n.len() > 2);
            assert(x == (x / 16) * 16 + x % 16);
            assert(seq![x] + t =~= b);
        }
    }
}


proof fn lemma_trim_end(s: Seq<char>, tail: Seq<char>)
    requires
        s.len() > 0,
        !text::is_space(s[0]),
        !text::is_space(s.last()),
        forall|i: int| 0 <= i < tail.len() ==> text::is_space(#[trigger] tail[i]),
    ensures
        text::trimmed(s + tail) == s,
    decreases tail.len(),
{
    let all = s + tail;
    assert(all[0] == s[0]);
    if tail.len() > 0 {
        let t = tail.drop_last();
        assert forall|i: int| 0 <= i < t.len() implies text::is_space(#[trigger] t[i]) by {
            assert(t[i] == tail[i]);
        }
        lemma_trim_end(s, t);
        assert(all.drop_last() =~= s + t);
        assert(all.last() == tail[tail.len() - 1]);
        assert((s + t)[0] == s[0]);
    } else {
        assert(all =~= s);
    }
}

/// The first line of a request is read as the method, the path and what follows
/// the first question mark, whatever the rest of the line and its end.
pub proof fn law_request_reads_back(
    method: Seq<char>,
    path: Seq<char>,
    query: Seq<char>,
    version: Seq<char>,
    end: Seq<char>,
)
    requires
        method.len() > 0,
        version.len() > 0,
        free_of(method, ' '),
        free_of(path, ' '),
        free_of(query, ' '),
        free_of(version, ' '),
        free_of(path, '?'),
        !text::is_space(method[0]),
        !text::is_space(version.last()),
        forall|i: int| 0 <= i < end.len() ==> text::is_space(#[trigger] end[i]),
    ensures
        http::request_in(
            method + seq![' '] + (path + seq!['?'] + query) + seq![' '] + version + end,
        ) == Some(RequestLineView { method, path, query }),
        http::request_in(method + seq![' '] + path + seq![' '] + version + end) == Some(
            RequestLineView { method, path, query: Seq::empty() },
        ),
{
    let raw = path + seq!['?'] + query;
    assert forall|i: int| 0 <= i < raw.len() implies #[trigger] raw[i] != ' ' by {
        if i < path.len() {
            assert(raw[i] == path[i]);
        } else if i > path.len() {
            assert(raw[i] == query[i - path.len() - 1]);
        }
    }
    lemma_request_line(method, raw, version, end);
    lemma_request_line(method, path, version, end);
    let q = http::is_char('?');
    assert(q(raw[path.len() as int]));
    assert forall|i: int| 0 <= i < path.len() implies !q(#[trigger] raw[i]) by {
        assert(raw[i] == path[i]);
    }
    model::lemma_first_at(raw, q, path.len() as int);
    assert(raw.take(path.len() as int) =~= path);
    assert(raw.skip(path.len() + 1int) =~= query);
    assert forall|i: int| 0 <= i < path.len() implies !q(#[trigger] path[i]) by {}
    model::lemma_first_none(path, q);
}

proof fn lemma_request_line(
    method: Seq<char>,
    raw: Seq<char>,
    version: Seq<char>,
    end: Seq<char>,
)
    requires
        method.len() > 0,
        version.len() > 0,
        free_of(method, ' '),
        free_of(raw, ' '),
        free_of(version, ' '),
        !text::is_space(method[0]),
        !text::is_space(version.last()),
        forall|i: int| 0 <= i < end.len() ==> text::is_space(#[trigger] end[i]),
    ensures
        text::split(
            text::trimmed(method + seq![' '] + raw + seq![' '] + version + end),
            ' ',
        ) == seq![method, raw, version],
{
    let line = method + seq![' '] + raw + seq![' '] + version;
    assert(line[0] == method[0]);
    assert(line.last() == version.last());
    lemma_trim_end(line, end);
    lemma_split_one(method, ' ');
    lemma_split_tail(method, ' ', raw);
    lemma_split_tail(method + seq![' '] + raw, ' ', version);
    assert(seq![method].push(raw).push(version) =~= seq![method, raw, version]);
}

/// A header is read by its name, in whatever case it is written, as what stands
/// behind it without the blanks at the ends; of two the later one counts.
pub proof fn law_header_reads_back(
    lines: Seq<Seq<char>>,
    name: Seq<char>,
    head: Seq<char>,
    value: Seq<char>,
)
    requires
        head.len() > 0,
        text::lowered(head) == name,
        !text::is_space(head[0]),
        value.len() > 0,
        !text::is_space(value.last()),
    ensures
        http::last_header(lines.push(head + value), name) == text::trimmed(value),
{
    let line = head + value;
    let all = lines.push(line);
    let none = Seq::<char>::empty();
    assert(line[0] == head[0]);
    assert(line.last() == value.last());
    lemma_trim_end(line, none);
    assert(line + none =~= line);
    assert(text::lowered(line).take(name.len() as int) =~= text::lowered(head));
    assert(all.last() == line);
    assert(line.skip(name.len() as int) =~= value);
    assert(http::is_header(name)(line));
}

/// A line that does not begin with the name does not count.
pub proof fn law_other_headers_do_not_count(
    lines: Seq<Seq<char>>,
    name: Seq<char>,
    line: Seq<char>,
)
    requires
        text::trimmed(line).len() < name.len() || text::lowered(
            text::trimmed(line).take(name.len() as int),
        ) != name,
    ensures
        http::last_header(lines.push(line), name) == http::last_header(lines, name),
{
    let t = text::trimmed(line);
    let all = lines.push(line);
    assert(all.last() == line);
    assert(all.drop_last() =~= lines);
    if t.len() >= name.len() {
        assert(text::lowered(t).take(name.len() as int) =~= text::lowered(
            t.take(name.len() as int),
        ));
    }
}

/// What a registration says is read as it was written: the name, the port and the
/// protocol, with the address that it came from. One that lacks any of them is
/// none.
pub proof fn law_registration_reads_back(
    alias: Seq<char>,
    port: u16,
    protocol: Seq<char>,
    from: HostAddr,
    rest: Seq<u8>,
)
    requires
        wire::short_text(alias),
        wire::short_text(protocol),
    ensures
        ({
            let d = wire::enc_str(alias) + (wire::enc_u16(port) + (wire::enc_str(protocol)
                + rest));
            let r = app_edge::parse_registration(d, PeerAddr::V4(from));
            let good = alias.len() > 0 && port != 0 && protocol.len() > 0;
            &&& r is Some <==> good
            &&& r matches Some(g) ==> g.alias == alias && g.protocol == protocol && g.host.ip
                == from.ip && g.host.port == port
        }),
{
    let a = wire::enc_str(alias);
    let b = wire::enc_u16(port);
    let c = wire::enc_str(protocol);
    let d = a + (b + (c + rest));
    wire::lemma_stands_whole(d);
    wire::lemma_stands_split(d, 0, a, b + (c + rest));
    wire::lemma_str(d, 0, alias);
    wire::lemma_stands_split(d, a.len() as int, b, c + rest);
    wire::lemma_u16(d, a.len() as int, port);
    wire::lemma_stands_split(d, a.len() + 2int, c, rest);
    wire::lemma_str(d, a.len() + 2int, protocol);
}

/// What an update says is read as it was written: the token, and a new name and a
/// new port where the flags announce them.
pub proof fn law_update_reads_back(token: Uuid, alias: Seq<char>, port: u16)
    requires
        wire::short_text(alias),
        alias.len() > 0,
    ensures
        app_edge::parse_update(token@ + seq![0u8]) == Some(
            UpdateView { token, alias: None, port: None },
        ),
        app_edge::parse_update(token@ + seq![1u8] + wire::enc_str(alias)) == Some(
            UpdateView { token, alias: Some(alias), port: None },
        ),
        app_edge::parse_update(token@ + seq![2u8] + wire::enc_u16(port)) == Some(
            UpdateView { token, alias: None, port: Some(port) },
        ),
        app_edge::parse_update(
            token@ + seq![3u8] + (wire::enc_str(alias) + wire::enc_u16(port)),
        ) == Some(UpdateView { token, alias: Some(alias), port: Some(port) }),
{
    assert(0u8 & 0x01 == 0 && 0u8 & 0x02 == 0) by (bit_vector);
    assert(1u8 & 0x01 != 0 && 1u8 & 0x02 == 0) by (bit_vector);
    assert(2u8 & 0x01 == 0 && 2u8 & 0x02 != 0) by (bit_vector);
    assert(3u8 & 0x01 != 0 && 3u8 & 0x02 != 0) by (bit_vector);
    wire::lemma_uuid_of(token);
    let a = wire::enc_str(alias);
    let p = wire::enc_u16(port);
    let d0 = token@ + seq![0u8];
    let d1 = token@ + seq![1u8] + a;
    let d2 = token@ + seq![2u8] + p;
    let d3 = token@ + seq![3u8] + (a + p);
    assert(d0.subrange(0, 16) =~= token@);
    assert(d1.subrange(0, 16) =~= token@);
    assert(d2.subrange(0, 16) =~= token@);
    assert(d3.subrange(0, 16) =~= token@);
    assert(d0[16] == 0 && d1[16] == 1 && d2[16] == 2 && d3[16] == 3);
    assert(d1.subrange(17, 17int + a.len()) =~= a);
    wire::lemma_str(d1, 17, alias);
    assert(d2.subrange(17, 19) =~= p);
    wire::lemma_u16(d2, 17, port);
    assert(d3.subrange(17, 17int + (a + p).len()) =~= a + p);
    wire::lemma_stands_split(d3, 17, a, p);
    wire::lemma_str(d3, 17, alias);
    wire::lemma_u16(d3, 17int + a.len(), port);
}

/// The first entry for a host.
pub open spec fn found_for(cache: Seq<ResolvedHostView>, host: Seq<char>, i: int) -> bool {
    &&& 0 <= i < cache.len()
    &&& cache[i].host == host
    &&& forall|j: int| 0 <= j < i ==> (#[trigger] cache[j]).host != host
}

/// An endpoint that is written down stands for itself, and a name for the first
/// thing that was found for it; a name for which nothing was found for nothing.
pub proof fn law_hosts_resolve(
    cache: Seq<ResolvedHostView>,
    h: HostAddr,
    name: Seq<char>,
    i: int,
)
    ensures
        routing::resolved(cache, layout::host_text(h)) == Some(h),
        hosts::literal_host(name) is None && found_for(cache, name, i) ==> routing::resolved(
            cache,
            name,
        ) == Some(cache[i].addr),
        hosts::literal_host(name) is None && (forall|j: int|
            0 <= j < cache.len() ==> (#[trigger] cache[j]).host != name) ==> routing::resolved(
            cache,
            name,
        ) is None,
{
    law_endpoint_reads_back(h);
    let p = routing::resolves(name);
    if found_for(cache, name, i) {
        assert(p(cache[i]));
        assert forall|j: int| 0 <= j < i implies !p(#[trigger] cache[j]) by {}
        model::lemma_first_at(cache, p, i);
    }
    if forall|j: int| 0 <= j < cache.len() ==> (#[trigger] cache[j]).host != name {
        assert forall|j: int| 0 <= j < cache.len() implies !p(#[trigger] cache[j]) by {}
        model::lemma_first_none(cache, p);
    }
}

/// Of several hosts the first that resolves is taken.
pub proof fn law_first_host_that_resolves(
    cache: Seq<ResolvedHostView>,
    entries: Seq<Seq<char>>,
    i: int,
)
    requires
        0 <= i < entries.len(),
        routing::resolved(cache, entries[i]) is Some,
        forall|j: int| 0 <= j < i ==> routing::resolved(cache, #[trigger] entries[j]) is None,
    ensures
        routing::first_resolved(cache, entries) == routing::resolved(cache, entries[i]),
{
    let p = routing::is_resolved(cache);
    assert(p(entries[i]));
    assert forall|j: int| 0 <= j < i implies !p(#[trigger] entries[j]) by {}
    model::lemma_first_at(entries, p, i);
}

/// As much of a body is read as the last header on its length says, up to a bound,
/// and nothing where no number says so.
pub proof fn law_body_is_read(lines: Seq<Seq<char>>, n: nat)
    requires
        n <= usize::MAX,
    ensures
        http::last_header(lines, "content-length:"@) == text::dec(n) ==> http::length_to_read(lines)
            == (if n < 65536 {
            n
        } else {
            65536
        }),
        http::last_header(lines, "content-length:"@).len() == 0 ==> http::length_to_read(lines)
            == 0,
{
    law_number_reads_back(n);
}

/// A port is the one that its digits give, and another where nothing is given or
/// what is given is no number.
pub proof fn law_port_reads_back(port: u16, other: u16, s: Seq<char>)
    ensures
        hosts::port_or(Some(text::dec(port as nat)), other) == port,
        hosts::port_or(None, other) == other,
        numbers::number_in(s) is None ==> hosts::port_or(Some(s), other) == other,
        numbers::number_in(s) matches Some(n) && n > 65535 ==> hosts::port_or(Some(s), other)
            == other,
{
    law_number_reads_back(port as nat);
}

} // verus!
