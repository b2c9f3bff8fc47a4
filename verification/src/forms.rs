//! Reading forms and queries, and writing text into pages.
use crate::model;
use crate::text;
use crate::text::{blank, chars_of, put, split_text, string_of, utf8_text};
use crate::types::{nil, Uuid};
use crate::wire;
use vstd::prelude::*;

verus! {

/// The text begins with `name` and an equals sign.
pub open spec fn names(name: Seq<char>) -> spec_fn(Seq<char>) -> bool {
    |part: Seq<char>|
        part.len() > name.len() && part.take(name.len() as int) == name && part[name.len() as int]
            == '='
}

/// The value of the first `name=value` between ampersands.
pub open spec fn param_in(text: Seq<char>, name: Seq<char>) -> Option<Seq<char>> {
    let parts = text::split(text, '&');
    match model::first_where(parts, names(name)) {
        Some(i) => Some(parts[i].skip(name.len() + 1int)),
        None => None,
    }
}

fn is_named(part: &String, name: &str) -> (r: Option<String>)
    ensures
        match r {
            Some(v) => names(name@)(part@) && v@ == part@.skip(name@.len() + 1int),
            None => !names(name@)(part@),
        },
{
    let p = chars_of(part.as_str());
    let n = chars_of(name);
    if p.len() <= n.len() {
        return None;
    }
    let mut i: usize = 0;
    while i < n.len()
        invariant
            i <= n@.len() < p@.len(),
            p@ == part@,
            n@ == name@,
            forall|j: int| 0 <= j < i ==> p@[j] == n@[j],
        decreases n@.len() - i,
    {
        if p[i] != n[i] {
            assert(part@.take(name@.len() as int)[i as int] != name@[i as int]);
            return None;
        }
        i += 1;
    }
    assert(part@.take(name@.len() as int) =~= name@);
    if p[n.len()] != '=' {
        return None;
    }
    let v = string_of(&p, n.len() + 1, p.len());
    assert(v@ =~= part@.skip(name@.len() + 1int));
    Some(v)
}

/// The value of a parameter of a query.
pub fn query_param(query: &str, key: &str) -> (r: Option<String>)
    ensures
        match param_in(query@, key@) {
            Some(v) => r matches Some(x) && x@ == v,
            None => r is None,
        },
{
    broadcast use model::group_views;

    let parts = split_text(query, '&');
    let ghost s = text::split(query@, '&');
    let mut i: usize = 0;
    while i < parts.len()
        invariant
            i <= parts@.len(),
            s == model::views(parts@),
            s == text::split(query@, '&'),
            forall|j: int| 0 <= j < i ==> !names(key@)(#[trigger] s[j]),
        decreases parts@.len() - i,
    {
        let v = is_named(&parts[i], key);
        if v.is_some() {
            proof {
                assert(names(key@)(s[i as int]));
                model::lemma_first_at(s, names(key@), i as int);
            }
            return v;
        }
        assert(!names(key@)(s[i as int]));
        i += 1;
    }
    proof {
        model::lemma_first_none(s, names(key@));
    }
    None
}

/// The value of a field of a form; `None` also where the form is not text.
pub open spec fn field_in(body: Seq<u8>, name: Seq<char>) -> Option<Seq<char>> {
    if vstd::utf8::valid_utf8(body) {
        param_in(vstd::utf8::decode_utf8(body), name)
    } else {
        None
    }
}

/// The value of a field of a form, still encoded.
pub fn form_field(body: &[u8], field: &str) -> (r: Option<String>)
    ensures
        match field_in(body@, field@) {
            Some(v) => r matches Some(x) && x@ == v,
            None => r is None,
        },
{
    match utf8_text(body) {
        Some(s) => query_param(s, field),
        None => None,
    }
}

/// What a hexadecimal digit stands for.
pub open spec fn nibble_of(b: u8) -> Option<u8> {
    if 48 <= b <= 57 {
        Some((b - 48) as u8)
    } else if 97 <= b <= 102 {
        Some((b - 87) as u8)
    } else if 65 <= b <= 70 {
        Some((b - 55) as u8)
    } else {
        None
    }
}

/// What a hexadecimal digit stands for.
pub fn hex_nibble(b: u8) -> (r: Option<u8>)
    ensures
        r == nibble_of(b),
        r is Some ==> r->0 < 16,
{
    if 48 <= b && b <= 57 {
        Some(b - 48)
    } else if 97 <= b && b <= 102 {
        Some(b - 87)
    } else if 65 <= b && b <= 70 {
        Some(b - 55)
    } else {
        None
    }
}

/// The bytes behind a form value: a plus sign is a space, and a percent sign with
/// two hexadecimal digits is the byte that they write.
pub open spec fn unescaped(b: Seq<u8>) -> Seq<u8>
    decreases b.len(),
{
    if b.len() == 0 {
        Seq::empty()
    } else if b[0] == 43 {
        seq![32u8] + unescaped(b.skip(1))
    } else if b[0] == 37 && b.len() > 2 && nibble_of(b[1]) is Some && nibble_of(b[2]) is Some {
        seq![(nibble_of(b[1]).unwrap() * 16 + nibble_of(b[2]).unwrap()) as u8] + unescaped(
            b.skip(3),
        )
    } else {
        seq![b[0]] + unescaped(b.skip(1))
    }
}

/// The bytes behind a form value.
pub fn url_decode_bytes(b: &[u8]) -> (r: Vec<u8>)
    ensures
        r@ == unescaped(b@),
{
    let mut out: Vec<u8> = Vec::new();
    let n: usize = b.len();
    let mut i: usize = 0;
    assert(b@.skip(0) =~= b@);
    assert(out@ + unescaped(b@) =~= unescaped(b@));
    while i < n
        invariant
            i <= n == b@.len(),
            out@ + unescaped(b@.skip(i as int)) == unescaped(b@),
        decreases n - i,
    {
        let ghost rest = b@.skip(i as int);
        let ghost before = out@;
        proof {
            assert(rest[0] == b@[i as int]);
            assert(rest.skip(1) =~= b@.skip(i + 1));
        }
        if b[i] == 43 {
            out.push(32);
            assert(before.push(32) + unescaped(rest.skip(1)) =~= before + (seq![32u8] + unescaped(
                rest.skip(1),
            )));
            i += 1;
        } else {
            let mut done = false;
            if b[i] == 37 && n - i > 2 {
                proof {
                    assert(rest[1] == b@[i + 1]);
                    assert(rest[2] == b@[i + 2]);
                    assert(rest.skip(3) =~= b@.skip(i + 3));
                }
                if let Some(hi) = hex_nibble(b[i + 1]) {
                    if let Some(lo) = hex_nibble(b[i + 2]) {
                        let x: u8 = hi * 16 + lo;
                        out.push(x);
                        assert(before.push(x) + unescaped(rest.skip(3)) =~= before + (seq![x]
                            + unescaped(rest.skip(3))));
                        i += 3;
                        done = true;
                    }
                }
            }
            if !done {
                let x: u8 = b[i];
                out.push(x);
                assert(before.push(x) + unescaped(rest.skip(1)) =~= before + (seq![x] + unescaped(
                    rest.skip(1),
                )));
                i += 1;
            }
        }
    }
    assert(b@.skip(n as int) =~= Seq::empty());
    assert(out@ + Seq::<u8>::empty() =~= out@);
    out
}

/// A character for each byte.
pub open spec fn as_chars(b: Seq<u8>) -> Seq<char> {
    Seq::new(b.len(), |i: int| b[i] as char)
}

/// A form value, decoded: each byte behind it is one character.
pub open spec fn url_decoded(s: Seq<char>) -> Seq<char> {
    as_chars(unescaped(vstd::utf8::encode_utf8(s)))
}

/// Decodes a form value.
pub fn url_decode(s: &str) -> (r: String)
    ensures
        r@ == url_decoded(s@),
{
    let b = url_decode_bytes(s.as_bytes());
    let mut out = String::new();
    let mut i: usize = 0;
    while i < b.len()
        invariant
            i <= b@.len(),
            out@ == as_chars(b@).take(i as int),
        decreases b@.len() - i,
    {
        out.push(b[i] as char);
        proof {
            model::lemma_take_push(as_chars(b@), i as int);
        }
        i += 1;
    }
    assert(as_chars(b@).take(b@.len() as int) =~= as_chars(b@));
    out
}

/// The value of a field of a form, decoded; nothing where there is none.
pub open spec fn field_or_blank(body: Seq<u8>, name: Seq<char>) -> Seq<char> {
    match field_in(body, name) {
        Some(v) => url_decoded(v),
        None => Seq::empty(),
    }
}

/// The value of a field of a form, decoded; nothing where there is none.
pub fn decoded_field(body: &[u8], name: &str) -> (r: String)
    ensures
        r@ == field_or_blank(body@, name@),
{
    match form_field(body, name) {
        Some(v) => url_decode(v.as_str()),
        None => blank(),
    }
}

/// How a character is written into a page. `quote` tells whether an apostrophe
/// is written out too.
pub open spec fn escape(c: char, quote: bool) -> Seq<char> {
    if c == '&' {
        "&amp;"@
    } else if c == '<' {
        "&lt;"@
    } else if c == '>' {
        "&gt;"@
    } else if c == '"' {
        "&quot;"@
    } else if c == '\'' && quote {
        "&#39;"@
    } else {
        seq![c]
    }
}

/// How text is written into a page.
pub open spec fn escaped_with(s: Seq<char>, quote: bool) -> Seq<char>
    decreases s.len(),
{
    if s.len() == 0 {
        Seq::empty()
    } else {
        escaped_with(s.drop_last(), quote) + escape(s.last(), quote)
    }
}

/// How text is written into a page.
pub open spec fn escaped(s: Seq<char>) -> Seq<char> {
    escaped_with(s, false)
}

fn escape_text(s: &str, quote: bool) -> (r: String)
    ensures
        r@ == escaped_with(s@, quote),
{
    let v = chars_of(s);
    let mut out = String::new();
    let mut i: usize = 0;
    assert(v@.take(0) =~= Seq::empty());
    assert(out@ =~= escaped_with(v@.take(0), quote));
    while i < v.len()
        invariant
            i <= v@.len(),
            out@ == escaped_with(v@.take(i as int), quote),
        decreases v@.len() - i,
    {
        proof {
            assert(v@.take(i + 1).drop_last() =~= v@.take(i as int));
            assert(v@.take(i + 1).last() == v@[i as int]);
        }
        let c = v[i];
        let ghost before = out@;
        if c == '&' {
            put(&mut out, "&amp;");
        } else if c == '<' {
            put(&mut out, "&lt;");
        } else if c == '>' {
            put(&mut out, "&gt;");
        } else if c == '"' {
            put(&mut out, "&quot;");
        } else if c == '\'' && quote {
            put(&mut out, "&#39;");
        } else {
            out.push(c);
            assert(out@ =~= before + seq![c]);
        }
        i += 1;
    }
    assert(v@.take(v@.len() as int) =~= v@);
    out
}

/// Text so that it can stand in a page.
pub fn html_escape(s: &str) -> (r: String)
    ensures
        r@ == escaped(s@),
{
    escape_text(s, false)
}

/// Text so that it can stand in a page, apostrophes written out too.
pub fn html_escape_quotes(s: &str) -> (r: String)
    ensures
        r@ == escaped_with(s@, true),
{
    escape_text(s, true)
}

/// Escaped text holds no character that opens or closes a tag, nor a quotation
/// mark.
pub proof fn law_escaped_is_inert(s: Seq<char>, quote: bool, i: int)
    requires
        0 <= i < escaped_with(s, quote).len(),
    ensures
        escaped_with(s, quote)[i] != '<',
        escaped_with(s, quote)[i] != '>',
        escaped_with(s, quote)[i] != '"',
        quote ==> escaped_with(s, quote)[i] != '\'',
    decreases s.len(),
{
    reveal_strlit("&amp;");
    reveal_strlit("&lt;");
    reveal_strlit("&gt;");
    reveal_strlit("&quot;");
    reveal_strlit("&#39;");
    if s.len() > 0 {
        let t = escaped_with(s.drop_last(), quote);
        if i < t.len() {
            law_escaped_is_inert(s.drop_last(), quote, i);
        } else {
            assert(escaped_with(s, quote)[i] == escape(s.last(), quote)[i - t.len()]);
        }
    }
}

/// The two hexadecimal digits of a byte.
pub open spec fn hex_pair(b: u8) -> Seq<char> {
    seq![hex_char(b as int / 16), hex_char(b as int % 16)]
}

pub open spec fn hex_char(d: int) -> char {
    if d < 10 {
        (48 + d) as char
    } else {
        (87 + d) as char
    }
}

/// Bytes in hexadecimal.
pub open spec fn hex_of(s: Seq<u8>) -> Seq<char>
    decreases s.len(),
{
    if s.len() == 0 {
        Seq::empty()
    } else {
        hex_of(s.drop_last()) + hex_pair(s.last())
    }
}

/// Every byte takes two digits.
pub proof fn lemma_hex_len(s: Seq<u8>)
    ensures
        hex_of(s).len() == 2 * s.len(),
    decreases s.len(),
{
    if s.len() > 0 {
        lemma_hex_len(s.drop_last());
    }
}

fn hex_digit_char(d: u8) -> (r: char)
    requires
        d < 16,
    ensures
        r == hex_char(d as int),
{
    if d < 10 {
        (48 + d) as char
    } else {
        (87 + d) as char
    }
}

/// Bytes in hexadecimal.
pub fn hex_bytes(b: &[u8]) -> (r: String)
    ensures
        r@ == hex_of(b@),
{
    let mut out = String::new();
    let mut i: usize = 0;
    assert(b@.take(0) =~= Seq::empty());
    assert(out@ =~= hex_of(b@.take(0)));
    while i < b.len()
        invariant
            i <= b@.len(),
            out@ == hex_of(b@.take(i as int)),
        decreases b@.len() - i,
    {
        proof {
            assert(b@.take(i + 1).drop_last() =~= b@.take(i as int));
            assert(b@.take(i + 1).last() == b@[i as int]);
        }
        let ghost before = out@;
        out.push(hex_digit_char(b[i] / 16));
        out.push(hex_digit_char(b[i] % 16));
        assert(out@ =~= before + hex_pair(b@[i as int]));
        i += 1;
    }
    assert(b@.take(b@.len() as int) =~= b@);
    out
}

/// An identifier in hexadecimal.
pub fn uuid_hex(u: &Uuid) -> (r: String)
    ensures
        r@ == hex_of(u@),
{
    hex_bytes(u.as_slice())
}

/// Byte `i` of the bytes that hexadecimal digits write.
pub open spec fn hex_byte_at(b: Seq<u8>, i: int) -> Option<u8> {
    match (nibble_of(b[2 * i]), nibble_of(b[2 * i + 1])) {
        (Some(hi), Some(lo)) => Some((hi * 16 + lo) as u8),
        _ => None,
    }
}

/// The identifier that 32 hexadecimal digits write.
pub open spec fn uuid_in(s: Seq<char>) -> Option<Uuid> {
    let b = vstd::utf8::encode_utf8(s);
    if b.len() == 32 && forall|i: int| 0 <= i < 16 ==> #[trigger] hex_byte_at(b, i) is Some {
        Some(wire::uuid_of(Seq::new(16, |i: int| hex_byte_at(b, i).unwrap())))
    } else {
        None
    }
}

/// The identifier that 32 hexadecimal digits write.
pub fn uuid_from_hex(s: &str) -> (r: Option<Uuid>)
    ensures
        r == uuid_in(s@),
{
    let b = s.as_bytes();
    if b.len() != 32 {
        return None;
    }
    let mut u: Uuid = nil();
    let mut i: usize = 0;
    while i < 16
        invariant
            i <= 16,
            b@.len() == 32,
            b@ == vstd::utf8::encode_utf8(s@),
            forall|k: int| 0 <= k < i ==> #[trigger] hex_byte_at(b@, k) == Some(u@[k]),
        decreases 16 - i,
    {
        let hi = hex_nibble(b[2 * i]);
        let lo = hex_nibble(b[2 * i + 1]);
        match (hi, lo) {
            (Some(h), Some(l)) => {
                u[i] = h * 16 + l;
            },
            _ => {
                assert(hex_byte_at(b@, i as int) is None);
                return None;
            },
        }
        i += 1;
    }
    proof {
        let t = Seq::new(16, |i: int| hex_byte_at(b@, i).unwrap());
        assert forall|k: int| 0 <= k < 16 implies t[k] == u@[k] by {
            assert(hex_byte_at(b@, k) == Some(u@[k]));
        }
        assert(t =~= u@);
        wire::lemma_uuid_of(u);
    }
    Some(u)
}

proof fn lemma_hex_at(s: Seq<u8>, i: int)
    requires
        0 <= i < s.len(),
    ensures
        hex_of(s).len() == 2 * s.len(),
        hex_of(s)[2 * i] == hex_char(s[i] as int / 16),
        hex_of(s)[2 * i + 1] == hex_char(s[i] as int % 16),
    decreases s.len(),
{
    let t = s.drop_last();
    lemma_hex_len(t);
    assert(hex_of(s) == hex_of(t) + hex_pair(s.last()));
    if i < t.len() {
        lemma_hex_at(t, i);
        assert(hex_of(s)[2 * i] == hex_of(t)[2 * i]);
        assert(hex_of(s)[2 * i + 1] == hex_of(t)[2 * i + 1]);
    } else {
        assert(hex_of(s)[2 * i] == hex_pair(s.last())[0]);
        assert(hex_of(s)[2 * i + 1] == hex_pair(s.last())[1]);
    }
}

/// The digits are plain letters and numbers, neither of which separates or
/// names the fields of a form.
proof fn lemma_hex_plain(s: Seq<u8>, k: int)
    requires
        0 <= k < hex_of(s).len(),
    ensures
        '0' <= hex_of(s)[k] <= '9' || 'a' <= hex_of(s)[k] <= 'f',
{
    lemma_hex_len(s);
    let i = k / 2;
    lemma_hex_at(s, i);
    if k % 2 == 0 {
        assert(k == 2 * i);
    } else {
        assert(k == 2 * i + 1);
    }
}

/// An identifier written in hexadecimal is read as it was written.
pub proof fn law_uuid_hex_roundtrip(u: Uuid)
    ensures
        uuid_in(hex_of(u@)) == Some(u),
{
    let h = hex_of(u@);
    let b = vstd::utf8::encode_utf8(h);
    lemma_hex_len(u@);
    assert forall|k: int| 0 <= k < h.len() implies '\0' <= #[trigger] h[k] <= '\u{7f}' by {
        lemma_hex_plain(u@, k);
    }
    vstd::utf8::is_ascii_chars_encode_utf8(h);
    assert forall|i: int| 0 <= i < 16 implies #[trigger] hex_byte_at(b, i) == Some(u@[i]) by {
        lemma_hex_at(u@, i);
        let x = u@[i];
        assert(b[2 * i] == h[2 * i] as u8);
        assert(b[2 * i + 1] == h[2 * i + 1] as u8);
        assert(nibble_of(b[2 * i]) == Some((x / 16) as u8));
        assert(nibble_of(b[2 * i + 1]) == Some((x % 16) as u8));
    }
    let t = Seq::new(16, |i: int| hex_byte_at(b, i).unwrap());
    assert forall|i: int| 0 <= i < 16 implies t[i] == u@[i] by {
        assert(hex_byte_at(b, i) == Some(u@[i]));
    }
    assert(t =~= u@);
    wire::lemma_uuid_of(u);
}

proof fn lemma_one_part(s: Seq<char>)
    requires
        forall|k: int| 0 <= k < s.len() ==> #[trigger] s[k] != '&',
    ensures
        text::split(s, '&') == seq![s],
    decreases s.len(),
{
    if s.len() > 0 {
        let t = s.drop_last();
        assert forall|k: int| 0 <= k < t.len() implies #[trigger] t[k] != '&' by {
            assert(s[k] != '&');
        }
        lemma_one_part(t);
        assert(s[s.len() - 1] != '&');
        assert(seq![t].last() == t);
        assert(t.push(s.last()) =~= s);
        assert(seq![t].drop_last().push(s) =~= seq![s]);
    } else {
        assert(s =~= Seq::empty());
    }
}

/// A form that names an identifier in hexadecimal, as the pages write it, names
/// that identifier.
pub proof fn law_form_names_uuid(name: Seq<char>, u: Uuid)
    requires
        forall|k: int| 0 <= k < name.len() ==> #[trigger] name[k] != '&',
    ensures
        field_in(vstd::utf8::encode_utf8(name + seq!['='] + hex_of(u@)), name) == Some(
            hex_of(u@),
        ),
        uuid_in(hex_of(u@)) == Some(u),
{
    let h = hex_of(u@);
    let s = name + seq!['='] + h;
    law_uuid_hex_roundtrip(u);
    vstd::utf8::encode_utf8_valid_utf8(s);
    vstd::utf8::encode_utf8_decode_utf8(s);
    assert forall|k: int| 0 <= k < s.len() implies #[trigger] s[k] != '&' by {
        if k < name.len() {
            assert(s[k] == name[k]);
        } else if k > name.len() {
            lemma_hex_plain(u@, k - name.len() - 1);
            assert(s[k] == h[k - name.len() - 1]);
        }
    }
    lemma_one_part(s);
    let parts = seq![s];
    assert(s.take(name.len() as int) =~= name);
    assert(names(name)(parts[0]));
    model::lemma_first_at(parts, names(name), 0);
    assert(s.skip(name.len() + 1int) =~= h);
}

} // verus!
