//! Requests and responses of the admin pages.
use crate::model;
use crate::numbers;
use crate::numbers::read_number;
use crate::text;
use crate::text::{blank, chars_of, lower_text, owned, put, put_dec, split_text, string_of, trim};
use vstd::prelude::*;
use vstd::string::*;

verus! {

/// What the first line of a request asks for.
#[derive(Debug, PartialEq, Eq)]
pub struct RequestLine {
    pub method: String,
    pub path: String,
    pub query: String,
}

#[verifier::ext_equal]
pub struct RequestLineView {
    pub method: Seq<char>,
    pub path: Seq<char>,
    pub query: Seq<char>,
}

impl View for RequestLine {
    type V = RequestLineView;

    open spec fn view(&self) -> RequestLineView {
        RequestLineView { method: self.method@, path: self.path@, query: self.query@ }
    }
}

pub open spec fn is_char(c: char) -> spec_fn(char) -> bool {
    |x: char| x == c
}

/// Where a character first stands.
pub open spec fn index_of_char(s: Seq<char>, c: char) -> Option<int> {
    model::first_where(s, is_char(c))
}

fn find_char(v: &Vec<char>, c: char) -> (r: Option<usize>)
    ensures
        match index_of_char(v@, c) {
            Some(i) => r == Some(i as usize) && i == r->0 && 0 <= i < v@.len(),
            None => r is None,
        },
{
    let ghost p = is_char(c);
    let mut i: usize = 0;
    while i < v.len()
        invariant
            i <= v@.len(),
            p == is_char(c),
            forall|j: int| 0 <= j < i ==> !p(#[trigger] v@[j]),
        decreases v@.len() - i,
    {
        if v[i] == c {
            proof {
                assert(p(v@[i as int]));
                model::lemma_first_at(v@, p, i as int);
            }
            return Some(i);
        }
        i += 1;
    }
    proof {
        model::lemma_first_none(v@, p);
    }
    None
}

/// A path with what follows its question mark.
pub open spec fn path_and_query(raw: Seq<char>) -> (Seq<char>, Seq<char>) {
    match index_of_char(raw, '?') {
        Some(i) => (raw.take(i), raw.skip(i + 1)),
        None => (raw, Seq::empty()),
    }
}

/// What the first line of a request asks for: a method, and behind a space a
/// path, perhaps with a query.
pub open spec fn request_in(line: Seq<char>) -> Option<RequestLineView> {
    let p = text::split(text::trimmed(line), ' ');
    if p.len() < 2 {
        None
    } else {
        let (path, query) = path_and_query(p[1]);
        Some(RequestLineView { method: p[0], path, query })
    }
}

/// Reads the first line of a request.
pub fn parse_request_line(line: &str) -> (r: Option<RequestLine>)
    ensures
        match request_in(line@) {
            Some(v) => r matches Some(x) && x@ == v,
            None => r is None,
        },
{
    broadcast use model::group_views;

    let parts = split_text(trim(line).as_str(), ' ');
    if parts.len() < 2 {
        return None;
    }
    let method = parts[0].clone();
    let raw = chars_of(parts[1].as_str());
    let n: usize = raw.len();
    match find_char(&raw, '?') {
        Some(i) => {
            let path = string_of(&raw, 0, i);
            let query = string_of(&raw, i + 1, n);
            proof {
                assert(path@ =~= raw@.take(i as int));
                assert(query@ =~= raw@.skip(i + 1));
            }
            Some(RequestLine { method, path, query })
        },
        None => {
            let path = parts[1].clone();
            let query = blank();
            Some(RequestLine { method, path, query })
        },
    }
}

/// A line that ends the headers.
pub open spec fn is_blank_line() -> spec_fn(Seq<char>) -> bool {
    |line: Seq<char>| text::trimmed(line).len() == 0
}

/// Whether a line ends the headers.
pub fn ends_headers(line: &str) -> (r: bool)
    ensures
        r == is_blank_line()(line@),
{
    trim(line).as_str().unicode_len() == 0
}

/// A line begins, apart from white space and the case of letters, with a name
/// and a colon. `name` is in lower case and ends in the colon.
pub open spec fn is_header(name: Seq<char>) -> spec_fn(Seq<char>) -> bool {
    |line: Seq<char>|
        {
            let t = text::lowered(text::trimmed(line));
            t.len() >= name.len() && t.take(name.len() as int) == name
        }
}

/// What stands behind the name of a header.
pub open spec fn header_value(name: Seq<char>, line: Seq<char>) -> Seq<char> {
    text::trimmed(text::trimmed(line).skip(name.len() as int))
}

/// The value of the last header of a name; nothing where there is none.
pub open spec fn last_header(lines: Seq<Seq<char>>, name: Seq<char>) -> Seq<char>
    decreases lines.len(),
{
    if lines.len() == 0 {
        Seq::empty()
    } else if is_header(name)(lines.last()) {
        header_value(name, lines.last())
    } else {
        last_header(lines.drop_last(), name)
    }
}

fn read_header(line: &String, name: &str) -> (r: Option<String>)
    ensures
        match r {
            Some(v) => is_header(name@)(line@) && v@ == header_value(name@, line@),
            None => !is_header(name@)(line@),
        },
{
    let t = trim(line.as_str());
    let v = chars_of(t.as_str());
    let l = chars_of(lower_text(t.as_str()).as_str());
    let n = chars_of(name);
    if l.len() < n.len() {
        return None;
    }
    let mut i: usize = 0;
    while i < n.len()
        invariant
            i <= n@.len() <= l@.len(),
            n@ == name@,
            l@ == text::lowered(text::trimmed(line@)),
            forall|j: int| 0 <= j < i ==> l@[j] == n@[j],
        decreases n@.len() - i,
    {
        if l[i] != n[i] {
            assert(l@.take(n@.len() as int)[i as int] != n@[i as int]);
            return None;
        }
        i += 1;
    }
    assert(l@.take(n@.len() as int) =~= n@);
    let rest = string_of(&v, n.len(), v.len());
    assert(rest@ =~= text::trimmed(line@).skip(name@.len() as int));
    Some(trim(rest.as_str()))
}

/// The value of the last header of a name; nothing where there is none. `name` is
/// in lower case and ends in a colon.
pub fn find_header(lines: &Vec<String>, name: &str) -> (r: String)
    ensures
        r@ == last_header(model::views(lines@), name@),
{
    broadcast use model::group_views;

    let ghost s = model::views(lines@);
    let mut i: usize = lines.len();
    assert(s.take(s.len() as int) =~= s);
    while i > 0
        invariant
            i <= lines@.len(),
            s == model::views(lines@),
            last_header(s, name@) == last_header(s.take(i as int), name@),
        decreases i,
    {
        proof {
            assert(s.take(i as int).last() == s[i - 1]);
            assert(s.take(i as int).drop_last() =~= s.take(i - 1));
        }
        if let Some(v) = read_header(&lines[i - 1], name) {
            return v;
        }
        i -= 1;
    }
    blank()
}

/// A body is read up to this length.
pub const MAX_BODY: usize = 65536;

/// How long a body is said to be; nothing where no number says so.
pub open spec fn said_length(lines: Seq<Seq<char>>) -> nat {
    match numbers::number_to(last_header(lines, "content-length:"@), usize::MAX as nat) {
        Some(n) => n,
        None => 0,
    }
}

/// How much of a body is read.
pub open spec fn length_to_read(lines: Seq<Seq<char>>) -> nat {
    if said_length(lines) < MAX_BODY {
        said_length(lines)
    } else {
        MAX_BODY as nat
    }
}

/// How much of the body to read: what the headers say, but no more than
/// [`MAX_BODY`].
pub fn body_len(lines: &Vec<String>) -> (r: usize)
    ensures
        r == length_to_read(model::views(lines@)),
{
    let v = find_header(lines, "content-length:");
    match read_number(v.as_str(), usize::MAX as u64) {
        Some(n) => if n < MAX_BODY as u64 {
            n as usize
        } else {
            MAX_BODY
        },
        None => 0,
    }
}

/// A response to a browser.
#[derive(Debug, PartialEq, Eq)]
pub enum Reply {
    /// A page, with a status.
    Page { status: u16, html: String },
    /// Another place to go to. `cookie` is blank or a session cookie to set,
    /// `code` an invitation code to hand to programs in a header of its own.
    Redirect { location: String, cookie: String, code: Option<String> },
}

#[verifier::ext_equal]
pub enum ReplyView {
    Page { status: u16, html: Seq<char> },
    Redirect { location: Seq<char>, cookie: Seq<char>, code: Option<Seq<char>> },
}

impl View for Reply {
    type V = ReplyView;

    open spec fn view(&self) -> ReplyView {
        match *self {
            Reply::Page { status, html } => ReplyView::Page { status, html: html@ },
            Reply::Redirect { location, cookie, code } => ReplyView::Redirect {
                location: location@,
                cookie: cookie@,
                code: crate::types::string_view(code),
            },
        }
    }
}

/// The words for a status.
pub open spec fn status_text(status: u16) -> Seq<char> {
    if status == 403 {
        "Forbidden"@
    } else if status == 404 {
        "Not Found"@
    } else {
        "OK"@
    }
}

/// The line that sets a cookie, if there is one.
pub open spec fn cookie_line(cookie: Seq<char>) -> Seq<char> {
    if cookie.len() == 0 {
        Seq::empty()
    } else {
        "Set-Cookie: "@ + cookie + "\r\n"@
    }
}

/// The line that carries an invitation code, if there is one.
pub open spec fn code_line(code: Option<Seq<char>>) -> Seq<char> {
    match code {
        Some(c) => "X-Pnet-Invitation-Code: "@ + c + "\r\n"@,
        None => Seq::empty(),
    }
}

/// A response as text.
pub open spec fn rendered(r: ReplyView) -> Seq<char> {
    match r {
        ReplyView::Page { status, html } => "HTTP/1.1 "@ + text::dec(status as nat) + " "@
            + status_text(status) + "\r\nContent-Type: text/html; charset=utf-8\r\n"@
            + "Content-Length: "@ + text::dec(vstd::utf8::encode_utf8(html).len())
            + "\r\nConnection: close\r\n\r\n"@ + html,
        ReplyView::Redirect { location, cookie, code } => "HTTP/1.1 302 Found\r\nLocation: "@
            + location + "\r\n"@ + cookie_line(cookie) + code_line(code)
            + "Content-Length: 0\r\nConnection: close\r\n\r\n"@,
    }
}

fn cookie_text(cookie: &String) -> (r: String)
    ensures
        r@ == cookie_line(cookie@),
{
    if cookie.as_str().unicode_len() == 0 {
        blank()
    } else {
        let mut s = owned("Set-Cookie: ");
        put(&mut s, cookie.as_str());
        put(&mut s, "\r\n");
        s
    }
}

fn code_text(code: &Option<String>) -> (r: String)
    ensures
        r@ == code_line(crate::types::string_view(*code)),
{
    match code {
        Some(c) => {
            let mut s = owned("X-Pnet-Invitation-Code: ");
            put(&mut s, c.as_str());
            put(&mut s, "\r\n");
            s
        },
        None => {
            blank()
        },
    }
}

/// A response as text. A page's length counts its bytes.
pub fn render_reply(reply: &Reply) -> (r: String)
    ensures
        r@ == rendered(reply@),
{
    match reply {
        Reply::Page { status, html } => {
            let mut s = owned("HTTP/1.1 ");
            put_dec(&mut s, *status as u64);
            put(&mut s, " ");
            if *status == 403 {
                put(&mut s, "Forbidden");
            } else if *status == 404 {
                put(&mut s, "Not Found");
            } else {
                put(&mut s, "OK");
            }
            put(&mut s, "\r\nContent-Type: text/html; charset=utf-8\r\n");
            put(&mut s, "Content-Length: ");
            let b = html.as_str().as_bytes();
            put_dec(&mut s, b.len() as u64);
            put(&mut s, "\r\nConnection: close\r\n\r\n");
            put(&mut s, html.as_str());
            s
        },
        Reply::Redirect { location, cookie, code } => {
            let mut s = owned("HTTP/1.1 302 Found\r\nLocation: ");
            put(&mut s, location.as_str());
            put(&mut s, "\r\n");
            put(&mut s, cookie_text(cookie).as_str());
            put(&mut s, code_text(code).as_str());
            put(&mut s, "Content-Length: 0\r\nConnection: close\r\n\r\n");
            s
        },
    }
}

/// A redirect without cookie or code.
pub open spec fn to(location: Seq<char>) -> ReplyView {
    ReplyView::Redirect { location, cookie: Seq::empty(), code: None }
}

/// A redirect without cookie or code.
pub fn redirect(location: &str) -> (r: Reply)
    ensures
        r@ == to(location@),
{
    let cookie = blank();
    Reply::Redirect { location: owned(location), cookie, code: None }
}

/// A place to go to, with an error code if there is one.
pub open spec fn with_error(base: Seq<char>, err: Option<Seq<char>>) -> Seq<char> {
    match err {
        Some(code) => base + "?error="@ + code,
        None => base,
    }
}

/// A place to go to, with an error code if there is one.
pub fn redirect_with_error(base: &str, err: Option<&str>) -> (r: String)
    ensures
        r@ == with_error(
            base@,
            match err {
                Some(code) => Some(code@),
                None => None,
            },
        ),
{
    let mut s = owned(base);
    if let Some(code) = err {
        put(&mut s, "?error=");
        put(&mut s, code);
    }
    s
}

} // verus!
