//! Invitation codes: what a server hands out so that a device or a contact can
//! find it and prove that it was invited.
use crate::device_wire;
use crate::device_wire::{push_hosts, read_hosts};
use crate::lists;
use crate::model;
use crate::text;
use crate::text::trim;
use crate::types::{PublicKey, Uuid};
use crate::wire;
use crate::wire::{push_key, push_uuid, read_key, read_uuid};
use base64::Engine;
use vstd::prelude::*;

verus! {

/// What `base64` writes for bytes, in the URL-safe alphabet without padding.
pub uninterp spec fn base64_text(bytes: Seq<u8>) -> Seq<char>;

/// What `base64` reads from text, in the URL-safe alphabet without padding;
/// `None` where it reports an error.
pub uninterp spec fn base64_bytes(text: Seq<char>) -> Option<Seq<u8>>;

/// A letter, a digit, `-` or `_`.
pub open spec fn url_safe(c: char) -> bool {
    ||| 'A' <= c <= 'Z'
    ||| 'a' <= c <= 'z'
    ||| '0' <= c <= '9'
    ||| c == '-'
    ||| c == '_'
}

/// Encodes bytes as text.
///
/// Calls `Engine::encode` of `base64` on `URL_SAFE_NO_PAD`. The text is a
/// function of the bytes, consists of the characters of the URL-safe alphabet
/// alone, and `Engine::decode` of the same engine gives the bytes back. The
/// bound on the length keeps the size of the text within what can be allocated.
#[verifier::external_body]
fn base64_encode(bytes: &[u8]) -> (r: String)
    requires
        bytes@.len() <= 0x4000_0000,
    ensures
        r@ == base64_text(bytes@),
        base64_bytes(r@) == Some(bytes@),
        forall|i: int| 0 <= i < r@.len() ==> url_safe(#[trigger] r@[i]),
{
    base64::engine::general_purpose::URL_SAFE_NO_PAD.encode(bytes)
}

/// Decodes text to bytes.
///
/// Calls `Engine::decode` of `base64` on `URL_SAFE_NO_PAD`. Whether it succeeds,
/// and what it gives, is a function of the text.
#[verifier::external_body]
fn base64_decode(text: &str) -> (r: Option<Vec<u8>>)
    ensures
        match base64_bytes(text@) {
            Some(b) => r matches Some(v) && v@ == b,
            None => r is None,
        },
{
    base64::engine::general_purpose::URL_SAFE_NO_PAD.decode(text).ok()
}

/// What an invitation code holds: the invitation, its key, and where the server
/// is found.
#[derive(Debug, PartialEq, Eq)]
pub struct InvitationCode {
    pub id: Uuid,
    pub public_key: PublicKey,
    pub hosts: Vec<String>,
}

#[verifier::ext_equal]
pub struct InvitationCodeView {
    pub id: Uuid,
    pub public_key: PublicKey,
    pub hosts: Seq<Seq<char>>,
}

impl View for InvitationCode {
    type V = InvitationCodeView;

    open spec fn view(&self) -> InvitationCodeView {
        InvitationCodeView {
            id: self.id,
            public_key: self.public_key,
            hosts: model::views(self.hosts@),
        }
    }
}

/// The layout of a code before it becomes text.
pub open spec fn enc_invitation(c: InvitationCodeView) -> Seq<u8> {
    c.id@ + (c.public_key@ + device_wire::enc_hosts(c.hosts))
}

pub open spec fn parse_invitation(d: Seq<u8>) -> Option<InvitationCodeView> {
    match wire::parse_uuid(d, 0) {
        Some((id, p)) => match wire::parse_key(d, p) {
            Some((public_key, q)) => match device_wire::parse_hosts(d, q) {
                Some((hosts, _)) => Some(InvitationCodeView { id, public_key, hosts }),
                None => None,
            },
            None => None,
        },
        None => None,
    }
}

/// A code comes back whole if it has at most 255 hosts, none longer than 255
/// bytes.
pub open spec fn plain_invitation(c: InvitationCodeView) -> bool {
    &&& c.hosts.len() <= 255
    &&& forall|i: int| 0 <= i < c.hosts.len() ==> wire::short_text(#[trigger] c.hosts[i])
}

/// The bytes of a code are read as they were written.
pub proof fn law_invitation_roundtrip(c: InvitationCodeView)
    requires
        plain_invitation(c),
    ensures
        parse_invitation(enc_invitation(c)) == Some(c),
{
    let d = enc_invitation(c);
    let h = device_wire::enc_hosts(c.hosts);
    wire::lemma_stands_whole(d);
    wire::lemma_stands_split(d, 0, c.id@, c.public_key@ + h);
    wire::lemma_uuid(d, 0, c.id);
    wire::lemma_stands_split(d, 16, c.public_key@, h);
    wire::lemma_key(d, 16, c.public_key);
    device_wire::lemma_hosts(d, 48, c.hosts);
}

/// The bytes of a code.
pub fn invitation_bytes(inv_id: &Uuid, inv_pk: &PublicKey, hosts: &Vec<String>) -> (r: Vec<u8>)
    ensures
        r@ == enc_invitation(
            (InvitationCodeView {
                id: *inv_id,
                public_key: *inv_pk,
                hosts: model::views(hosts@),
            }),
        ),
{
    let mut raw: Vec<u8> = Vec::new();
    push_uuid(&mut raw, inv_id);
    push_key(&mut raw, inv_pk);
    push_hosts(&mut raw, hosts);
    assert(raw@ =~= enc_invitation(
        (InvitationCodeView { id: *inv_id, public_key: *inv_pk, hosts: model::views(hosts@) }),
    ));
    raw
}

/// Reads the bytes of a code; `None` if they are truncated or a host is not
/// text.
pub fn read_invitation(raw: &[u8]) -> (r: Option<InvitationCode>)
    ensures
        match parse_invitation(raw@) {
            Some(c) => r matches Some(x) && x@ == c,
            None => r is None,
        },
{
    let mut pos: usize = 0;
    let id = match read_uuid(raw, &mut pos) {
        Some(u) => u,
        None => { return None; },
    };
    let public_key = match read_key(raw, &mut pos) {
        Some(k) => k,
        None => { return None; },
    };
    let hosts = match read_hosts(raw, &mut pos) {
        Some(h) => h,
        None => { return None; },
    };
    Some(InvitationCode { id, public_key, hosts })
}

/// What a code says, white space around it aside.
pub open spec fn code_says(code: Seq<char>) -> Option<InvitationCodeView> {
    match base64_bytes(text::trimmed(code)) {
        Some(raw) => parse_invitation(raw),
        None => None,
    }
}

/// An encoded text takes at most 256 bytes.
proof fn lemma_hosts_len(h: Seq<Seq<char>>)
    ensures
        lists::enc_all(h, device_wire::str_enc()).len() <= 256 * h.len(),
    decreases h.len(),
{
    if h.len() > 0 {
        lemma_hosts_len(h.drop_last());
    }
}

/// Writes an invitation code. Decoding it gives back what it was made of, if it
/// has at most 255 hosts, none longer than 255 bytes.
pub fn encode_invitation_code(inv_id: &Uuid, inv_pk: &PublicKey, hosts: &Vec<String>) -> (r: String)
    ensures
        ({
            let c = InvitationCodeView {
                id: *inv_id,
                public_key: *inv_pk,
                hosts: model::views(hosts@),
            };
            &&& r@ == base64_text(enc_invitation(c))
            &&& code_says(r@) == parse_invitation(enc_invitation(c))
            &&& plain_invitation(c) ==> code_says(r@) == Some(c)
        }),
{
    let raw = invitation_bytes(inv_id, inv_pk, hosts);
    let ghost c = InvitationCodeView {
        id: *inv_id,
        public_key: *inv_pk,
        hosts: model::views(hosts@),
    };
    proof {
        let n = wire::least(c.hosts.len() as int, 255);
        lemma_hosts_len(c.hosts.take(n));
    }
    let code = base64_encode(raw.as_slice());
    proof {
        assert forall|i: int| 0 <= i < code@.len() implies !text::is_space(#[trigger] code@[i]) by {
            assert(url_safe(code@[i]));
        }
        text::lemma_trimmed_same(code@);
        if plain_invitation(c) {
            law_invitation_roundtrip(c);
        }
    }
    code
}

/// Reads an invitation code; `None` if it is not one.
pub fn decode_invitation_code(code_str: &str) -> (r: Option<InvitationCode>)
    ensures
        match code_says(code_str@) {
            Some(c) => r matches Some(x) && x@ == c,
            None => r is None,
        },
{
    let code = trim(code_str);
    match base64_decode(code.as_str()) {
        Some(raw) => read_invitation(raw.as_slice()),
        None => None,
    }
}

} // verus!
