//! The binary layout of packets: op and result bytes, and the encoding of the
//! pieces that packet bodies are made of.
//!
//! Each piece has an encoder that appends it to a buffer, a reader that takes
//! it from a position, and a law that the reader gives back what the encoder
//! wrote. Integers are big-endian; text is a length byte and UTF-8.
use crate::text::{owned, utf8_text};
use crate::types::{nil, Scope, SyncVersion, Uuid};
use vstd::prelude::*;
use vstd::string::*;

verus! {

pub const OK: u8 = 0x00;
pub const STATUS_ERR: u8 = 0x01;

pub const ERR_BAD_PACKET: u8 = 0x01;
pub const ERR_TOKEN_UNKNOWN: u8 = 0x02;
pub const ERR_NO_WRITER: u8 = 0x03;
pub const ERR_NOT_APPROVED: u8 = 0x04;
pub const ERR_NO_ROUTE: u8 = 0x05;
pub const ERR_PAYLOAD_TOO_LARGE: u8 = 0x06;
pub const ERR_RATE_LIMITED: u8 = 0x07;

pub const APP_PUSH_OP: u8 = 0x04;
pub const SG_PING_OP: u8 = 0x10;
pub const SG_PONG_OP: u8 = 0x11;
pub const DG_KEEPALIVE_OP: u8 = 0x12;
pub const CONN_RESET_OP: u8 = 0x13;
pub const CONNECT_REQUEST_OP: u8 = 0x20;
pub const CONNECT_ACK_OP: u8 = 0x21;
pub const BOOTSTRAP_REQUEST_OP: u8 = 0x30;
pub const BOOTSTRAP_RESPONSE_OP: u8 = 0x31;
pub const DEVICE_REGISTER_OP: u8 = 0x32;
pub const CONTACT_REQUEST_OP: u8 = 0x33;
pub const CONTACT_RESPONSE_OP: u8 = 0x34;
pub const GENERATE_INVITATION_REQUEST_OP: u8 = 0x35;
pub const GENERATE_INVITATION_RESPONSE_OP: u8 = 0x36;
pub const RELAY_PACKET_OP: u8 = 0x40;
pub const APP_PACKET_OP: u8 = 0x41;
pub const TUNNEL_INIT_OP: u8 = 0x50;
pub const TUNNEL_FORWARD_OP: u8 = 0x51;
pub const TUNNEL_CONNECT_REQUEST_OP: u8 = 0x52;
pub const TUNNEL_CONNECT_ACK_OP: u8 = 0x53;
pub const TUNNEL_DELIVERY_OP: u8 = 0x54;
pub const SYNC_WRITE_REQUEST_OP: u8 = 0x70;
pub const SYNC_WRITE_ACK_OP: u8 = 0x71;
pub const SYNC_UPDATE_AVAILABLE_OP: u8 = 0x72;
pub const SYNC_PULL_REQUEST_OP: u8 = 0x73;
pub const SYNC_PULL_RESPONSE_OP: u8 = 0x74;
pub const CROSS_USER_UPDATE_AVAILABLE_OP: u8 = 0x75;
pub const CROSS_USER_PULL_REQUEST_OP: u8 = 0x76;
pub const CROSS_USER_PULL_RESPONSE_OP: u8 = 0x77;
pub const MERGE_PROPOSAL_OP: u8 = 0x78;
pub const MERGE_ACK_OP: u8 = 0x79;
pub const WATERMARK_PROBE_REQUEST_OP: u8 = 0x7A;
pub const WATERMARK_PROBE_RESPONSE_OP: u8 = 0x7B;

pub const CHANGE_KIND_ADD_APPLICATION: u8 = 0x01;
pub const CHANGE_KIND_REMOVE_APPLICATION: u8 = 0x02;
pub const CHANGE_KIND_ADD_DEVICE: u8 = 0x03;
pub const CHANGE_KIND_UPDATE_APPLICATION_ALIAS: u8 = 0x04;
pub const CHANGE_KIND_UPSERT_CONTACT: u8 = 0x05;

pub const WRITE_ACK_OK: u8 = 0;
pub const WRITE_ACK_NOT_WRITER: u8 = 1;
pub const WRITE_ACK_VALIDATION_ERROR: u8 = 2;

pub const PULL_RESULT_NO_UPDATES: u8 = 0;
pub const PULL_RESULT_FULL_STATE: u8 = 1;

pub const MERGE_ACK_RESULT_APPLIED: u8 = 0;
pub const MERGE_ACK_RESULT_RETENTION_EXHAUSTED: u8 = 1;
pub const MERGE_ACK_RESULT_MALFORMED: u8 = 2;

pub const INVITE_TYPE_DEVICE: u8 = 0;
pub const INVITE_TYPE_CONTACT: u8 = 1;
pub const INVITE_RESULT_OK: u8 = 0;
pub const INVITE_RESULT_ERROR: u8 = 1;

/// `e` stands in `d` at position `p`.
pub open spec fn stands_at(d: Seq<u8>, p: int, e: Seq<u8>) -> bool {
    &&& 0 <= p
    &&& p + e.len() <= d.len()
    &&& d.subrange(p, p + e.len()) == e
}

/// Where two pieces stand one after the other, each stands at its own place.
pub proof fn lemma_stands_split(d: Seq<u8>, p: int, a: Seq<u8>, b: Seq<u8>)
    requires
        stands_at(d, p, a + b),
    ensures
        stands_at(d, p, a),
        stands_at(d, p + a.len(), b),
{
    let w = d.subrange(p, p + (a + b).len());
    assert(w == a + b);
    assert(d.subrange(p, p + a.len()) =~= w.take(a.len() as int));
    assert(w.take(a.len() as int) =~= a);
    assert(d.subrange(p + a.len(), p + a.len() + b.len()) =~= w.skip(a.len() as int));
    assert(w.skip(a.len() as int) =~= b);
}

/// A buffer stands in itself.
pub proof fn lemma_stands_whole(d: Seq<u8>)
    ensures
        stands_at(d, 0, d),
{
    assert(d.subrange(0, d.len() as int) =~= d);
}

/// The identifier with the bytes `s`.
pub open spec fn uuid_of(s: Seq<u8>) -> Uuid {
    choose|u: Uuid| u@ == s
}

/// The key with the bytes `s`.
pub open spec fn key_of(s: Seq<u8>) -> [u8; 32] {
    choose|u: [u8; 32]| u@ == s
}

pub proof fn lemma_uuid_of(u: Uuid)
    ensures
        uuid_of(u@) == u,
{
    let w = uuid_of(u@);
    assert(w@ == u@);
    assert(w =~= u);
}

pub proof fn lemma_key_of(u: [u8; 32])
    ensures
        key_of(u@) == u,
{
    let w = key_of(u@);
    assert(w@ == u@);
    assert(w =~= u);
}

/// Appends bytes to a buffer.
pub fn push_bytes(buf: &mut Vec<u8>, b: &[u8])
    ensures
        final(buf)@ == old(buf)@ + b@,
{
    buf.extend_from_slice(b);
    assert(buf@ =~= old(buf)@ + b@);
}

/// The bytes `data[from..to]`.
pub fn bytes_of(data: &[u8], from: usize, to: usize) -> (r: Vec<u8>)
    requires
        from <= to <= data@.len(),
    ensures
        r@ == data@.subrange(from as int, to as int),
{
    let mut out: Vec<u8> = Vec::new();
    push_bytes(&mut out, &data[from..to]);
    assert(out@ =~= data@.subrange(from as int, to as int));
    out
}

/// Appends the 16 bytes of an identifier.
pub fn push_uuid(buf: &mut Vec<u8>, u: &Uuid)
    ensures
        final(buf)@ == old(buf)@ + u@,
{
    push_bytes(buf, u.as_slice());
}

/// Appends the 32 bytes of a key.
pub fn push_key(buf: &mut Vec<u8>, u: &[u8; 32])
    ensures
        final(buf)@ == old(buf)@ + u@,
{
    push_bytes(buf, u.as_slice());
}

/// The identifier in the 16 bytes from `off` on.
pub open spec fn parse_uuid(d: Seq<u8>, p: int) -> Option<(Uuid, int)> {
    if p + 16 <= d.len() {
        Some((uuid_of(d.subrange(p, p + 16)), p + 16))
    } else {
        None
    }
}

pub open spec fn parse_key(d: Seq<u8>, p: int) -> Option<([u8; 32], int)> {
    if p + 32 <= d.len() {
        Some((key_of(d.subrange(p, p + 32)), p + 32))
    } else {
        None
    }
}

/// The identifier in the 16 bytes from `off` on, if there are as many.
pub fn slice_uuid(data: &[u8], off: usize) -> (r: Option<Uuid>)
    requires
        off <= data@.len(),
    ensures
        match parse_uuid(data@, off as int) {
            Some((u, _)) => r == Some(u),
            None => r is None,
        },
{
    let n: usize = data.len();
    if n - off < 16 {
        return None;
    }
    let mut u: Uuid = nil();
    let mut i: usize = 0;
    while i < 16
        invariant
            i <= 16,
            off + 16 <= data@.len() <= usize::MAX,
            forall|k: int| 0 <= k < i ==> u@[k] == data@[off + k],
        decreases 16 - i,
    {
        u[i] = data[off + i];
        i += 1;
    }
    proof {
        assert(u@ =~= data@.subrange(off as int, off + 16));
        lemma_uuid_of(u);
    }
    Some(u)
}

/// Takes an identifier at `pos`.
pub fn read_uuid(data: &[u8], pos: &mut usize) -> (r: Option<Uuid>)
    requires
        *old(pos) <= data@.len(),
    ensures
        *final(pos) <= data@.len(),
        match parse_uuid(data@, *old(pos) as int) {
            Some((u, q)) => r == Some(u) && *final(pos) == q,
            None => r is None,
        },
{
    let n: usize = data.len();
    match slice_uuid(data, *pos) {
        Some(u) => {
            *pos = *pos + 16;
            Some(u)
        },
        None => None,
    }
}

/// The key in the 32 bytes from `off` on, if there are as many.
pub fn slice_key(data: &[u8], off: usize) -> (r: Option<[u8; 32]>)
    requires
        off <= data@.len(),
    ensures
        match parse_key(data@, off as int) {
            Some((u, _)) => r == Some(u),
            None => r is None,
        },
{
    let n: usize = data.len();
    if n - off < 32 {
        return None;
    }
    let mut u: [u8; 32] = [0u8; 32];
    let mut i: usize = 0;
    while i < 32
        invariant
            i <= 32,
            off + 32 <= data@.len() <= usize::MAX,
            forall|k: int| 0 <= k < i ==> u@[k] == data@[off + k],
        decreases 32 - i,
    {
        u[i] = data[off + i];
        i += 1;
    }
    proof {
        assert(u@ =~= data@.subrange(off as int, off + 32));
        lemma_key_of(u);
    }
    Some(u)
}

/// Takes a key at `pos`.
pub fn read_key(data: &[u8], pos: &mut usize) -> (r: Option<[u8; 32]>)
    requires
        *old(pos) <= data@.len(),
    ensures
        *final(pos) <= data@.len(),
        match parse_key(data@, *old(pos) as int) {
            Some((u, q)) => r == Some(u) && *final(pos) == q,
            None => r is None,
        },
{
    let n: usize = data.len();
    match slice_key(data, *pos) {
        Some(u) => {
            *pos = *pos + 32;
            Some(u)
        },
        None => None,
    }
}

/// The byte at `p`.
pub open spec fn parse_byte(d: Seq<u8>, p: int) -> Option<(u8, int)> {
    if p < d.len() {
        Some((d[p], p + 1))
    } else {
        None
    }
}

/// Takes a byte at `pos`.
pub fn read_byte(data: &[u8], pos: &mut usize) -> (r: Option<u8>)
    requires
        *old(pos) <= data@.len(),
    ensures
        *final(pos) <= data@.len(),
        match parse_byte(data@, *old(pos) as int) {
            Some((b, q)) => r == Some(b) && *final(pos) == q,
            None => r is None,
        },
{
    if *pos < data.len() {
        let b: u8 = data[*pos];
        *pos = *pos + 1;
        Some(b)
    } else {
        None
    }
}

pub open spec fn enc_u16(x: u16) -> Seq<u8> {
    seq![(x / 256) as u8, (x % 256) as u8]
}

pub open spec fn enc_u32(x: u32) -> Seq<u8> {
    enc_u16((x / 65536) as u16) + enc_u16((x % 65536) as u16)
}

pub open spec fn enc_u64(x: u64) -> Seq<u8> {
    enc_u32((x / 0x1_0000_0000) as u32) + enc_u32((x % 0x1_0000_0000) as u32)
}

pub open spec fn parse_u16(d: Seq<u8>, p: int) -> Option<(u16, int)> {
    if p + 2 <= d.len() {
        Some(((d[p] * 256 + d[p + 1]) as u16, p + 2))
    } else {
        None
    }
}

pub open spec fn parse_u32(d: Seq<u8>, p: int) -> Option<(u32, int)> {
    match parse_u16(d, p) {
        Some((hi, q)) => match parse_u16(d, q) {
            Some((lo, r)) => Some(((hi * 65536 + lo) as u32, r)),
            None => None,
        },
        None => None,
    }
}

pub open spec fn parse_u64(d: Seq<u8>, p: int) -> Option<(u64, int)> {
    match parse_u32(d, p) {
        Some((hi, q)) => match parse_u32(d, q) {
            Some((lo, r)) => Some(((hi * 0x1_0000_0000 + lo) as u64, r)),
            None => None,
        },
        None => None,
    }
}

pub fn push_u16(buf: &mut Vec<u8>, x: u16)
    ensures
        final(buf)@ == old(buf)@ + enc_u16(x),
{
    buf.push((x / 256) as u8);
    buf.push((x % 256) as u8);
    assert(buf@ =~= old(buf)@ + enc_u16(x));
}

pub fn push_u32(buf: &mut Vec<u8>, x: u32)
    ensures
        final(buf)@ == old(buf)@ + enc_u32(x),
{
    push_u16(buf, (x / 65536) as u16);
    push_u16(buf, (x % 65536) as u16);
    assert(buf@ =~= old(buf)@ + enc_u32(x));
}

pub fn push_u64(buf: &mut Vec<u8>, x: u64)
    ensures
        final(buf)@ == old(buf)@ + enc_u64(x),
{
    push_u32(buf, (x / 0x1_0000_0000) as u32);
    push_u32(buf, (x % 0x1_0000_0000) as u32);
    assert(buf@ =~= old(buf)@ + enc_u64(x));
}

pub fn read_u16(data: &[u8], pos: &mut usize) -> (r: Option<u16>)
    requires
        *old(pos) <= data@.len(),
    ensures
        *final(pos) <= data@.len(),
        match parse_u16(data@, *old(pos) as int) {
            Some((x, q)) => r == Some(x) && *final(pos) == q,
            None => r is None,
        },
{
    let n: usize = data.len();
    if n - *pos < 2 {
        return None;
    }
    let x: u16 = data[*pos] as u16 * 256 + data[*pos + 1] as u16;
    *pos = *pos + 2;
    Some(x)
}

pub fn read_u32(data: &[u8], pos: &mut usize) -> (r: Option<u32>)
    requires
        *old(pos) <= data@.len(),
    ensures
        *final(pos) <= data@.len(),
        match parse_u32(data@, *old(pos) as int) {
            Some((x, q)) => r == Some(x) && *final(pos) == q,
            None => r is None,
        },
{
    let hi: u16 = match read_u16(data, pos) {
        Some(x) => x,
        None => { return None; },
    };
    let lo: u16 = match read_u16(data, pos) {
        Some(x) => x,
        None => { return None; },
    };
    Some(hi as u32 * 65536 + lo as u32)
}

pub fn read_u64(data: &[u8], pos: &mut usize) -> (r: Option<u64>)
    requires
        *old(pos) <= data@.len(),
    ensures
        *final(pos) <= data@.len(),
        match parse_u64(data@, *old(pos) as int) {
            Some((x, q)) => r == Some(x) && *final(pos) == q,
            None => r is None,
        },
{
    let hi: u32 = match read_u32(data, pos) {
        Some(x) => x,
        None => { return None; },
    };
    let lo: u32 = match read_u32(data, pos) {
        Some(x) => x,
        None => { return None; },
    };
    Some(hi as u64 * 0x1_0000_0000 + lo as u64)
}

pub proof fn lemma_u16(d: Seq<u8>, p: int, x: u16)
    requires
        stands_at(d, p, enc_u16(x)),
    ensures
        parse_u16(d, p) == Some((x, p + 2)),
        enc_u16(x).len() == 2,
{
    let w = d.subrange(p, p + 2);
    assert(w[0] == d[p] && w[1] == d[p + 1]);
}

pub proof fn lemma_u32(d: Seq<u8>, p: int, x: u32)
    requires
        stands_at(d, p, enc_u32(x)),
    ensures
        parse_u32(d, p) == Some((x, p + 4)),
        enc_u32(x).len() == 4,
{
    lemma_stands_split(d, p, enc_u16((x / 65536) as u16), enc_u16((x % 65536) as u16));
    lemma_u16(d, p, (x / 65536) as u16);
    lemma_u16(d, p + 2, (x % 65536) as u16);
}

pub proof fn lemma_u64(d: Seq<u8>, p: int, x: u64)
    requires
        stands_at(d, p, enc_u64(x)),
    ensures
        parse_u64(d, p) == Some((x, p + 8)),
        enc_u64(x).len() == 8,
{
    let hi = (x / 0x1_0000_0000) as u32;
    let lo = (x % 0x1_0000_0000) as u32;
    lemma_stands_split(d, p, enc_u32(hi), enc_u32(lo));
    lemma_u32(d, p, hi);
    lemma_u32(d, p + 4, lo);
}

pub proof fn lemma_byte(d: Seq<u8>, p: int, b: u8)
    requires
        stands_at(d, p, seq![b]),
    ensures
        parse_byte(d, p) == Some((b, p + 1)),
{
    assert(d.subrange(p, p + 1)[0] == d[p]);
}

pub proof fn lemma_uuid(d: Seq<u8>, p: int, u: Uuid)
    requires
        stands_at(d, p, u@),
    ensures
        parse_uuid(d, p) == Some((u, p + 16)),
{
    lemma_uuid_of(u);
}

pub proof fn lemma_key(d: Seq<u8>, p: int, u: [u8; 32])
    requires
        stands_at(d, p, u@),
    ensures
        parse_key(d, p) == Some((u, p + 32)),
{
    lemma_key_of(u);
}

/// The smaller of two numbers.
pub open spec fn least(a: int, b: int) -> int {
    if a <= b {
        a
    } else {
        b
    }
}

/// A length byte and the first 255 bytes of the text's UTF-8.
pub open spec fn enc_str(s: Seq<char>) -> Seq<u8> {
    let b = vstd::utf8::encode_utf8(s);
    let n = least(b.len() as int, 255);
    seq![n as u8] + b.take(n)
}

pub open spec fn parse_str(d: Seq<u8>, p: int) -> Option<(Seq<char>, int)> {
    if p < d.len() && p + 1 + d[p] <= d.len() && vstd::utf8::valid_utf8(d.subrange(p + 1, p + 1 + d[p])) {
        Some((vstd::utf8::decode_utf8(d.subrange(p + 1, p + 1 + d[p])), p + 1 + d[p]))
    } else {
        None
    }
}

/// The text fits behind a length byte.
pub open spec fn short_text(s: Seq<char>) -> bool {
    vstd::utf8::encode_utf8(s).len() <= 255
}

/// Appends text.
pub fn push_str(buf: &mut Vec<u8>, s: &str)
    ensures
        final(buf)@ == old(buf)@ + enc_str(s@),
{
    let b = s.as_bytes();
    let mut n: usize = b.len();
    if n > 255 {
        n = 255;
    }
    buf.push(n as u8);
    push_bytes(buf, &b[0..n]);
    assert(buf@ =~= old(buf)@ + enc_str(s@));
}

/// Takes text at `pos`.
pub fn read_str(data: &[u8], pos: &mut usize) -> (r: Option<String>)
    requires
        *old(pos) <= data@.len(),
    ensures
        *final(pos) <= data@.len(),
        match parse_str(data@, *old(pos) as int) {
            Some((s, q)) => r is Some && r->0@ == s && *final(pos) == q,
            None => r is None,
        },
{
    let total: usize = data.len();
    if *pos >= total {
        return None;
    }
    let n: usize = data[*pos] as usize;
    let start: usize = *pos + 1;
    if total - start < n {
        return None;
    }
    match utf8_text(&data[start..start + n]) {
        Some(s) => {
            let out = owned(s);
            *pos = start + n;
            Some(out)
        },
        None => None,
    }
}

pub proof fn lemma_str(d: Seq<u8>, p: int, s: Seq<char>)
    requires
        stands_at(d, p, enc_str(s)),
        short_text(s),
    ensures
        parse_str(d, p) == Some((s, p + enc_str(s).len())),
        1 <= enc_str(s).len() <= 256,
{
    broadcast use vstd::utf8::group_utf8_lib;

    let b = vstd::utf8::encode_utf8(s);
    assert(b.take(b.len() as int) =~= b);
    let w = d.subrange(p, p + enc_str(s).len());
    assert(w == enc_str(s));
    assert(d[p] == w[0]);
    assert(d[p] == b.len());
    assert(d.subrange(p + 1, p + 1 + b.len()) =~= b) by {
        assert forall|i: int| 0 <= i < b.len() implies d[p + 1 + i] == b[i] by {
            assert(w[1 + i] == d[p + 1 + i]);
        }
    }
    vstd::utf8::encode_utf8_valid_utf8(s);
    vstd::utf8::encode_utf8_decode_utf8(s);
}

pub open spec fn scope_byte(s: Scope) -> u8 {
    match s {
        Scope::Private => 0,
        Scope::Public => 1,
    }
}

pub open spec fn parse_scope(d: Seq<u8>, p: int) -> Option<(Scope, int)> {
    if p < d.len() && d[p] == 0 {
        Some((Scope::Private, p + 1))
    } else if p < d.len() && d[p] == 1 {
        Some((Scope::Public, p + 1))
    } else {
        None
    }
}

/// Appends a scope.
pub fn write_scope(buf: &mut Vec<u8>, s: Scope)
    ensures
        final(buf)@ == old(buf)@ + seq![scope_byte(s)],
{
    match s {
        Scope::Private => buf.push(0),
        Scope::Public => buf.push(1),
    }
    assert(buf@ =~= old(buf)@ + seq![scope_byte(s)]);
}

/// Takes a scope at `pos`.
pub fn read_scope(data: &[u8], pos: &mut usize) -> (r: Option<Scope>)
    requires
        *old(pos) <= data@.len(),
    ensures
        *final(pos) <= data@.len(),
        match parse_scope(data@, *old(pos) as int) {
            Some((s, q)) => r == Some(s) && *final(pos) == q,
            None => r is None,
        },
{
    match read_byte(data, pos) {
        Some(0) => Some(Scope::Private),
        Some(1) => Some(Scope::Public),
        _ => None,
    }
}

pub proof fn lemma_scope(d: Seq<u8>, p: int, s: Scope)
    requires
        stands_at(d, p, seq![scope_byte(s)]),
    ensures
        parse_scope(d, p) == Some((s, p + 1)),
{
    lemma_byte(d, p, scope_byte(s));
}

/// The writer, then the epoch, then the sequence number.
pub open spec fn enc_version(v: SyncVersion) -> Seq<u8> {
    v.writer_sg_uuid@ + enc_u32(v.epoch) + enc_u64(v.seq)
}

pub open spec fn parse_version(d: Seq<u8>, p: int) -> Option<(SyncVersion, int)> {
    match parse_uuid(d, p) {
        Some((w, q)) => match parse_u32(d, q) {
            Some((e, r)) => match parse_u64(d, r) {
                Some((n, t)) => Some((SyncVersion { writer_sg_uuid: w, epoch: e, seq: n }, t)),
                None => None,
            },
            None => None,
        },
        None => None,
    }
}

/// Appends a version.
pub fn write_sync_version(buf: &mut Vec<u8>, v: &SyncVersion)
    ensures
        final(buf)@ == old(buf)@ + enc_version(*v),
{
    push_uuid(buf, &v.writer_sg_uuid);
    push_u32(buf, v.epoch);
    push_u64(buf, v.seq);
    assert(buf@ =~= old(buf)@ + enc_version(*v));
}

/// Takes a version at `pos`.
pub fn read_sync_version(data: &[u8], pos: &mut usize) -> (r: Option<SyncVersion>)
    requires
        *old(pos) <= data@.len(),
    ensures
        *final(pos) <= data@.len(),
        match parse_version(data@, *old(pos) as int) {
            Some((v, q)) => r == Some(v) && *final(pos) == q,
            None => r is None,
        },
{
    let w: Uuid = match read_uuid(data, pos) {
        Some(x) => x,
        None => { return None; },
    };
    let e: u32 = match read_u32(data, pos) {
        Some(x) => x,
        None => { return None; },
    };
    let n: u64 = match read_u64(data, pos) {
        Some(x) => x,
        None => { return None; },
    };
    Some(SyncVersion { writer_sg_uuid: w, epoch: e, seq: n })
}

pub proof fn lemma_version(d: Seq<u8>, p: int, v: SyncVersion)
    requires
        stands_at(d, p, enc_version(v)),
    ensures
        parse_version(d, p) == Some((v, p + 28)),
        enc_version(v).len() == 28,
{
    let a = v.writer_sg_uuid@;
    let b = enc_u32(v.epoch);
    let c = enc_u64(v.seq);
    lemma_stands_split(d, p, a + b, c);
    lemma_stands_split(d, p, a, b);
    lemma_uuid(d, p, v.writer_sg_uuid);
    lemma_u32(d, p + 16, v.epoch);
    lemma_u64(d, p + 20, v.seq);
}

/// Text that is read of the first `n` bytes.
pub proof fn lemma_str_steady(d: Seq<u8>, n: int, p: int)
    requires
        0 <= n <= d.len(),
        0 <= p,
    ensures
        parse_str(d.take(n), p) matches Some((s, q)) ==> p <= q <= n && parse_str(d, p) == Some(
            (s, q),
        ),
{
    let t = d.take(n);
    if p < n && p + 1 + d[p] <= n {
        assert(t.subrange(p + 1, p + 1 + d[p]) =~= d.subrange(p + 1, p + 1 + d[p]));
    }
}

/// An identifier that is read of the first `n` bytes.
pub proof fn lemma_uuid_steady(d: Seq<u8>, n: int, p: int)
    requires
        0 <= n <= d.len(),
        0 <= p,
    ensures
        parse_uuid(d.take(n), p) matches Some((u, q)) ==> p <= q <= n && parse_uuid(d, p) == Some(
            (u, q),
        ),
{
    if p + 16 <= n {
        assert(d.take(n).subrange(p, p + 16) =~= d.subrange(p, p + 16));
    }
}

/// A key that is read of the first `n` bytes.
pub proof fn lemma_key_steady(d: Seq<u8>, n: int, p: int)
    requires
        0 <= n <= d.len(),
        0 <= p,
    ensures
        parse_key(d.take(n), p) matches Some((u, q)) ==> p <= q <= n && parse_key(d, p) == Some(
            (u, q),
        ),
{
    if p + 32 <= n {
        assert(d.take(n).subrange(p, p + 32) =~= d.subrange(p, p + 32));
    }
}

} // verus!
