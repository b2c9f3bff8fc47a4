//! Time-based one-time codes for the owner's portal, and recovery codes.
pub use crate::base32::{decode_base32, encode_base32};
use crate::forms;
use crate::forms::hex_bytes;
use crate::model;
use crate::numbers;
use crate::numbers::read_number;
use crate::text;
use crate::text::{chars_of, put, to_lower};
use crate::wire;
use crate::wire::push_u64;
use hmac::Mac;
use rand::RngCore;
use vstd::prelude::*;

verus! {

/// The length of the shared secret, in bytes.
pub const SECRET_LEN: usize = 20;

/// The length of a time step, in seconds.
pub const PERIOD_SECS: u64 = 30;

/// How many digits a code has.
pub const DIGITS: u32 = 6;

/// How many steps before and after the current one are accepted.
pub const SKEW_STEPS: i64 = 1;

/// How many recovery codes there are.
pub const RECOVERY_CODE_COUNT: usize = 8;

/// HMAC-SHA1 of a message under a key.
pub uninterp spec fn hmac_sha1_of(key: Seq<u8>, message: Seq<u8>) -> Seq<u8>;

/// HMAC-SHA1 of a message under a key.
///
/// Calls `Mac::new_from_slice`, `Mac::update` and `Mac::finalize` on
/// `hmac::Hmac<sha1::Sha1>`. The constructor succeeds for keys of any length, and
/// the result is 20 bytes, a function of key and message.
#[verifier::external_body]
fn hmac_sha1(key: &[u8], message: &[u8]) -> (r: Vec<u8>)
    ensures
        r@ == hmac_sha1_of(key@, message@),
        r@.len() == 20,
{
    let mut mac = <hmac::Hmac<sha1::Sha1> as Mac>::new_from_slice(key).expect("any length");
    mac.update(message);
    mac.finalize().into_bytes().to_vec()
}

/// Random bytes, as many as asked for.
///
/// Calls `RngCore::fill_bytes` on `rand::thread_rng()`, which overwrites the whole
/// buffer. It does not return where the operating system has no randomness to
/// give. Nothing is said of which bytes come.
#[verifier::external_body]
pub(crate) fn fill_random(n: usize) -> (r: Vec<u8>)
    requires
        n <= 4096,
    ensures
        r@.len() == n,
{
    let mut bytes = vec![0u8; n];
    rand::thread_rng().fill_bytes(&mut bytes);
    bytes
}

/// A new secret of 20 random bytes.
pub fn generate_secret() -> (r: [u8; 20])
    ensures
        r@.len() == SECRET_LEN,
{
    secret_of(&fill_random(20))
}

/// The secret made of the first 20 of some random bytes.
pub fn secret_of(random: &Vec<u8>) -> (r: [u8; 20])
    requires
        random@.len() >= 20,
    ensures
        r@ == random@.take(20),
{
    let mut s: [u8; 20] = [0u8; 20];
    let mut i: usize = 0;
    while i < 20
        invariant
            i <= 20,
            random@.len() >= 20,
            forall|k: int| 0 <= k < i ==> s@[k] == random@[k],
        decreases 20 - i,
    {
        s[i] = random[i];
        i += 1;
    }
    assert(s@ =~= random@.take(20));
    s
}

/// The code in a MAC of 20 bytes: the 31 low bits of the four bytes that its
/// last four bits point to, reduced to six digits.
pub open spec fn code_in(mac: Seq<u8>) -> int {
    let o = mac[19] as int % 16;
    ((mac[o] as int % 128) * 16777216 + mac[o + 1] as int * 65536 + mac[o + 2] as int * 256
        + mac[o + 3] as int) % 1_000_000
}

/// The code in a MAC of 20 bytes.
pub fn truncate_mac(mac: &Vec<u8>) -> (r: u32)
    requires
        mac@.len() == 20,
    ensures
        r == code_in(mac@),
        r < 1_000_000,
{
    let o: usize = (mac[19] % 16) as usize;
    let bin: u32 = (mac[o] % 128) as u32 * 16777216 + mac[o + 1] as u32 * 65536 + mac[o + 2] as u32
        * 256 + mac[o + 3] as u32;
    bin % 1_000_000
}

/// The code for a counter.
pub open spec fn hotp_code(secret: Seq<u8>, counter: u64) -> int {
    code_in(hmac_sha1_of(secret, wire::enc_u64(counter)))
}

/// The code for a counter.
pub fn hotp(secret: &[u8], counter: u64) -> (r: u32)
    ensures
        r == hotp_code(secret@, counter),
        r < 1_000_000,
{
    let mut message: Vec<u8> = Vec::new();
    push_u64(&mut message, counter);
    assert(message@ =~= wire::enc_u64(counter));
    truncate_mac(&hmac_sha1(secret, message.as_slice()))
}

/// The code at a time.
pub fn totp_at(secret: &[u8], unix_secs: u64) -> (r: u32)
    ensures
        r == hotp_code(secret@, unix_secs / PERIOD_SECS),
        r < 1_000_000,
{
    hotp(secret, unix_secs / PERIOD_SECS)
}

/// A number below a million with six digits.
pub open spec fn six_digits(n: nat) -> Seq<char> {
    seq![
        text::digit(n / 100000 % 10),
        text::digit(n / 10000 % 10),
        text::digit(n / 1000 % 10),
        text::digit(n / 100 % 10),
        text::digit(n / 10 % 10),
        text::digit(n % 10),
    ]
}

fn push_digit(s: &mut String, d: u32)
    requires
        d < 10,
    ensures
        final(s)@ == old(s)@.push(text::digit(d as nat)),
{
    s.push((48 + d as u8) as char);
}

/// A code as text.
pub fn six_digit_text(n: u32) -> (r: String)
    requires
        n < 1_000_000,
    ensures
        r@ == six_digits(n as nat),
{
    let mut s = String::new();
    push_digit(&mut s, n / 100000 % 10);
    push_digit(&mut s, n / 10000 % 10);
    push_digit(&mut s, n / 1000 % 10);
    push_digit(&mut s, n / 100 % 10);
    push_digit(&mut s, n / 10 % 10);
    push_digit(&mut s, n % 10);
    assert(s@ =~= six_digits(n as nat));
    s
}

/// The code at a time, as text.
pub fn totp_code_string(secret: &[u8], unix_secs: u64) -> (r: String)
    ensures
        r@ == six_digits(hotp_code(secret@, unix_secs / PERIOD_SECS) as nat),
{
    six_digit_text(totp_at(secret, unix_secs))
}

/// Neither a space nor a dash.
pub open spec fn code_chars() -> spec_fn(char) -> bool {
    |c: char| c != ' ' && c != '-'
}

/// The code that was typed: spaces and dashes do not count, and what is left must
/// be as many digits as a code has and nothing else.
pub open spec fn typed_code(raw: Seq<char>) -> Option<nat> {
    let d = model::keep(raw, code_chars());
    if d.len() == DIGITS && numbers::all_digits(d) {
        Some(numbers::digits_value(d))
    } else {
        None
    }
}

proof fn lemma_digits_push(s: Seq<char>, c: char)
    ensures
        numbers::all_digits(s.push(c)) == (numbers::all_digits(s) && numbers::is_digit(c)),
{
    let t = s.push(c);
    assert(t[s.len() as int] == c);
    assert forall|j: int| 0 <= j < s.len() implies #[trigger] s[j] == t[j] by {}
}

/// Six digits make a number below a million.
proof fn lemma_six_value(d: Seq<char>)
    requires
        d.len() == 6,
        numbers::all_digits(d),
    ensures
        numbers::digits_value(d) < 1_000_000,
{
    reveal_with_fuel(numbers::digits_value, 7);
    assert(numbers::is_digit(d[0]) && numbers::is_digit(d[1]) && numbers::is_digit(d[2])
        && numbers::is_digit(d[3]) && numbers::is_digit(d[4]) && numbers::is_digit(d[5]));
}

/// Reads a code as it was typed.
pub fn parse_totp_code(raw: &str) -> (r: Option<u32>)
    ensures
        match typed_code(raw@) {
            Some(n) => r == Some(n as u32) && n == r->0,
            None => r is None,
        },
{
    let v = chars_of(raw);
    let mut digits = String::new();
    let mut count: usize = 0;
    let mut plain: bool = true;
    let mut i: usize = 0;
    assert(digits@ =~= model::keep(v@.take(0), code_chars()));
    while i < v.len()
        invariant
            i <= v@.len(),
            v@ == raw@,
            digits@ == model::keep(v@.take(i as int), code_chars()),
            plain == numbers::all_digits(digits@),
            count == digits@.len(),
            count <= i,
        decreases v@.len() - i,
    {
        let c = v[i];
        if c != ' ' && c != '-' {
            let ghost before = digits@;
            digits.push(c);
            count += 1;
            proof {
                lemma_digits_push(before, c);
            }
            plain = plain && '0' <= c && c <= '9';
        }
        proof {
            model::lemma_keep_step(v@, code_chars(), i as int);
        }
        i += 1;
    }
    assert(v@.take(v@.len() as int) =~= v@);
    if count != DIGITS as usize || !plain {
        return None;
    }
    proof {
        lemma_six_value(digits@);
        assert(numbers::is_digit(digits@[0]));
    }
    match read_number(digits.as_str(), 999_999) {
        Some(n) => Some(n as u32),
        None => None,
    }
}

/// The code is that of a step, and the step is not the last one used.
pub open spec fn accepts(secret: Seq<u8>, got: nat, last_step: Option<u64>, step: int) -> bool {
    0 <= step <= u64::MAX && last_step != Some(step as u64) && hotp_code(secret, step as u64) == got
}

/// The step whose code was typed: the one before the current one, the current
/// one or the next.
pub open spec fn verified_step(
    secret: Seq<u8>,
    code: Seq<char>,
    unix_secs: u64,
    last_step: Option<u64>,
) -> Option<u64> {
    let now = (unix_secs / PERIOD_SECS) as int;
    match typed_code(code) {
        None => None,
        Some(got) => if accepts(secret, got, last_step, now - SKEW_STEPS) {
            Some((now - SKEW_STEPS) as u64)
        } else if accepts(secret, got, last_step, now) {
            Some(now as u64)
        } else if accepts(secret, got, last_step, now + SKEW_STEPS) {
            Some((now + SKEW_STEPS) as u64)
        } else {
            None
        },
    }
}

/// Verifies a code that was typed at a time. Gives the step it belongs to, so
/// that the caller can refuse it the next time: `last_step` is not accepted
/// again.
pub fn verify_totp(secret: &[u8], code: &str, unix_secs: u64, last_step: Option<u64>) -> (r: Option<
    u64,
>)
    ensures
        r == verified_step(secret@, code@, unix_secs, last_step),
{
    let got: u32 = match parse_totp_code(code) {
        Some(g) => g,
        None => { return None; },
    };
    let now: u64 = unix_secs / PERIOD_SECS;
    if now > 0 && last_step != Some((now - 1) as u64) && hotp(secret, now - 1) == got {
        return Some(now - 1);
    }
    if last_step != Some(now) && hotp(secret, now) == got {
        return Some(now);
    }
    if last_step != Some((now + 1) as u64) && hotp(secret, now + 1) == got {
        return Some(now + 1);
    }
    None
}

/// A code that was accepted is not accepted again for the same step.
pub proof fn law_no_replay(secret: Seq<u8>, code: Seq<char>, unix_secs: u64, step: u64)
    ensures
        verified_step(secret, code, unix_secs, Some(step)) != Some(step),
{
}

/// A code as it is shown is read as the number it shows.
pub proof fn law_code_reads_back(n: nat)
    requires
        n < 1_000_000,
    ensures
        typed_code(six_digits(n)) == Some(n),
{
    let s = six_digits(n);
    assert forall|i: int| 0 <= i < s.len() implies numbers::is_digit(#[trigger] s[i]) by {
        lemma_is_digit(n / 100000 % 10);
        lemma_is_digit(n / 10000 % 10);
        lemma_is_digit(n / 1000 % 10);
        lemma_is_digit(n / 100 % 10);
        lemma_is_digit(n / 10 % 10);
        lemma_is_digit(n % 10);
    }
    assert forall|i: int| 0 <= i < s.len() implies code_chars()(#[trigger] s[i]) by {
        assert(numbers::is_digit(s[i]));
    }
    model::lemma_keep_all(s, code_chars());
    lemma_six_digits_value(n);
}

proof fn lemma_is_digit(d: nat)
    requires
        d < 10,
    ensures
        numbers::is_digit(text::digit(d)),
        text::digit(d) as nat - 48 == d,
{
}

proof fn lemma_six_digits_value(n: nat)
    requires
        n < 1_000_000,
    ensures
        numbers::digits_value(six_digits(n)) == n,
{
    let s6 = six_digits(n);
    let s5 = s6.drop_last();
    let s4 = s5.drop_last();
    let s3 = s4.drop_last();
    let s2 = s3.drop_last();
    let s1 = s2.drop_last();
    assert(s1.drop_last() =~= Seq::empty());
    lemma_is_digit(n / 100000 % 10);
    lemma_is_digit(n / 10000 % 10);
    lemma_is_digit(n / 1000 % 10);
    lemma_is_digit(n / 100 % 10);
    lemma_is_digit(n / 10 % 10);
    lemma_is_digit(n % 10);
    assert(s1.len() == 1);
    assert(s1.last() == text::digit(n / 100000 % 10));
    assert(numbers::digits_value(s1.drop_last()) == 0);
    assert(numbers::digits_value(s1) == n / 100000 % 10);
    assert(numbers::digits_value(s2) == n / 10000);
    assert(numbers::digits_value(s3) == n / 1000);
    assert(numbers::digits_value(s4) == n / 100);
    assert(numbers::digits_value(s5) == n / 10);
}

/// A code is accepted at the step it belongs to, one step later and one step
/// earlier, where no step was used yet.
pub proof fn law_skew_accepted(secret: Seq<u8>, shown_at: u64, typed_at: u64)
    requires
        shown_at / PERIOD_SECS <= typed_at / PERIOD_SECS + 1,
        typed_at / PERIOD_SECS <= shown_at / PERIOD_SECS + 1,
    ensures
        verified_step(
            secret,
            six_digits(hotp_code(secret, shown_at / PERIOD_SECS) as nat),
            typed_at,
            None,
        ) is Some,
{
    let n = hotp_code(secret, shown_at / PERIOD_SECS);
    assert(0 <= n < 1_000_000);
    law_code_reads_back(n as nat);
    let now = (typed_at / PERIOD_SECS) as int;
    let step = (shown_at / PERIOD_SECS) as int;
    assert(accepts(secret, n as nat, None, step));
}

/// A character that a URL holds as it is.
pub open spec fn unreserved(b: u8) -> bool {
    ||| 65 <= b <= 90
    ||| 97 <= b <= 122
    ||| 48 <= b <= 57
    ||| b == 45
    ||| b == 95
    ||| b == 46
    ||| b == 126
}

/// A hexadecimal digit in upper case.
pub open spec fn upper_hex(d: int) -> char {
    if d < 10 {
        (48 + d) as char
    } else {
        (55 + d) as char
    }
}

/// A byte in a URL.
pub open spec fn url_byte(b: u8) -> Seq<char> {
    if unreserved(b) {
        seq![b as char]
    } else {
        seq!['%', upper_hex(b as int / 16), upper_hex(b as int % 16)]
    }
}

/// Bytes in a URL.
pub open spec fn url_bytes(s: Seq<u8>) -> Seq<char>
    decreases s.len(),
{
    if s.len() == 0 {
        Seq::empty()
    } else {
        url_bytes(s.drop_last()) + url_byte(s.last())
    }
}

fn upper_hex_digit(d: u8) -> (r: char)
    requires
        d < 16,
    ensures
        r == upper_hex(d as int),
{
    if d < 10 {
        (48 + d) as char
    } else {
        (55 + d) as char
    }
}

/// Writes text so that it can stand in a URL.
pub fn url_encode_component(s: &str) -> (r: String)
    ensures
        r@ == url_bytes(vstd::utf8::encode_utf8(s@)),
{
    let v = s.as_bytes();
    let mut out = String::new();
    let mut i: usize = 0;
    assert(v@.take(0) =~= Seq::empty());
    assert(out@ =~= url_bytes(v@.take(0)));
    while i < v.len()
        invariant
            i <= v@.len(),
            out@ == url_bytes(v@.take(i as int)),
        decreases v@.len() - i,
    {
        proof {
            assert(v@.take(i + 1).drop_last() =~= v@.take(i as int));
            assert(v@.take(i + 1).last() == v@[i as int]);
        }
        let b: u8 = v[i];
        let ghost before = out@;
        if (65 <= b && b <= 90) || (97 <= b && b <= 122) || (48 <= b && b <= 57) || b == 45 || b
            == 95 || b == 46 || b == 126 {
            out.push(b as char);
        } else {
            out.push('%');
            out.push(upper_hex_digit(b / 16));
            out.push(upper_hex_digit(b % 16));
        }
        assert(out@ =~= before + url_byte(b));
        i += 1;
    }
    assert(v@.take(v@.len() as int) =~= v@);
    out
}

/// The link that an authenticator application takes a secret from.
pub open spec fn otpauth(account: Seq<char>, secret_b32: Seq<char>) -> Seq<char> {
    "otpauth://totp/"@ + url_bytes(vstd::utf8::encode_utf8("pNet:"@ + account)) + "?secret="@
        + secret_b32 + "&issuer=pNet&period=30&digits=6&algorithm=SHA1"@
}

/// The link that an authenticator application takes a secret from.
pub fn otpauth_url(account: &str, secret_b32: &str) -> (r: String)
    ensures
        r@ == otpauth(account@, secret_b32@),
{
    let mut label = String::new();
    put(&mut label, "pNet:");
    put(&mut label, account);
    assert(label@ =~= "pNet:"@ + account@);
    let mut out = String::new();
    put(&mut out, "otpauth://totp/");
    put(&mut out, url_encode_component(label.as_str()).as_str());
    put(&mut out, "?secret=");
    put(&mut out, secret_b32);
    put(&mut out, "&issuer=pNet&period=30&digits=6&algorithm=SHA1");
    assert(out@ =~= otpauth(account@, secret_b32@));
    out
}

/// The recovery code made of eight bytes.
pub open spec fn recovery_code(b: Seq<u8>) -> Seq<char> {
    forms::hex_of(b.take(4)) + seq!['-'] + forms::hex_of(b.subrange(4, 8))
}

/// The recovery code made of eight random bytes.
pub fn recovery_code_of(random: &Vec<u8>) -> (r: String)
    requires
        random@.len() == 8,
    ensures
        r@ == recovery_code(random@),
{
    let mut s = String::new();
    put(&mut s, hex_bytes(&random[0..4]).as_str());
    s.push('-');
    put(&mut s, hex_bytes(&random[4..8]).as_str());
    assert(random@.subrange(0, 4) =~= random@.take(4));
    assert(s@ =~= recovery_code(random@));
    s
}

/// A text that is a recovery code.
pub open spec fn is_recovery_code(s: Seq<char>) -> bool {
    exists|b: Seq<u8>| b.len() == 8 && s == #[trigger] recovery_code(b)
}

/// New recovery codes, made of random bytes.
pub fn generate_recovery_codes() -> (r: Vec<String>)
    ensures
        r@.len() == RECOVERY_CODE_COUNT,
        forall|i: int| 0 <= i < r@.len() ==> is_recovery_code((#[trigger] r@[i])@),
{
    let mut out: Vec<String> = Vec::new();
    let mut i: usize = 0;
    while i < RECOVERY_CODE_COUNT
        invariant
            i <= RECOVERY_CODE_COUNT,
            out@.len() == i,
            forall|k: int| 0 <= k < i ==> is_recovery_code((#[trigger] out@[k])@),
        decreases RECOVERY_CODE_COUNT - i,
    {
        let random = fill_random(8);
        let code = recovery_code_of(&random);
        assert(code@ == recovery_code(random@));
        out.push(code);
        i += 1;
    }
    out
}

pub open spec fn is_hex(c: char) -> bool {
    '0' <= c <= '9' || 'a' <= c <= 'f' || 'A' <= c <= 'F'
}

pub open spec fn hex_chars() -> spec_fn(char) -> bool {
    |c: char| is_hex(c)
}

/// A recovery code as it is compared: its hexadecimal digits, in lower case.
pub open spec fn normalized(raw: Seq<char>) -> Seq<char> {
    text::lowered(model::keep(raw, hex_chars()))
}

/// A recovery code as it is compared.
pub fn normalize_recovery_code(raw: &str) -> (r: String)
    ensures
        r@ == normalized(raw@),
{
    let v = chars_of(raw);
    let mut out = String::new();
    let mut i: usize = 0;
    assert(model::keep(v@.take(0), hex_chars()) =~= Seq::empty());
    assert(out@ =~= text::lowered(model::keep(v@.take(0), hex_chars())));
    while i < v.len()
        invariant
            i <= v@.len(),
            out@ == text::lowered(model::keep(v@.take(i as int), hex_chars())),
        decreases v@.len() - i,
    {
        let c = v[i];
        let ghost k = model::keep(v@.take(i as int), hex_chars());
        if ('0' <= c && c <= '9') || ('a' <= c && c <= 'f') || ('A' <= c && c <= 'F') {
            out.push(to_lower(c));
            assert(out@ =~= text::lowered(k.push(c)));
        }
        proof {
            model::lemma_keep_step(v@, hex_chars(), i as int);
        }
        i += 1;
    }
    assert(v@.take(v@.len() as int) =~= v@);
    out
}

/// Normalizing twice is normalizing once.
pub proof fn law_normalize_twice(raw: Seq<char>)
    ensures
        normalized(normalized(raw)) == normalized(raw),
{
    let k = model::keep(raw, hex_chars());
    let n = text::lowered(k);
    model::lemma_keep_again(raw, hex_chars());
    assert forall|i: int| 0 <= i < n.len() implies hex_chars()(#[trigger] n[i]) by {
        assert(hex_chars()(k[i]));
    }
    model::lemma_keep_all(n, hex_chars());
    assert(text::lowered(n) =~= n) by {
        assert forall|i: int| 0 <= i < n.len() implies text::lower(#[trigger] n[i]) == n[i] by {
            assert(hex_chars()(k[i]));
        }
    }
}

/// Two ways to type a code that differ in case alone are the same code.
pub proof fn law_normalize_ignores_case(raw: Seq<char>)
    ensures
        normalized(text::lowered(raw)) == normalized(raw),
    decreases raw.len(),
{
    let l = text::lowered(raw);
    if raw.len() > 0 {
        let t = raw.drop_last();
        law_normalize_ignores_case(t);
        assert(l.drop_last() =~= text::lowered(t));
        let c = raw.last();
        assert(l.last() == text::lower(c));
        let k = model::keep(t, hex_chars());
        let m = model::keep(text::lowered(t), hex_chars());
        assert(is_hex(text::lower(c)) == is_hex(c));
        assert(text::lower(text::lower(c)) == text::lower(c));
        if is_hex(c) {
            assert(text::lowered(k.push(c)) =~= text::lowered(k).push(text::lower(c)));
            assert(text::lowered(m.push(text::lower(c))) =~= text::lowered(m).push(text::lower(c)));
        }
    } else {
        assert(l =~= raw);
    }
}

proof fn lemma_hex_lower(d: int)
    requires
        0 <= d < 16,
    ensures
        is_hex(forms::hex_char(d)),
        text::lower(forms::hex_char(d)) == forms::hex_char(d),
{
}

/// Hexadecimal text consists of digits in lower case, two for each byte.
proof fn lemma_hex_of(s: Seq<u8>)
    ensures
        forms::hex_of(s).len() == 2 * s.len(),
        forall|i: int|
            0 <= i < forms::hex_of(s).len() ==> is_hex(#[trigger] forms::hex_of(s)[i])
                && text::lower(forms::hex_of(s)[i]) == forms::hex_of(s)[i],
    decreases s.len(),
{
    if s.len() > 0 {
        lemma_hex_of(s.drop_last());
        lemma_hex_lower(s.last() as int / 16);
        lemma_hex_lower(s.last() as int % 16);
        let t = forms::hex_of(s.drop_last());
        let h = forms::hex_of(s);
        assert forall|i: int| 0 <= i < h.len() implies is_hex(#[trigger] h[i]) && text::lower(h[i])
            == h[i] by {
            if i < t.len() {
                assert(h[i] == t[i]);
            } else {
                assert(h[i] == forms::hex_pair(s.last())[i - t.len()]);
            }
        }
    }
}

proof fn lemma_hex_add(a: Seq<u8>, b: Seq<u8>)
    ensures
        forms::hex_of(a + b) == forms::hex_of(a) + forms::hex_of(b),
    decreases b.len(),
{
    if b.len() > 0 {
        lemma_hex_add(a, b.drop_last());
        assert((a + b).drop_last() =~= a + b.drop_last());
        assert((a + b).last() == b.last());
        assert(forms::hex_of(a + b) =~= forms::hex_of(a) + forms::hex_of(b));
    } else {
        assert(a + b =~= a);
        assert(forms::hex_of(a) + forms::hex_of(b) =~= forms::hex_of(a));
    }
}

proof fn lemma_hex_kept(s: Seq<u8>)
    ensures
        model::keep(forms::hex_of(s), hex_chars()) == forms::hex_of(s),
        text::lowered(forms::hex_of(s)) == forms::hex_of(s),
{
    let t = forms::hex_of(s);
    lemma_hex_of(s);
    assert forall|i: int| 0 <= i < t.len() implies hex_chars()(#[trigger] t[i]) by {
        assert(is_hex(t[i]));
    }
    model::lemma_keep_all(t, hex_chars());
    assert(text::lowered(t) =~= t);
}

/// A recovery code is compared by its sixteen hexadecimal digits.
pub proof fn law_recovery_code_normalizes(b: Seq<u8>)
    requires
        b.len() == 8,
    ensures
        normalized(recovery_code(b)) == forms::hex_of(b),
        forms::hex_of(b).len() == 16,
{
    let x = b.take(4);
    let y = b.subrange(4, 8);
    let dash = seq!['-'];
    assert(b =~= x + y);
    lemma_hex_add(x, y);
    lemma_hex_of(b);
    lemma_hex_kept(x);
    lemma_hex_kept(y);
    lemma_hex_kept(b);
    model::lemma_keep_add(forms::hex_of(x) + dash, forms::hex_of(y), hex_chars());
    model::lemma_keep_add(forms::hex_of(x), dash, hex_chars());
    assert(dash.drop_last() =~= Seq::empty());
    assert(!hex_chars()(dash.last()));
    assert(model::keep(dash.drop_last(), hex_chars()) =~= Seq::empty());
    assert(model::keep(dash, hex_chars()) =~= Seq::empty());
    assert(model::keep(recovery_code(b), hex_chars()) =~= forms::hex_of(b));
}

/// A code that is accepted is the one of a step of half a minute that is the
/// current one, the one before or the next, and that was not the last to be
/// accepted.
pub proof fn law_accepted_is_current(
    secret: Seq<u8>,
    code: Seq<char>,
    unix_secs: u64,
    last_step: Option<u64>,
)
    ensures
        match verified_step(secret, code, unix_secs, last_step) {
            Some(step) => {
                &&& 30 * (step - 1) <= unix_secs < 30 * (step + 2)
                &&& last_step != Some(step)
                &&& typed_code(code) == Some(hotp_code(secret, step) as nat)
            },
            None => forall|step: u64|
                30 * (step - 1) <= unix_secs < 30 * (step + 2) && last_step != Some(step)
                    ==> typed_code(code) != Some(#[trigger] hotp_code(secret, step) as nat),
        },
{
    let now = (unix_secs / PERIOD_SECS) as int;
    assert(30 * now <= unix_secs < 30 * (now + 1));
    if verified_step(secret, code, unix_secs, last_step) is None {
        assert forall|step: u64|
            30 * (step - 1) <= unix_secs < 30 * (step + 2) && last_step != Some(
                step,
            ) implies typed_code(code) != Some(#[trigger] hotp_code(secret, step) as nat) by {
            assert(now - 1 <= step <= now + 1);
            assert(0 <= hotp_code(secret, step));
            if let Some(got) = typed_code(code) {
                assert(!accepts(secret, got, last_step, step as int));
            }
        }
    }
}

} // verus!
