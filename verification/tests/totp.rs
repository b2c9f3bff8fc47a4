//! One-time passwords, base 32 and recovery codes.
use pnet::base32::{decode_base32, encode_base32};
use pnet::totp::{
    generate_recovery_codes, generate_secret, hotp, normalize_recovery_code, otpauth_url,
    parse_totp_code, recovery_code_of, secret_of, six_digit_text, totp_at, totp_code_string,
    truncate_mac, url_encode_component, verify_totp, PERIOD_SECS, RECOVERY_CODE_COUNT, SECRET_LEN,
};

// RFC 4226 Appendix D.
const RFC_SECRET: &[u8] = b"12345678901234567890";

#[test]
fn hotp_rfc4226_vectors() {
    assert_eq!(hotp(RFC_SECRET, 0), 755224);
    assert_eq!(hotp(RFC_SECRET, 1), 287082);
    assert_eq!(hotp(RFC_SECRET, 2), 359152);
}

#[test]
fn hotp_keeps_to_the_rest_of_the_table() {
    let want = [969429u32, 338314, 254676, 287922, 162583, 399871, 520489];
    for (i, w) in want.iter().enumerate() {
        assert_eq!(hotp(RFC_SECRET, i as u64 + 3), *w);
    }
}

#[test]
fn totp_at_uses_30s_steps() {
    assert_eq!(totp_at(RFC_SECRET, 30), 287082);
    assert_eq!(totp_code_string(RFC_SECRET, 30), "287082");
}

#[test]
fn a_code_holds_for_one_period() {
    assert_eq!(PERIOD_SECS, 30);
    assert_eq!(totp_at(RFC_SECRET, 59), totp_at(RFC_SECRET, 30));
    assert_ne!(totp_at(RFC_SECRET, 60), totp_at(RFC_SECRET, 59));
    // RFC 6238 Appendix B, cut to six digits.
    assert_eq!(totp_code_string(RFC_SECRET, 1111111109), "081804");
    assert_eq!(totp_code_string(RFC_SECRET, 2000000000), "279037");
}

#[test]
fn verify_accepts_skew_and_rejects_replay() {
    let t = 30u64;
    let code = totp_code_string(RFC_SECRET, t);
    let step = verify_totp(RFC_SECRET, &code, t, None).expect("current step");
    assert_eq!(step, 1);
    assert!(verify_totp(RFC_SECRET, &code, t, Some(step)).is_none());
    let prev = totp_code_string(RFC_SECRET, 0);
    assert!(verify_totp(RFC_SECRET, &prev, t, None).is_some());
    assert!(verify_totp(RFC_SECRET, "000000", t, None).is_none());
    assert!(verify_totp(RFC_SECRET, "abc", t, None).is_none());
}

#[test]
fn verify_looks_one_step_ahead_and_no_further() {
    let next = totp_code_string(RFC_SECRET, 60);
    assert_eq!(verify_totp(RFC_SECRET, &next, 30, None), Some(2));
    let later = totp_code_string(RFC_SECRET, 90);
    assert_eq!(verify_totp(RFC_SECRET, &later, 30, None), None);
    let older = totp_code_string(RFC_SECRET, 30);
    assert_eq!(verify_totp(RFC_SECRET, &older, 90, None), None);
}

#[test]
fn codes_are_read_leniently() {
    assert_eq!(parse_totp_code("287082"), Some(287082));
    assert_eq!(parse_totp_code(" 287 082 "), Some(287082));
    assert_eq!(parse_totp_code("28708"), None);
    assert_eq!(parse_totp_code("287-082"), Some(287082));
    assert_eq!(parse_totp_code("2870822"), None);
    assert_eq!(six_digit_text(42), "000042");
}

#[test]
fn a_code_holds_nothing_but_digits() {
    assert_eq!(parse_totp_code("a123456"), None);
    assert_eq!(parse_totp_code("123456."), None);
    assert_eq!(parse_totp_code("+123456"), None);
    assert_eq!(parse_totp_code("12345a"), None);
    assert_eq!(parse_totp_code("\u{661}23456"), None);
    assert_eq!(parse_totp_code(""), None);
    let code = totp_code_string(RFC_SECRET, 30);
    assert_eq!(verify_totp(RFC_SECRET, &format!("a{code}"), 30, None), None);
    assert_eq!(verify_totp(RFC_SECRET, &format!("-{code} "), 30, None), Some(1));
}

#[test]
fn the_mac_is_cut_where_its_last_nibble_says() {
    // RFC 4226 section 5.4.
    let mac = vec![
        0x1f, 0x86, 0x98, 0x69, 0x0e, 0x02, 0xca, 0x16, 0x61, 0x85, 0x50, 0xef, 0x7f, 0x19, 0xda,
        0x8e, 0x94, 0x5b, 0x55, 0x5a,
    ];
    assert_eq!(truncate_mac(&mac), 872921);
}

#[test]
fn base32_roundtrip_unpadded() {
    let secret = b"12345678901234567890";
    let enc = encode_base32(secret);
    assert_eq!(enc, "GEZDGNBVGY3TQOJQGEZDGNBVGY3TQOJQ");
    let dec = decode_base32(&enc).unwrap();
    assert_eq!(dec, secret);
    assert_eq!(decode_base32("gez dgnbvgy3tqojqgez dgnbvgy3tqojq").unwrap(), secret);
}

#[test]
fn base32_of_every_length_comes_back() {
    assert_eq!(encode_base32(b"f"), "MY");
    assert_eq!(encode_base32(b"foobar"), "MZXW6YTBOI");
    assert_eq!(decode_base32("MZXW6YTBOI======").unwrap(), b"foobar");
    assert!(decode_base32("M0").is_none());
    assert!(decode_base32("!").is_none());
    assert!(decode_base32("\u{141}\u{141}").is_none());
    assert!(decode_base32("MZXW6\u{132}").is_none());
    assert!(decode_base32("MZ\u{a0}XW").is_none());
    assert_eq!(decode_base32("mz xw\t6y\ntb\roi").unwrap(), b"foobar");
    for n in 0..40usize {
        let bytes: Vec<u8> = (0..n).map(|i| (i * 37 + 11) as u8).collect();
        assert_eq!(decode_base32(&encode_base32(&bytes)).unwrap(), bytes);
    }
}

#[test]
fn otpauth_url_contains_secret_and_issuer() {
    let url = otpauth_url("Alice", "GEZDGNBVGY3TQOJQGEZDGNBVGY3TQOJQ");
    assert!(url.starts_with("otpauth://totp/pNet%3AAlice?"));
    assert!(url.contains("secret=GEZDGNBVGY3TQOJQGEZDGNBVGY3TQOJQ"));
    assert!(url.contains("issuer=pNet"));
    assert!(url.contains("algorithm=SHA1"));
}

#[test]
fn url_components_escape_all_but_the_unreserved() {
    assert_eq!(url_encode_component("aZ0-_.~"), "aZ0-_.~");
    assert_eq!(url_encode_component("a b/c"), "a%20b%2Fc");
    assert_eq!(url_encode_component("\u{e9}"), "%C3%A9");
}

#[test]
fn recovery_codes_are_unique_and_normalizable() {
    let codes = generate_recovery_codes();
    assert_eq!(codes.len(), RECOVERY_CODE_COUNT);
    let mut set = std::collections::HashSet::new();
    for c in &codes {
        assert!(c.contains('-'));
        assert_eq!(normalize_recovery_code(c).len(), 16);
        assert!(set.insert(c.clone()));
    }
    assert_eq!(normalize_recovery_code("ABCD-EF01 "), normalize_recovery_code("abcd-ef01"));
}

#[test]
fn a_recovery_code_shows_its_random_bytes() {
    let code = recovery_code_of(&vec![0x01, 0x23, 0x45, 0x67, 0x89, 0xab, 0xcd, 0xef]);
    assert_eq!(normalize_recovery_code(&code), "0123456789abcdef");
}

#[test]
fn a_secret_is_random() {
    let a = generate_secret();
    let b = generate_secret();
    assert_eq!(a.len(), SECRET_LEN);
    assert_ne!(a, [0u8; 20]);
    assert_ne!(a, b);
    let bytes: Vec<u8> = (0..20).collect();
    assert_eq!(secret_of(&bytes)[..], bytes[..]);
}
