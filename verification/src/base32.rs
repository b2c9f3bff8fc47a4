//! Base32 without padding.
use crate::model;
use crate::text::chars_of;
use vstd::prelude::*;

verus! {

/// Two to the power of `n`, for `n` from 0 to 7.
pub open spec fn p2(n: int) -> int {
    if n == 0 {
        1
    } else if n == 1 {
        2
    } else if n == 2 {
        4
    } else if n == 3 {
        8
    } else if n == 4 {
        16
    } else if n == 5 {
        32
    } else if n == 6 {
        64
    } else {
        128
    }
}

fn power(n: usize) -> (r: u8)
    requires
        n <= 7,
    ensures
        r == p2(n as int),
{
    if n == 0 {
        1
    } else if n == 1 {
        2
    } else if n == 2 {
        4
    } else if n == 3 {
        8
    } else if n == 4 {
        16
    } else if n == 5 {
        32
    } else if n == 6 {
        64
    } else {
        128
    }
}

/// Bit `k` of a string of items of `w` bits each, the highest bit of an item
/// first; zero behind the end.
#[verifier::opaque]
pub open spec fn bit(s: Seq<u8>, w: int, k: int) -> int {
    if 0 <= k < w * s.len() {
        (s[k / w] as int / p2(w - 1 - k % w)) % 2
    } else {
        0
    }
}

/// The five bits from position `5 * i` on.
#[verifier::opaque]
pub open spec fn quintet(s: Seq<u8>, i: int) -> int {
    bit(s, 8, 5 * i) * 16 + bit(s, 8, 5 * i + 1) * 8 + bit(s, 8, 5 * i + 2) * 4 + bit(
        s,
        8,
        5 * i + 3,
    ) * 2 + bit(s, 8, 5 * i + 4)
}

/// The eight bits from position `8 * i` on.
#[verifier::opaque]
pub open spec fn octet(s: Seq<u8>, i: int) -> int {
    bit(s, 5, 8 * i) * 128 + bit(s, 5, 8 * i + 1) * 64 + bit(s, 5, 8 * i + 2) * 32 + bit(
        s,
        5,
        8 * i + 3,
    ) * 16 + bit(s, 5, 8 * i + 4) * 8 + bit(s, 5, 8 * i + 5) * 4 + bit(s, 5, 8 * i + 6) * 2 + bit(
        s,
        5,
        8 * i + 7,
    )
}

/// The letter or digit for five bits.
pub open spec fn letter(v: int) -> char {
    if v < 26 {
        (65 + v) as char
    } else {
        (50 + v - 26) as char
    }
}

/// What bytes are written as: a character for every five bits.
pub open spec fn base32(s: Seq<u8>) -> Seq<char> {
    Seq::new(((8 * s.len() + 4) / 5) as nat, |i: int| letter(quintet(s, i)))
}

proof fn lemma_bit(s: Seq<u8>, w: int, k: int)
    requires
        w == 5 || w == 8,
    ensures
        0 <= bit(s, w, k) <= 1,
{
    reveal(bit);
}

fn bit_at(s: &Vec<u8>, w: usize, k: usize) -> (r: u8)
    requires
        w == 5 || w == 8,
    ensures
        r == bit(s@, w as int, k as int),
{
    reveal(bit);
    let i: usize = k / w;
    if i >= s.len() {
        assert(k >= w * s@.len()) by (nonlinear_arith)
            requires
                i >= s@.len(),
                i == k / w,
                w > 0,
        ;
        return 0;
    }
    assert(k < w * s@.len()) by (nonlinear_arith)
        requires
            i < s@.len(),
            i == k / w,
            w > 0,
    ;
    (s[i] / power(w - 1 - k % w)) % 2
}

fn letter_of(v: u8) -> (r: char)
    requires
        v < 32,
    ensures
        r == letter(v as int),
{
    if v < 26 {
        (65 + v) as char
    } else {
        (50 + (v - 26)) as char
    }
}

/// Writes bytes in base32.
pub fn encode_base32(bytes: &[u8]) -> (r: String)
    requires
        8 * bytes@.len() + 12 <= usize::MAX,
    ensures
        r@ == base32(bytes@),
{
    let mut v: Vec<u8> = Vec::new();
    v.extend_from_slice(bytes);
    assert(v@ =~= bytes@);
    let n: usize = (8 * v.len() + 4) / 5;
    let ghost t = base32(v@);
    let mut out = String::new();
    let mut i: usize = 0;
    while i < n
        invariant
            i <= n,
            n == (8 * v@.len() + 4) / 5,
            8 * v@.len() + 12 <= usize::MAX,
            t == base32(v@),
            out@ == t.take(i as int),
        decreases n - i,
    {
        proof {
            reveal(quintet);
            lemma_bit(v@, 8, 5 * i as int);
            lemma_bit(v@, 8, 5 * i + 1);
            lemma_bit(v@, 8, 5 * i + 2);
            lemma_bit(v@, 8, 5 * i + 3);
            lemma_bit(v@, 8, 5 * i + 4);
        }
        let a: u8 = bit_at(&v, 8, 5 * i);
        let b: u8 = bit_at(&v, 8, 5 * i + 1);
        let c: u8 = bit_at(&v, 8, 5 * i + 2);
        let d: u8 = bit_at(&v, 8, 5 * i + 3);
        let e: u8 = bit_at(&v, 8, 5 * i + 4);
        let q: u8 = a * 16 + b * 8 + c * 4 + d * 2 + e;
        out.push(letter_of(q));
        proof {
            model::lemma_take_push(t, i as int);
        }
        i += 1;
    }
    assert(t.take(n as int) =~= t);
    out
}

/// ASCII white space or padding: what reading passes over.
pub open spec fn passed_over(c: char) -> bool {
    ||| c == ' '
    ||| c == '\t'
    ||| c == '\n'
    ||| c as u32 == 0x0c
    ||| c == '\r'
    ||| c == '='
}

/// What a character stands for: one of the 26 letters, in either case, or one of
/// the digits from 2 to 7. No other character stands for anything.
pub open spec fn value_of(c: char) -> Option<u8> {
    if 'A' <= c <= 'Z' {
        Some((c as int - 65) as u8)
    } else if 'a' <= c <= 'z' {
        Some((c as int - 97) as u8)
    } else if '2' <= c <= '7' {
        Some((c as int - 24) as u8)
    } else {
        None
    }
}

/// The values of the characters, those to be passed over left out; `None` if one
/// of the others stands for nothing.
pub open spec fn values_of(s: Seq<char>) -> Option<Seq<u8>>
    decreases s.len(),
{
    if s.len() == 0 {
        Some(Seq::empty())
    } else {
        match values_of(s.drop_last()) {
            Some(v) => if passed_over(s.last()) {
                Some(v)
            } else {
                match value_of(s.last()) {
                    Some(x) => Some(v.push(x)),
                    None => None,
                }
            },
            None => None,
        }
    }
}

/// The bytes that values of five bits make: all whole ones.
pub open spec fn octets(v: Seq<u8>) -> Seq<u8> {
    Seq::new(((5 * v.len()) / 8) as nat, |i: int| octet(v, i) as u8)
}

/// What a text in base32 holds.
pub open spec fn base32_bytes(s: Seq<char>) -> Option<Seq<u8>> {
    match values_of(s) {
        Some(v) => Some(octets(v)),
        None => None,
    }
}

fn is_passed_over(c: char) -> (r: bool)
    ensures
        r == passed_over(c),
{
    c == ' ' || c == '\t' || c == '\n' || c as u32 == 0x0c || c == '\r' || c == '='
}

fn find_value(c: char) -> (r: Option<u8>)
    ensures
        r == value_of(c),
{
    if 'A' <= c && c <= 'Z' {
        Some((c as u32 - 65) as u8)
    } else if 'a' <= c && c <= 'z' {
        Some((c as u32 - 97) as u8)
    } else if '2' <= c && c <= '7' {
        Some((c as u32 - 24) as u8)
    } else {
        None
    }
}

/// Where a character stands for nothing, no longer text can be read.
proof fn lemma_values_stuck(s: Seq<char>, i: int)
    requires
        0 <= i <= s.len(),
        values_of(s.take(i)) is None,
    ensures
        values_of(s) is None,
    decreases s.len(),
{
    if i < s.len() {
        assert(s.drop_last().take(i) =~= s.take(i));
        lemma_values_stuck(s.drop_last(), i);
    } else {
        assert(s.take(i) =~= s);
    }
}

/// Reads base32, with or without padding; white space and case do not matter.
pub fn decode_base32(s: &str) -> (r: Option<Vec<u8>>)
    requires
        5 * s@.len() + 8 <= usize::MAX,
    ensures
        match base32_bytes(s@) {
            Some(b) => r matches Some(v) && v@ == b,
            None => r is None,
        },
{
    let cs = chars_of(s);
    let mut v: Vec<u8> = Vec::new();
    let mut i: usize = 0;
    assert(cs@.take(0) =~= Seq::empty());
    while i < cs.len()
        invariant
            i <= cs@.len(),
            cs@ == s@,
            values_of(cs@.take(i as int)) == Some(v@),
            v@.len() <= i,
        decreases cs@.len() - i,
    {
        proof {
            assert(cs@.take(i + 1).drop_last() =~= cs@.take(i as int));
            assert(cs@.take(i + 1).last() == cs@[i as int]);
        }
        let c = cs[i];
        if !is_passed_over(c) {
            match find_value(c) {
                Some(x) => v.push(x),
                None => {
                    proof {
                        lemma_values_stuck(cs@, i + 1);
                    }
                    return None;
                },
            }
        }
        i += 1;
    }
    assert(cs@.take(cs@.len() as int) =~= cs@);
    let n: usize = 5 * v.len() / 8;
    let ghost t = octets(v@);
    let mut out: Vec<u8> = Vec::new();
    let mut k: usize = 0;
    while k < n
        invariant
            k <= n,
            n == (5 * v@.len()) / 8,
            5 * v@.len() + 8 <= usize::MAX,
            t == octets(v@),
            out@ == t.take(k as int),
        decreases n - k,
    {
        proof {
            reveal(octet);
            lemma_bit(v@, 5, 8 * k as int);
            lemma_bit(v@, 5, 8 * k + 1);
            lemma_bit(v@, 5, 8 * k + 2);
            lemma_bit(v@, 5, 8 * k + 3);
            lemma_bit(v@, 5, 8 * k + 4);
            lemma_bit(v@, 5, 8 * k + 5);
            lemma_bit(v@, 5, 8 * k + 6);
            lemma_bit(v@, 5, 8 * k + 7);
        }
        let high: u8 = bit_at(&v, 5, 8 * k) * 128 + bit_at(&v, 5, 8 * k + 1) * 64 + bit_at(
            &v,
            5,
            8 * k + 2,
        ) * 32 + bit_at(&v, 5, 8 * k + 3) * 16;
        let low: u8 = bit_at(&v, 5, 8 * k + 4) * 8 + bit_at(&v, 5, 8 * k + 5) * 4 + bit_at(
            &v,
            5,
            8 * k + 6,
        ) * 2 + bit_at(&v, 5, 8 * k + 7);
        out.push(high + low);
        proof {
            model::lemma_take_push(t, k as int);
        }
        k += 1;
    }
    assert(t.take(n as int) =~= t);
    Some(out)
}

/// The five-bit values of some bytes.
pub open spec fn quintets(s: Seq<u8>) -> Seq<u8> {
    Seq::new(((8 * s.len() + 4) / 5) as nat, |i: int| quintet(s, i) as u8)
}

proof fn lemma_quintet(s: Seq<u8>, i: int)
    ensures
        0 <= quintet(s, i) < 32,
{
    reveal(quintet);
    lemma_bit(s, 8, 5 * i);
    lemma_bit(s, 8, 5 * i + 1);
    lemma_bit(s, 8, 5 * i + 2);
    lemma_bit(s, 8, 5 * i + 3);
    lemma_bit(s, 8, 5 * i + 4);
}

proof fn lemma_letter(q: int)
    requires
        0 <= q < 32,
    ensures
        value_of(letter(q)) == Some(q as u8),
        !passed_over(letter(q)),
{
}

/// The values of the characters that were written are the five-bit values.
proof fn lemma_values_back(s: Seq<u8>, n: int)
    requires
        0 <= n <= base32(s).len(),
    ensures
        values_of(base32(s).take(n)) == Some(quintets(s).take(n)),
    decreases n,
{
    let t = base32(s).take(n);
    let v = quintets(s);
    if n > 0 {
        lemma_values_back(s, n - 1);
        let i = n - 1;
        assert(t.drop_last() =~= base32(s).take(i));
        assert(t.last() == letter(quintet(s, i)));
        lemma_quintet(s, i);
        lemma_letter(quintet(s, i));
        assert(v[i] == quintet(s, i) as u8);
        model::lemma_take_push(v, i);
    } else {
        assert(t =~= Seq::empty());
        assert(v.take(0) =~= Seq::empty());
    }
}

/// Bit `j` of value `i`.
proof fn lemma_value_bit(v: Seq<u8>, i: int, j: int)
    requires
        0 <= i < v.len(),
        0 <= j < 5,
    ensures
        bit(v, 5, 5 * i + j) == (v[i] as int / p2(4 - j)) % 2,
{
    reveal(bit);
    assert((5 * i + j) / 5 == i);
    assert((5 * i + j) % 5 == j);
}

proof fn lemma_five_bits(a: int, b: int, c: int, d: int, e: int)
    requires
        0 <= a <= 1,
        0 <= b <= 1,
        0 <= c <= 1,
        0 <= d <= 1,
        0 <= e <= 1,
    ensures
        ({
            let q = a * 16 + b * 8 + c * 4 + d * 2 + e;
            &&& (q / 16) % 2 == a
            &&& (q / 8) % 2 == b
            &&& (q / 4) % 2 == c
            &&& (q / 2) % 2 == d
            &&& (q / 1) % 2 == e
        }),
{
}

/// The bits of the five-bit values are the bits of the bytes.
proof fn lemma_same_bits(s: Seq<u8>, k: int)
    requires
        0 <= k < 8 * s.len(),
    ensures
        bit(quintets(s), 5, k) == bit(s, 8, k),
{
    let i = k / 5;
    let j = k % 5;
    let v = quintets(s);
    assert(k == 5 * i + j);
    assert(0 <= i < v.len());
    lemma_value_bit(v, i, j);
    lemma_quintet(s, i);
    assert(v[i] == quintet(s, i));
    lemma_bit(s, 8, 5 * i);
    lemma_bit(s, 8, 5 * i + 1);
    lemma_bit(s, 8, 5 * i + 2);
    lemma_bit(s, 8, 5 * i + 3);
    lemma_bit(s, 8, 5 * i + 4);
    lemma_five_bits(
        bit(s, 8, 5 * i),
        bit(s, 8, 5 * i + 1),
        bit(s, 8, 5 * i + 2),
        bit(s, 8, 5 * i + 3),
        bit(s, 8, 5 * i + 4),
    );
    reveal(quintet);
}

proof fn lemma_byte_bits(b: u8)
    ensures
        b as int == (b as int / 128) % 2 * 128 + (b as int / 64) % 2 * 64 + (b as int / 32) % 2
            * 32 + (b as int / 16) % 2 * 16 + (b as int / 8) % 2 * 8 + (b as int / 4) % 2 * 4 + (
        b as int / 2) % 2 * 2 + b as int % 2,
{
    assert(b == (b / 128) % 2 * 128 + (b / 64) % 2 * 64 + (b / 32) % 2 * 32 + (b / 16) % 2 * 16 + (
    b / 8) % 2 * 8 + (b / 4) % 2 * 4 + (b / 2) % 2 * 2 + b % 2) by (bit_vector);
}

/// Bit `j` of byte `i`.
proof fn lemma_bit_of(s: Seq<u8>, i: int, j: int)
    requires
        0 <= i < s.len(),
        0 <= j < 8,
    ensures
        bit(s, 8, 8 * i + j) == (s[i] as int / p2(7 - j)) % 2,
{
    reveal(bit);
    assert((8 * i + j) / 8 == i);
    assert((8 * i + j) % 8 == j);
}

proof fn lemma_octet(s: Seq<u8>, i: int)
    requires
        0 <= i < s.len(),
    ensures
        octet(quintets(s), i) == s[i],
{
    reveal(octet);
    let v = quintets(s);
    lemma_same_bits(s, 8 * i);
    lemma_same_bits(s, 8 * i + 1);
    lemma_same_bits(s, 8 * i + 2);
    lemma_same_bits(s, 8 * i + 3);
    lemma_same_bits(s, 8 * i + 4);
    lemma_same_bits(s, 8 * i + 5);
    lemma_same_bits(s, 8 * i + 6);
    lemma_same_bits(s, 8 * i + 7);
    lemma_bit_of(s, i, 0);
    lemma_bit_of(s, i, 1);
    lemma_bit_of(s, i, 2);
    lemma_bit_of(s, i, 3);
    lemma_bit_of(s, i, 4);
    lemma_bit_of(s, i, 5);
    lemma_bit_of(s, i, 6);
    lemma_bit_of(s, i, 7);
    lemma_byte_bits(s[i]);
}

/// Base32 is read as it was written.
pub proof fn law_base32_roundtrip(s: Seq<u8>)
    ensures
        base32_bytes(base32(s)) == Some(s),
{
    let n = base32(s).len() as int;
    lemma_values_back(s, n);
    assert(base32(s).take(n) =~= base32(s));
    let v = quintets(s);
    assert(v.take(n) =~= v);
    assert((5 * v.len()) / 8 == s.len());
    let o = octets(v);
    assert(o.len() == s.len());
    assert forall|i: int| 0 <= i < s.len() implies o[i] == s[i] by {
        lemma_octet(s, i);
        assert(o[i] == octet(v, i) as u8);
    }
    assert(o =~= s);
}

} // verus!
