//! The byte format of persisted state: little-endian fixed-width numbers,
//! length-prefixed character strings, and length-prefixed opaque blobs,
//! with the whole image compressed before it is written.

use vstd::prelude::*;
use vstd::arithmetic::div_mod::lemma_fundamental_div_mod_converse;
use crate::text::chars_to_string;
use crate::text::chars_vec;

verus! {

/// The little-endian four-byte form of a 32-bit number.
#[verifier::opaque]
pub open spec fn le32(n: u32) -> Seq<u8> {
    seq![
        (n % 256) as u8,
        ((n / 256) % 256) as u8,
        ((n / 65536) % 256) as u8,
        ((n / 16777216) % 256) as u8,
    ]
}

/// The little-endian eight-byte form of a 64-bit number.
#[verifier::opaque]
pub open spec fn le64(n: u64) -> Seq<u8> {
    seq![
        (n % 256) as u8,
        ((n / 256) % 256) as u8,
        ((n / 0x10000) % 256) as u8,
        ((n / 0x1000000) % 256) as u8,
        ((n / 0x100000000) % 256) as u8,
        ((n / 0x10000000000) % 256) as u8,
        ((n / 0x1000000000000) % 256) as u8,
        ((n / 0x100000000000000) % 256) as u8,
    ]
}

/// The value read back from a four-byte little-endian form.
pub open spec fn de32(b: Seq<u8>) -> int {
    b[0] + 256 * (b[1] + 256 * (b[2] + 256 * (b[3] as int)))
}

/// The value read back from an eight-byte little-endian form.
pub open spec fn de64(b: Seq<u8>) -> int {
    b[0] + 256 * (b[1] + 256 * (b[2] + 256 * (b[3] + 256 * (b[4] + 256 * (b[5] + 256 * (b[6]
        + 256 * (b[7] as int)))))))
}

/// The four-byte form is four bytes long.
pub broadcast proof fn lemma_le32_len(n: u32)
    ensures
        (#[trigger] le32(n)).len() == 4,
{
    reveal(le32);
}

/// The eight-byte form is eight bytes long.
pub broadcast proof fn lemma_le64_len(n: u64)
    ensures
        (#[trigger] le64(n)).len() == 8,
{
    reveal(le64);
}

/// `x / 256^(k+1)` is `(x / 256^k) / 256`.
proof fn lemma_div_step(n: int, d: int)
    requires
        n >= 0,
        d >= 1,
    ensures
        (n / d) / 256 == n / (256 * d),
        n / d == 256 * (n / (256 * d)) + (n / d) % 256,
{
    vstd::arithmetic::div_mod::lemma_div_denominator(n, d, 256);
    vstd::arithmetic::div_mod::lemma_fundamental_div_mod(n / d, 256);
    assert(d * 256 == 256 * d);
}

/// Reading back the four-byte form yields the number.
pub proof fn lemma_de_le32(n: u32)
    ensures
        de32(le32(n)) == n,
{
    broadcast use lemma_le32_len, lemma_le64_len;
    reveal(le32);
    let q0 = n as int;
    let q1 = q0 / 256;
    let q2 = q0 / 65536;
    let q3 = q0 / 16777216;
    lemma_div_step(q0, 1);
    lemma_div_step(q0, 256);
    lemma_div_step(q0, 65536);
    assert(q0 / 1 == q0);
    assert(q3 < 256) by {
        vstd::arithmetic::div_mod::lemma_div_is_ordered(q0, 0xffffffff, 16777216);
        assert(0xffffffffint / 16777216 == 255);
    }
    assert(q3 % 256 == q3) by {
        vstd::arithmetic::div_mod::lemma_small_mod(q3 as nat, 256);
    }
}

/// Reading back the eight-byte form yields the number.
pub proof fn lemma_de_le64(n: u64)
    ensures
        de64(le64(n)) == n,
{
    broadcast use lemma_le32_len, lemma_le64_len;
    reveal(le64);
    let q0 = n as int;
    let q7 = q0 / 0x100000000000000;
    lemma_div_step(q0, 1);
    lemma_div_step(q0, 256);
    lemma_div_step(q0, 0x10000);
    lemma_div_step(q0, 0x1000000);
    lemma_div_step(q0, 0x100000000);
    lemma_div_step(q0, 0x10000000000);
    lemma_div_step(q0, 0x1000000000000);
    assert(q0 / 1 == q0);
    assert(q7 < 256) by {
        vstd::arithmetic::div_mod::lemma_div_is_ordered(q0, 0xffffffffffffffff, 0x100000000000000);
        assert(0xffffffffffffffffint / 0x100000000000000 == 255);
    }
    assert(q7 % 256 == q7) by {
        vstd::arithmetic::div_mod::lemma_div_pos_is_pos(q0, 0x100000000000000);
        vstd::arithmetic::div_mod::lemma_small_mod(q7 as nat, 256);
    }
}

/// Appends the eight-byte form of `n`.
pub fn emit_u64(out: &mut Vec<u8>, n: u64)
    ensures
        final(out)@ == old(out)@ + le64(n),
{
    broadcast use lemma_le32_len, lemma_le64_len;
    let ghost base = out@;
    out.push((n % 256) as u8);
    out.push(((n / 256) % 256) as u8);
    out.push(((n / 0x10000) % 256) as u8);
    out.push(((n / 0x1000000) % 256) as u8);
    out.push(((n / 0x100000000) % 256) as u8);
    out.push(((n / 0x10000000000) % 256) as u8);
    out.push(((n / 0x1000000000000) % 256) as u8);
    out.push(((n / 0x100000000000000) % 256) as u8);
    proof {
        reveal(le64);
        assert(out@ =~= base + le64(n));
    }
}

/// Appends the four-byte form of `n`.
pub fn emit_u32(out: &mut Vec<u8>, n: u32)
    ensures
        final(out)@ == old(out)@ + le32(n),
{
    broadcast use lemma_le32_len, lemma_le64_len;
    let ghost base = out@;
    out.push((n % 256) as u8);
    out.push(((n / 256) % 256) as u8);
    out.push(((n / 65536) % 256) as u8);
    out.push(((n / 16777216) % 256) as u8);
    proof {
        reveal(le32);
        assert(out@ =~= base + le32(n));
    }
}

/// Reads an eight-byte little-endian number.
pub fn parse_u64(b: &Vec<u8>, pos: usize) -> (r: Option<(u64, usize)>)
    requires
        pos <= b@.len(),
    ensures
        r matches Some(p) ==> (pos + 8 <= b@.len() && b@.subrange(pos as int, pos as int + 8)
            == le64(p.0) && p.1 == pos + 8),
        r is None ==> pos + 8 > b@.len(),
{
    broadcast use lemma_le32_len, lemma_le64_len;
    if b.len() - pos < 8 {
        return None;
    }
    let mut m: u64 = b[pos + 7] as u64;
    m = m * 256 + b[pos + 6] as u64;
    m = m * 256 + b[pos + 5] as u64;
    m = m * 256 + b[pos + 4] as u64;
    m = m * 256 + b[pos + 3] as u64;
    m = m * 256 + b[pos + 2] as u64;
    m = m * 256 + b[pos + 1] as u64;
    m = m * 256 + b[pos] as u64;
    proof {
        let w = b@.subrange(pos as int, pos as int + 8);
        assert(w[0] == b@[pos as int] && w[1] == b@[pos as int + 1] && w[2] == b@[pos as int + 2]
            && w[3] == b@[pos as int + 3] && w[4] == b@[pos as int + 4] && w[5] == b@[pos as int
            + 5] && w[6] == b@[pos as int + 6] && w[7] == b@[pos as int + 7]);
        assert(m == de64(w));
        lemma_le_de64(w, m);
    }
    Some((m, pos + 8))
}

/// Reads a four-byte little-endian number.
pub fn parse_u32(b: &Vec<u8>, pos: usize) -> (r: Option<(u32, usize)>)
    requires
        pos <= b@.len(),
    ensures
        r matches Some(p) ==> (pos + 4 <= b@.len() && b@.subrange(pos as int, pos as int + 4)
            == le32(p.0) && p.1 == pos + 4),
        r is None ==> pos + 4 > b@.len(),
{
    broadcast use lemma_le32_len, lemma_le64_len;
    if b.len() - pos < 4 {
        return None;
    }
    let mut m: u32 = b[pos + 3] as u32;
    m = m * 256 + b[pos + 2] as u32;
    m = m * 256 + b[pos + 1] as u32;
    m = m * 256 + b[pos] as u32;
    proof {
        let w = b@.subrange(pos as int, pos as int + 4);
        assert(w[0] == b@[pos as int] && w[1] == b@[pos as int + 1] && w[2] == b@[pos as int + 2]
            && w[3] == b@[pos as int + 3]);
        assert(m == de32(w));
        lemma_le_de32(w, m);
    }
    Some((m, pos + 4))
}

/// The four-byte forms of the characters of `s`, in order.
pub open spec fn enc_chars(s: Seq<char>) -> Seq<u8>
    decreases s.len(),
{
    if s.len() == 0 {
        Seq::empty()
    } else {
        le32(s[0] as u32) + enc_chars(s.drop_first())
    }
}

/// A character string: its length, then its characters.
pub open spec fn enc_str(s: Seq<char>) -> Seq<u8> {
    le64(s.len() as u64) + enc_chars(s)
}

/// A single byte.
pub open spec fn enc_u8(x: u8) -> Seq<u8> {
    seq![x]
}

/// A boolean as one byte.
pub open spec fn enc_bool(x: bool) -> Seq<u8> {
    seq![
        if x {
            1u8
        } else {
            0u8
        },
    ]
}

/// An optional string: a tag byte, then the string when present.
pub open spec fn enc_opt_str(o: Option<Seq<char>>) -> Seq<u8> {
    match o {
        Option::None => seq![0u8],
        Some(s) => seq![1u8] + enc_str(s),
    }
}

pub proof fn lemma_enc_chars_len(s: Seq<char>)
    ensures
        enc_chars(s).len() == 4 * s.len(),
    decreases s.len(),
{
    broadcast use lemma_le32_len, lemma_le64_len;
    if s.len() > 0 {
        lemma_enc_chars_len(s.drop_first());
    }
}

pub proof fn lemma_enc_chars_push(s: Seq<char>, c: char)
    ensures
        enc_chars(s.push(c)) == enc_chars(s) + le32(c as u32),
    decreases s.len(),
{
    broadcast use lemma_le32_len, lemma_le64_len;
    if s.len() == 0 {
        assert(s.push(c)[0] == c);
        assert(s.push(c).drop_first() =~= Seq::<char>::empty());
        assert(enc_chars(s.push(c)) == le32(c as u32) + enc_chars(Seq::<char>::empty()));
        assert(enc_chars(s.push(c)) =~= enc_chars(s) + le32(c as u32));
    } else {
        assert(s.push(c)[0] == s[0]);
        assert(s.push(c).drop_first() =~= s.drop_first().push(c));
        lemma_enc_chars_push(s.drop_first(), c);
        assert(enc_chars(s.push(c)) == le32(s[0] as u32) + (enc_chars(s.drop_first()) + le32(
            c as u32,
        )));
        assert(enc_chars(s.push(c)) =~= enc_chars(s) + le32(c as u32));
    }
}

/// The window of `enc_chars(s)` at position `4 i` is the form of `s[i]`.
pub proof fn lemma_enc_chars_index(s: Seq<char>, i: int)
    requires
        0 <= i < s.len(),
    ensures
        enc_chars(s).subrange(4 * i, 4 * i + 4) =~= le32(s[i] as u32),
    decreases i,
{
    broadcast use lemma_le32_len, lemma_le64_len;
    lemma_enc_chars_len(s);
    lemma_enc_chars_len(s.drop_first());
    if i == 0 {
        assert(enc_chars(s).subrange(0, 4) =~= le32(s[0] as u32));
    } else {
        lemma_enc_chars_index(s.drop_first(), i - 1);
        assert(enc_chars(s).subrange(4 * i, 4 * i + 4) =~= enc_chars(s.drop_first()).subrange(
            4 * (i - 1),
            4 * (i - 1) + 4,
        ));
    }
}

/// Two little-endian forms of the same width agree only on equal values.
pub proof fn lemma_le64_inj(x: u64, y: u64)
    requires
        le64(x) == le64(y),
    ensures
        x == y,
{
    lemma_de_le64(x);
    lemma_de_le64(y);
}

pub proof fn lemma_le32_inj(x: u32, y: u32)
    requires
        le32(x) == le32(y),
    ensures
        x == y,
{
    lemma_de_le32(x);
    lemma_de_le32(y);
}

/// An eight-byte window whose value is `n` is the form of `n`.
proof fn lemma_le_de64(w: Seq<u8>, n: u64)
    requires
        w.len() == 8,
        de64(w) == n,
    ensures
        le64(n) =~= w,
{
    reveal(le64);
    let m7 = w[7] as int;
    let m6 = w[6] + 256 * m7;
    let m5 = w[5] + 256 * m6;
    let m4 = w[4] + 256 * m5;
    let m3 = w[3] + 256 * m4;
    let m2 = w[2] + 256 * m3;
    let m1 = w[1] + 256 * m2;
    lemma_fundamental_div_mod_converse(n as int, 256, m1, w[0] as int);
    lemma_div_step(n as int, 1);
    lemma_fundamental_div_mod_converse(m1, 256, m2, w[1] as int);
    lemma_div_step(n as int, 256);
    lemma_fundamental_div_mod_converse(m2, 256, m3, w[2] as int);
    lemma_div_step(n as int, 0x10000);
    lemma_fundamental_div_mod_converse(m3, 256, m4, w[3] as int);
    lemma_div_step(n as int, 0x1000000);
    lemma_fundamental_div_mod_converse(m4, 256, m5, w[4] as int);
    lemma_div_step(n as int, 0x100000000);
    lemma_fundamental_div_mod_converse(m5, 256, m6, w[5] as int);
    lemma_div_step(n as int, 0x10000000000);
    lemma_fundamental_div_mod_converse(m6, 256, m7, w[6] as int);
    lemma_div_step(n as int, 0x1000000000000);
    assert((n as int) / 1 == n as int);
    vstd::arithmetic::div_mod::lemma_small_mod(w[7] as nat, 256);
}

/// A four-byte window whose value is `n` is the form of `n`.
proof fn lemma_le_de32(w: Seq<u8>, n: u32)
    requires
        w.len() == 4,
        de32(w) == n,
    ensures
        le32(n) =~= w,
{
    reveal(le32);
    let m3 = w[3] as int;
    let m2 = w[2] + 256 * m3;
    let m1 = w[1] + 256 * m2;
    lemma_fundamental_div_mod_converse(n as int, 256, m1, w[0] as int);
    lemma_div_step(n as int, 1);
    lemma_fundamental_div_mod_converse(m1, 256, m2, w[1] as int);
    lemma_div_step(n as int, 256);
    lemma_fundamental_div_mod_converse(m2, 256, m3, w[2] as int);
    lemma_div_step(n as int, 65536);
    assert((n as int) / 1 == n as int);
    vstd::arithmetic::div_mod::lemma_small_mod(w[3] as nat, 256);
}

/// A valid string form at `pos` whose length field reads `m` pins the
/// length, the span, and every character window.
#[verifier::rlimit(100)]
pub(crate) proof fn lemma_str_unique(b: Seq<u8>, pos: int, m: u64)
    requires
        0 <= pos,
        pos + 8 <= b.len(),
        b.len() <= 0xffffffffffffffff,
        b.subrange(pos, pos + 8) == le64(m),
    ensures
        forall|k: Seq<char>, rest: Seq<u8>|
            b.subrange(pos, b.len() as int) == #[trigger] (enc_str(k) + rest) ==> (k.len() == m
                && pos + 8 + 4 * k.len() <= b.len() && (forall|i: int|
                0 <= i < k.len() ==> b.subrange(pos + 8 + 4 * i, pos + 8 + 4 * i + 4) == le32(
                    #[trigger] k[i] as u32,
                ))),
{
    broadcast use lemma_le32_len, lemma_le64_len;

    let suffix = b.subrange(pos, b.len() as int);
    assert forall|k: Seq<char>, rest: Seq<u8>|
        suffix == #[trigger] (enc_str(k) + rest) implies (k.len() == m && pos + 8 + 4 * k.len()
        <= b.len() && (forall|i: int|
        0 <= i < k.len() ==> b.subrange(pos + 8 + 4 * i, pos + 8 + 4 * i + 4) == le32(
            #[trigger] k[i] as u32,
        ))) by {
        lemma_enc_chars_len(k);
        assert(suffix.len() == enc_str(k).len() + rest.len());
        assert(k.len() <= 0xffffffffffffffff);
        assert(le64(k.len() as u64) =~= suffix.subrange(0, 8)) by {
            assert(forall|q: int| 0 <= q < 8 ==> suffix[q] == (enc_str(k) + rest)[q]);
        }
        assert(le64(m) =~= suffix.subrange(0, 8)) by {
            assert(forall|q: int|
                0 <= q < 8 ==> b.subrange(pos, pos + 8)[q] == suffix.subrange(0, 8)[q]);
        }
        lemma_le64_inj(m, k.len() as u64);
        assert forall|i: int| 0 <= i < k.len() implies b.subrange(
            pos + 8 + 4 * i,
            pos + 8 + 4 * i + 4,
        ) == le32(#[trigger] k[i] as u32) by {
            lemma_enc_chars_index(k, i);
            assert(b.subrange(pos + 8 + 4 * i, pos + 8 + 4 * i + 4) =~= enc_chars(k).subrange(
                4 * i,
                4 * i + 4,
            )) by {
                assert forall|q: int|
                    0 <= q < 4 implies #[trigger] b.subrange(
                    pos + 8 + 4 * i,
                    pos + 8 + 4 * i + 4,
                )[q] == enc_chars(k).subrange(4 * i, 4 * i + 4)[q] by {
                    assert(b.subrange(pos + 8 + 4 * i, pos + 8 + 4 * i + 4)[q] == b[pos + 8 + 4 * i
                        + q]);
                    assert(b[pos + 8 + 4 * i + q] == suffix[8 + 4 * i + q]);
                    assert(suffix[8 + 4 * i + q] == (enc_str(k) + rest)[8 + 4 * i + q]);
                    assert(enc_str(k)[8 + 4 * i + q] == enc_chars(k)[4 * i + q]);
                    assert(enc_chars(k).subrange(4 * i, 4 * i + 4)[q] == enc_chars(k)[4 * i + q]);
                }
            }
        }
    }
}

/// Relies on char::from_u32: `Some` exactly for Unicode scalar values, and
/// the character casts back to the given value.
#[verifier::external_body]
fn char_from_u32(v: u32) -> (r: Option<char>)
    ensures
        r matches Some(c) ==> c as u32 == v,
        vstd::utf8::is_scalar(v) ==> r is Some,
{
    char::from_u32(v)
}

/// Equal-length character sections followed by anything determine both.
#[verifier::rlimit(100)]
proof fn lemma_enc_chars_det(k1: Seq<char>, r1: Seq<u8>, k2: Seq<char>, r2: Seq<u8>)
    requires
        k1.len() == k2.len(),
        enc_chars(k1) + r1 == enc_chars(k2) + r2,
    ensures
        k1 == k2,
        r1 == r2,
    decreases k1.len(),
{
    broadcast use lemma_le32_len, lemma_le64_len;

    if k1.len() == 0 {
        assert(k1 =~= k2);
        assert(r1 =~= (enc_chars(k1) + r1));
        assert(r2 =~= (enc_chars(k2) + r2));
    } else {
        let s = enc_chars(k1) + r1;
        let t1 = enc_chars(k1.drop_first()) + r1;
        let t2 = enc_chars(k2.drop_first()) + r2;
        assert(s == le32(k1[0] as u32) + t1) by {
            assert(enc_chars(k1) == le32(k1[0] as u32) + enc_chars(k1.drop_first()));
            assert(s =~= le32(k1[0] as u32) + t1);
        }
        assert(s == le32(k2[0] as u32) + t2) by {
            assert(enc_chars(k2) == le32(k2[0] as u32) + enc_chars(k2.drop_first()));
            assert((enc_chars(k2) + r2) =~= le32(k2[0] as u32) + t2);
        }
        assert(le32(k1[0] as u32) =~= s.subrange(0, 4));
        assert(le32(k2[0] as u32) =~= s.subrange(0, 4));
        lemma_le32_inj(k1[0] as u32, k2[0] as u32);
        vstd::utf8::char_u32_cast(k1[0], k1[0] as u32);
        vstd::utf8::char_u32_cast(k2[0], k2[0] as u32);
        assert(k1[0] == k2[0]);
        assert(s.len() == 4 + t1.len());
        assert(s.len() == 4 + t2.len()) by {
            assert(s == le32(k2[0] as u32) + t2);
        }
        assert(t1 =~= t2) by {
            assert forall|i: int| 0 <= i < t1.len() implies t1[i] == t2[i] by {
                assert((le32(k1[0] as u32) + t1)[4 + i] == t1[i]);
                assert((le32(k2[0] as u32) + t2)[4 + i] == t2[i]);
                assert(s[4 + i] == t1[i]);
                assert(s == le32(k2[0] as u32) + t2);
                assert(s[4 + i] == t2[i]);
            }
        }
        lemma_enc_chars_det(k1.drop_first(), r1, k2.drop_first(), r2);
        assert forall|i: int| 0 <= i < k1.len() implies k1[i] == k2[i] by {
            if i > 0 {
                assert(k1[i] == k1.drop_first()[i - 1]);
                assert(k2[i] == k2.drop_first()[i - 1]);
            }
        }
        assert(k1 =~= k2);
    }
}

/// A string form followed by anything determines the string and the rest.
#[verifier::rlimit(100)]
pub proof fn lemma_enc_str_det(k1: Seq<char>, r1: Seq<u8>, k2: Seq<char>, r2: Seq<u8>)
    requires
        k1.len() <= 0xffffffffffffffff,
        k2.len() <= 0xffffffffffffffff,
        enc_str(k1) + r1 == enc_str(k2) + r2,
    ensures
        k1 == k2,
        r1 == r2,
{
    broadcast use lemma_le32_len, lemma_le64_len;

    let s = enc_str(k1) + r1;
    let t1 = enc_chars(k1) + r1;
    let t2 = enc_chars(k2) + r2;
    assert(s == le64(k1.len() as u64) + t1) by {
        assert(s =~= le64(k1.len() as u64) + t1);
    }
    assert(s == le64(k2.len() as u64) + t2) by {
        assert((enc_str(k2) + r2) =~= le64(k2.len() as u64) + t2);
    }
    assert(le64(k1.len() as u64) =~= s.subrange(0, 8));
    assert(le64(k2.len() as u64) =~= s.subrange(0, 8));
    lemma_le64_inj(k1.len() as u64, k2.len() as u64);
    assert(k1.len() == k2.len());
    assert(s.len() == 8 + t1.len());
    assert(s.len() == 8 + t2.len()) by {
        assert(s == le64(k2.len() as u64) + t2);
    }
    assert(t1 =~= t2) by {
        assert forall|i: int| 0 <= i < t1.len() implies t1[i] == t2[i] by {
            assert((le64(k1.len() as u64) + t1)[8 + i] == t1[i]);
            assert((le64(k2.len() as u64) + t2)[8 + i] == t2[i]);
            assert(s[8 + i] == t1[i]);
            assert(s == le64(k2.len() as u64) + t2);
            assert(s[8 + i] == t2[i]);
        }
    }
    lemma_enc_chars_det(k1, r1, k2, r2);
}

/// Byte-for-byte equality of two byte strings.
pub fn bytes_eq(a: &Vec<u8>, b: &Vec<u8>) -> (r: bool)
    ensures
        r == (a@ == b@),
{
    if a.len() != b.len() {
        return false;
    }
    let mut i: usize = 0;
    while i < a.len()
        invariant
            a@.len() == b@.len(),
            i <= a@.len(),
            forall|k: int| 0 <= k < i ==> a@[k] == b@[k],
        decreases a@.len() - i,
    {
        if a[i] != b[i] {
            return false;
        }
        i += 1;
    }
    proof {
        assert(a@ =~= b@);
    }
    true
}

/// There is a valid string form at `pos`.
pub open spec fn valid_str_at(b: Seq<u8>, pos: int) -> bool {
    exists|k: Seq<char>, rest: Seq<u8>|
        b.subrange(pos, b.len() as int) == #[trigger] (enc_str(k) + rest)
}

/// Appends the form of a string.
pub fn emit_str(out: &mut Vec<u8>, s: &String)
    ensures
        final(out)@ == old(out)@ + enc_str(s@),
{
    broadcast use lemma_le32_len, lemma_le64_len;
    let ghost base = out@;
    let cs = chars_vec(s.as_str());
    emit_u64(out, cs.len() as u64);
    let mut i: usize = 0;
    while i < cs.len()
        invariant
            i <= cs@.len(),
            cs@ == s@,
            out@ == base + le64(s@.len() as u64) + enc_chars(s@.subrange(0, i as int)),
        decreases cs@.len() - i,
    {
        let ghost pre = s@.subrange(0, i as int);
        emit_u32(out, cs[i] as u32);
        proof {
            lemma_enc_chars_push(pre, s@[i as int]);
            assert(pre.push(s@[i as int]) =~= s@.subrange(0, i + 1));
            assert(out@ =~= base + le64(s@.len() as u64) + enc_chars(s@.subrange(0, i + 1)));
        }
        i += 1;
    }
    proof {
        assert(s@.subrange(0, s@.len() as int) =~= s@);
        assert(out@ =~= base + enc_str(s@));
    }
}

/// Reads a string form.
#[verifier::rlimit(100)]
pub fn parse_str(b: &Vec<u8>, pos: usize) -> (r: Option<(String, usize)>)
    requires
        pos <= b@.len(),
    ensures
        r matches Some(p) ==> (pos <= p.1 <= b@.len() && b@.subrange(pos as int, p.1 as int)
            == enc_str(p.0@)),
        r is None ==> !valid_str_at(b@, pos as int),
{
    broadcast use lemma_le32_len, lemma_le64_len;
    let ghost suffix = b@.subrange(pos as int, b@.len() as int);
    proof {
        assert(b@.len() == b.len());
    }
    let first = parse_u64(b, pos);
    match first {
        None => {
            proof {
                assert forall|k: Seq<char>, rest: Seq<u8>|
                    suffix != #[trigger] (enc_str(k) + rest) by {
                    if suffix == enc_str(k) + rest {
                        assert(suffix.len() >= 8);
                    }
                }
            }
            return None;
        },
        Some((m, p1)) => {
            proof {
                lemma_str_unique(b@, pos as int, m);
            }
            let avail = b.len() - p1;
            if m > (avail as u64) / 4 {
                proof {
                    assert forall|k: Seq<char>, rest: Seq<u8>|
                        suffix != #[trigger] (enc_str(k) + rest) by {
                        if suffix == enc_str(k) + rest {
                            assert(k.len() == m);
                            assert(pos + 8 + 4 * k.len() <= b@.len());
                        }
                    }
                }
                return None;
            }
            let n = m as usize;
            let mut cs: Vec<char> = Vec::new();
            let mut i: usize = 0;
            let mut p = p1;
            while i < n
                invariant
                    pos + 8 == p1 <= b@.len(),
                    b@.len() == b.len(),
                    i <= n,
                    n == m,
                    n <= (b@.len() - p1) / 4,
                    p == p1 + 4 * i,
                    cs@.len() == i,
                    suffix == b@.subrange(pos as int, b@.len() as int),
                    b@.subrange(p1 as int, p as int) == enc_chars(cs@),
                    b@.subrange(pos as int, pos as int + 8) == le64(m),
                decreases n - i,
            {
                proof {
                    assert(p + 4 <= b@.len());
                }
                let got = parse_u32(b, p);
                let (v, p2) = match got {
                    Some(pair) => pair,
                    None => {
                        proof {
                            assert(false);
                        }
                        return None;
                    },
                };
                let copt = char_from_u32(v);
                match copt {
                    Some(c) => {
                        let ghost pre = cs@;
                        cs.push(c);
                        proof {
                            lemma_enc_chars_push(pre, c);
                            assert(le32(c as u32) == le32(v));
                            assert(b@.subrange(p1 as int, p2 as int) =~= b@.subrange(
                                p1 as int,
                                p as int,
                            ) + b@.subrange(p as int, p2 as int));
                            assert(b@.subrange(p1 as int, p2 as int) == enc_chars(cs@));
                        }
                        p = p2;
                        i += 1;
                    },
                    None => {
                        proof {
                            lemma_str_unique(b@, pos as int, m);
                            assert forall|k: Seq<char>, rest: Seq<u8>|
                                suffix != #[trigger] (enc_str(k) + rest) by {
                                if suffix == enc_str(k) + rest {
                                    assert(k.len() == m);
                                    assert(b@.subrange(
                                        pos + 8 + 4 * i,
                                        pos + 8 + 4 * i + 4,
                                    ) == le32(k[i as int] as u32));
                                    assert(b@.subrange(p as int, p as int + 4) == le32(v));
                                    lemma_le32_inj(v, k[i as int] as u32);
                                    vstd::utf8::char_is_scalar(k[i as int]);
                                }
                            }
                        }
                        return None;
                    },
                }
            }
            let out = chars_to_string(&cs);
            proof {
                assert(b@.subrange(pos as int, p as int) =~= b@.subrange(pos as int, pos as int
                    + 8) + b@.subrange(p1 as int, p as int));
                assert(out@.len() as u64 == m);
                assert(b@.subrange(pos as int, p as int) == enc_str(out@));
            }
            Some((out, p))
        },
    }
}

/// Appends one byte.
pub fn emit_u8(out: &mut Vec<u8>, x: u8)
    ensures
        final(out)@ == old(out)@ + enc_u8(x),
{
    out.push(x);
    proof {
        assert(out@ =~= old(out)@ + enc_u8(x));
    }
}

/// Reads one byte.
pub fn parse_u8(b: &Vec<u8>, pos: usize) -> (r: Option<(u8, usize)>)
    requires
        pos <= b@.len(),
    ensures
        r matches Some(p) ==> (pos + 1 <= b@.len() && b@.subrange(pos as int, p.1 as int)
            == enc_u8(p.0) && p.1 == pos + 1),
        r is None ==> pos + 1 > b@.len(),
{
    if pos >= b.len() {
        return None;
    }
    let x = b[pos];
    proof {
        assert(b@.subrange(pos as int, pos as int + 1) =~= enc_u8(x));
    }
    Some((x, pos + 1))
}

/// Appends a boolean as one byte.
pub fn emit_bool(out: &mut Vec<u8>, x: bool)
    ensures
        final(out)@ == old(out)@ + enc_bool(x),
{
    out.push(
        if x {
            1
        } else {
            0
        },
    );
    proof {
        assert(out@ =~= old(out)@ + enc_bool(x));
    }
}

/// Reads a boolean byte; any non-zero byte counts as true.
pub fn parse_bool(b: &Vec<u8>, pos: usize) -> (r: Option<(bool, usize)>)
    requires
        pos <= b@.len(),
    ensures
        r matches Some(p) ==> (pos + 1 <= b@.len() && p.1 == pos + 1 && (b@.subrange(
            pos as int,
            p.1 as int,
        ) == enc_bool(p.0) || !p.0)),
        r matches Some(p) ==> (forall|x: bool|
            b@.subrange(pos as int, pos as int + 1) == enc_bool(x) ==> p.0 == x),
        r is None ==> pos + 1 > b@.len(),
{
    if pos >= b.len() {
        return None;
    }
    let x = b[pos] == 1;
    proof {
        assert(b@.subrange(pos as int, pos as int + 1) =~= seq![b@[pos as int]]);
        if x {
            assert(b@.subrange(pos as int, pos as int + 1) =~= enc_bool(true));
        }
        assert forall|y: bool|
            b@.subrange(pos as int, pos as int + 1) == enc_bool(y) implies x == y by {
            assert(b@.subrange(pos as int, pos as int + 1)[0] == b@[pos as int]);
            assert(enc_bool(y)[0] == if y {
                1u8
            } else {
                0u8
            });
        }
    }
    Some((x, pos + 1))
}

/// The view of an optional string.
pub open spec fn opt_str_view(o: Option<String>) -> Option<Seq<char>> {
    match o {
        Some(s) => Some(s@),
        Option::None => Option::None,
    }
}

/// Appends the form of an optional string.
pub fn emit_opt_str(out: &mut Vec<u8>, o: &Option<String>)
    ensures
        final(out)@ == old(out)@ + enc_opt_str(opt_str_view(*o)),
{
    broadcast use lemma_le32_len, lemma_le64_len;
    match o {
        Some(s) => {
            out.push(1);
            emit_str(out, s);
            proof {
                assert(out@ =~= old(out)@ + enc_opt_str(opt_str_view(*o)));
            }
        },
        None => {
            out.push(0);
            proof {
                assert(out@ =~= old(out)@ + enc_opt_str(Option::<Seq<char>>::None));
            }
        },
    }
}

/// Reads an optional string form.
pub fn parse_opt_str(b: &Vec<u8>, pos: usize) -> (r: Option<(Option<String>, usize)>)
    requires
        pos <= b@.len(),
    ensures
        r matches Some(p) ==> (pos <= p.1 <= b@.len() && b@.subrange(pos as int, p.1 as int)
            == enc_opt_str(opt_str_view(p.0))),
{
    broadcast use lemma_le32_len, lemma_le64_len;
    match parse_u8(b, pos) {
        Some((tag, p1)) => {
            if tag == 0 {
                proof {
                    assert(b@.subrange(pos as int, p1 as int) =~= enc_opt_str(
                        Option::<Seq<char>>::None,
                    ));
                }
                Some((None, p1))
            } else if tag == 1 {
                match parse_str(b, p1) {
                    Some((s, p2)) => {
                        proof {
                            assert(b@.subrange(pos as int, p2 as int) =~= b@.subrange(
                                pos as int,
                                p1 as int,
                            ) + b@.subrange(p1 as int, p2 as int));
                            assert(b@.subrange(pos as int, p2 as int) =~= seq![1u8] + enc_str(
                                s@,
                            ));
                        }
                        Some((Some(s), p2))
                    },
                    None => None,
                }
            } else {
                None
            }
        },
        None => None,
    }
}

/// The deterministic block-compressed form of a byte string.
pub uninterp spec fn lz4_of(data: Seq<u8>) -> Seq<u8>;

/// Relies on lz4_flex::compress_prepend_size: deterministic block
/// compression with the input size prepended as a 32-bit value, so only
/// payloads below 4 GiB keep an exact prefix; larger inputs are kept out.
#[verifier::external_body]
pub(crate) fn lz4_compress(data: &Vec<u8>) -> (r: Vec<u8>)
    requires
        data@.len() < 0x100000000,
    ensures
        r@ == lz4_of(data@),
{
    lz4_flex::compress_prepend_size(data.as_slice())
}

/// Relies on lz4_flex::decompress_size_prepended: the inverse of
/// compress_prepend_size on payloads below 4 GiB, failing on anything that
/// is the compression of no such payload. (The compressor truncates the
/// length prefix of larger payloads, so nothing is claimed about them.)
#[verifier::external_body]
pub(crate) fn lz4_decompress(data: &Vec<u8>) -> (r: Option<Vec<u8>>)
    ensures
        r matches Some(v) ==> (forall|d: Seq<u8>|
            d.len() < 0x100000000 && data@ == #[trigger] lz4_of(d) ==> v@ == d),
        r is None ==> (forall|d: Seq<u8>| d.len() < 0x100000000 ==> data@ != #[trigger] lz4_of(d)),
{
    lz4_flex::decompress_size_prepended(data.as_slice()).ok()
}

} // verus!

