//! The frontend's value layer: encoding a typed user value into the raw
//! bytes the scanner searches for, decoding raw bytes back into a printable
//! form, and parsing the write and offset-scan command arguments.
//! Numeric encodings are little-endian. The two floating-point type names
//! are not encoded here: the frontend encodes those itself.
use crate::error::Error;
use crate::num::{
    all_digits, all_hex_digits, dec_str, dec_val, first_space_in, format_u128, hex_val,
    int_le_bytes, lemma_pow2_pos, lemma_pow2_vals, parse_dec_u128, parse_hex_u64, pow2,
};
use vstd::prelude::*;

verus! {

/// The UTF-16 code units of one character.
pub open spec fn char_utf16(c: char) -> Seq<u16> {
    if (c as u32) < 0x10000 {
        seq![c as u16]
    } else {
        seq![
            (0xD800 + (c as u32 - 0x10000) / 0x400) as u16,
            (0xDC00 + (c as u32 - 0x10000) % 0x400) as u16,
        ]
    }
}

/// The UTF-16 code units of a character sequence.
pub open spec fn utf16_units(s: Seq<char>) -> Seq<u16>
    decreases s.len(),
{
    if s.len() == 0 {
        Seq::empty()
    } else {
        utf16_units(s.drop_last()) + char_utf16(s.last())
    }
}

/// A 16-bit code unit as two little-endian bytes.
pub open spec fn le16(u: u16) -> Seq<u8> {
    seq![(u % 256) as u8, (u / 256) as u8]
}

/// A code-unit sequence as little-endian bytes.
pub open spec fn utf16_bytes(units: Seq<u16>) -> Seq<u8>
    decreases units.len(),
{
    if units.len() == 0 {
        Seq::empty()
    } else {
        utf16_bytes(units.drop_last()) + le16(units.last())
    }
}

/// The value of an optionally signed decimal string within `bits` bits,
/// unsigned interpretation: a leading `+` is accepted, a sign alone or a
/// non-digit rejects, and the value must fit.
pub open spec fn spec_parse_unsigned(s: Seq<char>, bits: nat) -> Option<int> {
    let body = if s.len() > 0 && s[0] == '+' {
        s.drop_first()
    } else {
        s
    };
    if body.len() >= 1 && all_digits(body) && dec_val(body) < pow2(bits) {
        Some(dec_val(body))
    } else {
        None
    }
}

/// The value of an optionally signed decimal string within `bits` bits,
/// two's-complement interpretation.
pub open spec fn spec_parse_signed(s: Seq<char>, bits: nat) -> Option<int> {
    if s.len() > 0 && s[0] == '-' {
        let body = s.drop_first();
        if body.len() >= 1 && all_digits(body) && dec_val(body) <= pow2((bits - 1) as nat) {
            Some(-dec_val(body))
        } else {
            None
        }
    } else {
        let body = if s.len() > 0 && s[0] == '+' {
            s.drop_first()
        } else {
            s
        };
        if body.len() >= 1 && all_digits(body) && dec_val(body) < pow2((bits - 1) as nat) {
            Some(dec_val(body))
        } else {
            None
        }
    }
}

/// The encoded bytes of a parsed fixed-width integer: two's complement,
/// little-endian.
pub open spec fn encode_int(v: int, bits: nat) -> Seq<u8> {
    if v < 0 {
        int_le_bytes(v + pow2(bits), (bits / 8) as nat)
    } else {
        int_le_bytes(v, (bits / 8) as nat)
    }
}

/// The bytes a typed value encodes to: UTF-8 for `str`, UTF-16 code units
/// in little-endian for `str_utf16`, two's-complement little-endian words
/// for the integer types; `None` for an unknown type name or an unparsable
/// value.
pub open spec fn spec_encode_typed(t: Seq<char>, v: Seq<char>) -> Option<Seq<u8>> {
    if t == "str"@ {
        Some(vstd::utf8::encode_utf8(v))
    } else if t == "str_utf16"@ {
        Some(utf16_bytes(utf16_units(v)))
    } else if t == "i8"@ {
        spec_encode_signed(v, 8)
    } else if t == "i16"@ {
        spec_encode_signed(v, 16)
    } else if t == "i32"@ {
        spec_encode_signed(v, 32)
    } else if t == "i64"@ {
        spec_encode_signed(v, 64)
    } else if t == "i128"@ {
        spec_encode_signed(v, 128)
    } else if t == "u8"@ {
        spec_encode_unsigned(v, 8)
    } else if t == "u16"@ {
        spec_encode_unsigned(v, 16)
    } else if t == "u32"@ {
        spec_encode_unsigned(v, 32)
    } else if t == "u64"@ {
        spec_encode_unsigned(v, 64)
    } else if t == "u128"@ {
        spec_encode_unsigned(v, 128)
    } else {
        None
    }
}

/// Encoding of a signed decimal string.
pub open spec fn spec_encode_signed(v: Seq<char>, bits: nat) -> Option<Seq<u8>> {
    match spec_parse_signed(v, bits) {
        Some(x) => Some(encode_int(x, bits)),
        None => None,
    }
}

/// Encoding of an unsigned decimal string.
pub open spec fn spec_encode_unsigned(v: Seq<char>, bits: nat) -> Option<Seq<u8>> {
    match spec_parse_unsigned(v, bits) {
        Some(x) => Some(encode_int(x, bits)),
        None => None,
    }
}

/// Compares two string slices by their characters.
pub fn str_eq(a: &str, b: &str) -> (r: bool)
    ensures
        r == (a@ == b@),
{
    let sa = String::from_str(a);
    let sb = String::from_str(b);
    sa == sb
}

/// Encodes the UTF-16 little-endian form of a string.
fn encode_utf16_le(v: &str) -> (r: Vec<u8>)
    ensures
        r@ == utf16_bytes(utf16_units(v@)),
{
    let n: usize = v.unicode_len();
    let mut units: Vec<u16> = Vec::new();
    let mut i: usize = 0;
    while i < n
        invariant
            i <= n,
            n == v@.len(),
            units@ =~= utf16_units(v@.take(i as int)),
        decreases n - i,
    {
        let c: char = v.get_char(i);
        let cv: u32 = c as u32;
        let ghost pre = units@;
        if cv < 0x10000 {
            units.push(c as u16);
            proof {
                assert(units@ =~= pre + char_utf16(c));
            }
        } else {
            let x: u32 = cv - 0x10000;
            units.push((0xD800 + x / 0x400) as u16);
            units.push((0xDC00 + x % 0x400) as u16);
            proof {
                assert(units@ =~= pre + char_utf16(c));
            }
        }
        proof {
            assert(v@.take(i + 1).drop_last() =~= v@.take(i as int));
            assert(v@.take(i + 1).last() == v@[i as int]);
        }
        i = i + 1;
    }
    proof {
        assert(v@.take(n as int) =~= v@);
    }
    let m: usize = units.len();
    let mut out: Vec<u8> = Vec::new();
    let mut j: usize = 0;
    while j < m
        invariant
            j <= m,
            m == units@.len(),
            out@ =~= utf16_bytes(units@.take(j as int)),
        decreases m - j,
    {
        let u: u16 = units[j];
        out.push((u % 256) as u8);
        out.push((u / 256) as u8);
        proof {
            assert(units@.take(j + 1).drop_last() =~= units@.take(j as int));
            assert(units@.take(j + 1).last() == units@[j as int]);
        }
        j = j + 1;
    }
    proof {
        assert(units@.take(m as int) =~= units@);
    }
    out
}

/// Parses and encodes an unsigned decimal string of the given width.
fn encode_unsigned_exec(v: &str, bits: usize) -> (r: Option<Vec<u8>>)
    requires
        bits == 8 || bits == 16 || bits == 32 || bits == 64 || bits == 128,
    ensures
        r is Some <==> spec_encode_unsigned(v@, bits as nat) is Some,
        r is Some ==> r->Some_0@ == spec_encode_unsigned(v@, bits as nat)->Some_0,
{
    proof {
        lemma_pow2_vals();
    }
    let n: usize = v.unicode_len();
    let start: usize = if n > 0 && v.get_char(0) == '+' {
        1
    } else {
        0
    };
    let ghost body = if v@.len() > 0 && v@[0] == '+' {
        v@.drop_first()
    } else {
        v@
    };
    proof {
        if start == 1 {
            assert(body =~= v@.skip(1));
        } else {
            assert(body =~= v@.skip(0));
        }
    }
    match parse_dec_u128(v, start) {
        Some(x) => {
            let ok: bool = if bits == 8 {
                x < 0x100
            } else if bits == 16 {
                x < 0x1_0000
            } else if bits == 32 {
                x < 0x1_0000_0000
            } else if bits == 64 {
                x < 0x1_0000_0000_0000_0000
            } else {
                true
            };
            if ok {
                proof {
                    assert(spec_parse_unsigned(v@, bits as nat) == Some(x as int));
                }
                Some(u128_le_width(x, bits))
            } else {
                None
            }
        },
        None => {
            proof {
                if body.len() >= 1 && all_digits(body) && dec_val(body) < pow2(bits as nat) {
                    assert(dec_val(body) <= u128::MAX);
                }
            }
            None
        },
    }
}

/// Encodes a value known to fit into `bits / 8` little-endian bytes.
fn u128_le_width(x: u128, bits: usize) -> (r: Vec<u8>)
    requires
        bits == 8 || bits == 16 || bits == 32 || bits == 64 || bits == 128,
        x < pow2(bits as nat),
    ensures
        r@ == int_le_bytes(x as int, (bits / 8) as nat),
{
    proof {
        lemma_pow2_vals();
    }
    crate::num::u128_le_bytes(x, bits / 8)
}

/// Parses and encodes a signed decimal string of the given width, in two's
/// complement.
fn encode_signed_exec(v: &str, bits: usize) -> (r: Option<Vec<u8>>)
    requires
        bits == 8 || bits == 16 || bits == 32 || bits == 64 || bits == 128,
    ensures
        r is Some <==> spec_encode_signed(v@, bits as nat) is Some,
        r is Some ==> r->Some_0@ == spec_encode_signed(v@, bits as nat)->Some_0,
{
    proof {
        lemma_pow2_vals();
    }
    let n: usize = v.unicode_len();
    if n > 0 && v.get_char(0) == '-' {
        let ghost body = v@.drop_first();
        proof {
            assert(body =~= v@.skip(1));
        }
        match parse_dec_u128(v, 1) {
            Some(mag) => {
                let bound: u128 = if bits == 8 {
                    0x80
                } else if bits == 16 {
                    0x8000
                } else if bits == 32 {
                    0x8000_0000
                } else if bits == 64 {
                    0x8000_0000_0000_0000
                } else {
                    0x8000_0000_0000_0000_0000_0000_0000_0000
                };
                if mag <= bound {
                    let rep: u128 = if mag == 0 {
                        0
                    } else if bits == 128 {
                        u128::MAX - mag + 1
                    } else {
                        let m: u128 = if bits == 8 {
                            0x100
                        } else if bits == 16 {
                            0x1_0000
                        } else if bits == 32 {
                            0x1_0000_0000
                        } else {
                            0x1_0000_0000_0000_0000
                        };
                        m - mag
                    };
                    proof {
                        let x = spec_parse_signed(v@, bits as nat)->Some_0;
                        assert(x == -dec_val(body));
                        if mag == 0 {
                            assert(encode_int(x, bits as nat) == int_le_bytes(
                                0,
                                (bits / 8) as nat,
                            ));
                        } else {
                            assert(x < 0);
                            assert(rep == x + pow2(bits as nat));
                            assert(rep < pow2(bits as nat));
                        }
                    }
                    Some(u128_le_width(rep, bits))
                } else {
                    None
                }
            },
            None => {
                proof {
                    if body.len() >= 1 && all_digits(body) && dec_val(body) <= pow2(
                        (bits - 1) as nat,
                    ) {
                        assert(dec_val(body) <= u128::MAX);
                    }
                }
                None
            },
        }
    } else {
        let start: usize = if n > 0 && v.get_char(0) == '+' {
            1
        } else {
            0
        };
        let ghost body = if v@.len() > 0 && v@[0] == '+' {
            v@.drop_first()
        } else {
            v@
        };
        proof {
            if start == 1 {
                assert(body =~= v@.skip(1));
            } else {
                assert(body =~= v@.skip(0));
            }
        }
        match parse_dec_u128(v, start) {
            Some(x) => {
                let bound: u128 = if bits == 8 {
                    0x80
                } else if bits == 16 {
                    0x8000
                } else if bits == 32 {
                    0x8000_0000
                } else if bits == 64 {
                    0x8000_0000_0000_0000
                } else {
                    0x8000_0000_0000_0000_0000_0000_0000_0000
                };
                if x < bound {
                    proof {
                        assert(spec_parse_signed(v@, bits as nat) == Some(x as int));
                        lemma_pow2_pos((bits - 1) as nat);
                        assert(pow2((bits - 1) as nat) < pow2(bits as nat)) by {
                            crate::num::lemma_pow2_add(1, (bits - 1) as nat);
                        }
                    }
                    Some(u128_le_width(x, bits))
                } else {
                    None
                }
            },
            None => {
                proof {
                    if body.len() >= 1 && all_digits(body) && dec_val(body) < pow2(
                        (bits - 1) as nat,
                    ) {
                        assert(dec_val(body) <= u128::MAX);
                    }
                }
                None
            },
        }
    }
}

/// Encodes a typed value.
pub fn encode_typed(t: &str, v: &str) -> (r: Option<Vec<u8>>)
    ensures
        r is Some <==> spec_encode_typed(t@, v@) is Some,
        r is Some ==> r->Some_0@ == spec_encode_typed(t@, v@)->Some_0,
{
    if str_eq(t, "str") {
        Some(v.as_bytes_vec())
    } else if str_eq(t, "str_utf16") {
        Some(encode_utf16_le(v))
    } else if str_eq(t, "i8") {
        encode_signed_exec(v, 8)
    } else if str_eq(t, "i16") {
        encode_signed_exec(v, 16)
    } else if str_eq(t, "i32") {
        encode_signed_exec(v, 32)
    } else if str_eq(t, "i64") {
        encode_signed_exec(v, 64)
    } else if str_eq(t, "i128") {
        encode_signed_exec(v, 128)
    } else if str_eq(t, "u8") {
        encode_unsigned_exec(v, 8)
    } else if str_eq(t, "u16") {
        encode_unsigned_exec(v, 16)
    } else if str_eq(t, "u32") {
        encode_unsigned_exec(v, 32)
    } else if str_eq(t, "u64") {
        encode_unsigned_exec(v, 64)
    } else if str_eq(t, "u128") {
        encode_unsigned_exec(v, 128)
    } else {
        None
    }
}

/// The little-endian value of a byte string, unbounded.
pub open spec fn le_val(bytes: Seq<u8>) -> int
    decreases bytes.len(),
{
    if bytes.len() == 0 {
        0
    } else {
        bytes[0] + 256 * le_val(bytes.drop_first())
    }
}

/// A byte string's little-endian value is bounded by `2^(8*len)`.
pub proof fn lemma_le_val_bound(bytes: Seq<u8>)
    ensures
        0 <= le_val(bytes) < pow2((8 * bytes.len()) as nat),
    decreases bytes.len(),
{
    if bytes.len() == 0 {
    } else {
        lemma_le_val_bound(bytes.drop_first());
        assert(pow2((8 * bytes.len()) as nat) == 256 * pow2((8 * (bytes.len() - 1)) as nat)) by {
            crate::num::lemma_pow2_add(8, (8 * (bytes.len() - 1)) as nat);
            lemma_pow2_vals();
        }
    }
}

/// Reads the little-endian value of a short byte string.
fn le_val_exec(buf: &[u8]) -> (r: u128)
    requires
        buf@.len() <= 16,
    ensures
        r == le_val(buf@),
{
    proof {
        lemma_pow2_vals();
    }
    let n: usize = buf.len();
    let mut v: u128 = 0;
    let mut j: usize = n;
    while j > 0
        invariant
            j <= n <= 16,
            n == buf@.len(),
            v == le_val(buf@.skip(j as int)),
        decreases j,
    {
        proof {
            lemma_pow2_vals();
            lemma_le_val_bound(buf@.skip(j as int));
            crate::num::lemma_pow2_add(8, (8 * (n - j)) as nat);
            assert(pow2((8 * (n - j + 1)) as nat) == 256 * pow2((8 * (n - j)) as nat)) by {
                crate::num::lemma_pow2_add(8, (8 * (n - j)) as nat);
            }
            assert(pow2((8 * (n - j + 1)) as nat) <= pow2(128)) by {
                crate::num::lemma_pow2_le((8 * (n - j + 1)) as nat, 128);
            }
            assert(buf@.skip(j - 1).drop_first() =~= buf@.skip(j as int));
            assert(buf@.skip(j - 1)[0] == buf@[j - 1]);
        }
        v = buf[j - 1] as u128 + 256u128 * v;
        j = j - 1;
    }
    proof {
        assert(buf@.skip(0) =~= buf@);
    }
    v
}

/// The characters String::from_utf8_lossy decodes from a byte string: a
/// function of the bytes alone.
pub uninterp spec fn utf8_lossy(bytes: Seq<u8>) -> Seq<char>;

/// Relies on String::from_utf8_lossy: the decoding depends on the bytes
/// alone, substituting the replacement character for invalid sequences.
#[verifier::external_body]
fn lossy_utf8(buf: &[u8]) -> (r: String)
    ensures
        r@ == utf8_lossy(buf@),
{
    String::from_utf8_lossy(buf).to_string()
}

/// The characters String::from_utf16_lossy decodes from a code-unit
/// string: a function of the units alone.
pub uninterp spec fn utf16_lossy(units: Seq<u16>) -> Seq<char>;

/// Relies on String::from_utf16_lossy: the decoding depends on the code
/// units alone, substituting the replacement character for lone surrogates.
#[verifier::external_body]
fn lossy_utf16(units: &Vec<u16>) -> (r: String)
    ensures
        r@ == utf16_lossy(units@),
{
    String::from_utf16_lossy(units.as_slice())
}

/// The 16-bit little-endian code units of a byte string, a trailing odd
/// byte ignored.
pub open spec fn le16_units(bytes: Seq<u8>) -> Seq<u16>
    decreases bytes.len(),
{
    if bytes.len() < 2 {
        Seq::empty()
    } else {
        seq![(bytes[0] + 256 * bytes[1]) as u16] + le16_units(bytes.skip(2))
    }
}

/// Pairs a byte string into little-endian code units.
fn le16_units_exec(buf: &[u8]) -> (r: Vec<u16>)
    ensures
        r@ == le16_units(buf@),
{
    let n: usize = buf.len();
    let mut units: Vec<u16> = Vec::new();
    proof {
        assert(buf@.skip(0) =~= buf@);
    }
    let mut i: usize = 0;
    while i + 1 < n
        invariant
            i <= n,
            n == buf@.len(),
            i % 2 == 0,
            le16_units(buf@) =~= units@ + le16_units(buf@.skip(i as int)),
        decreases n - i,
    {
        let u: u16 = buf[i] as u16 + 256u16 * (buf[i + 1] as u16);
        let ghost pre = units@;
        units.push(u);
        proof {
            let rest = buf@.skip(i as int);
            assert(rest[0] == buf@[i as int]);
            assert(rest[1] == buf@[i + 1]);
            assert(rest.skip(2) =~= buf@.skip(i + 2));
            assert(le16_units(rest) == seq![u] + le16_units(buf@.skip(i + 2)));
            assert(pre + le16_units(rest) =~= units@ + le16_units(buf@.skip(i + 2)));
        }
        i = i + 2;
    }
    proof {
        assert(le16_units(buf@.skip(i as int)) =~= Seq::<u16>::empty());
    }
    units
}

/// The printable form of a signed little-endian word of `bits` bits:
/// defined only for a buffer of exactly the type's width.
pub open spec fn spec_print_signed(buf: Seq<u8>, bits: nat) -> Option<Seq<char>> {
    if buf.len() == bits / 8 {
        if le_val(buf) >= pow2((bits - 1) as nat) {
            Some(seq!['-'] + dec_str(pow2(bits) - le_val(buf)))
        } else {
            Some(dec_str(le_val(buf)))
        }
    } else {
        None
    }
}

/// The printable form of an unsigned little-endian word of `bits` bits.
pub open spec fn spec_print_unsigned(buf: Seq<u8>, bits: nat) -> Option<Seq<char>> {
    if buf.len() == bits / 8 {
        Some(dec_str(le_val(buf)))
    } else {
        None
    }
}

/// The printable form of a raw value under a type name; `None` for an
/// unknown type name or a buffer of the wrong width.
pub open spec fn spec_print_value(t: Seq<char>, buf: Seq<u8>) -> Option<Seq<char>> {
    if t == "str"@ {
        Some(utf8_lossy(buf))
    } else if t == "str_utf16"@ {
        Some(utf16_lossy(le16_units(buf)))
    } else if t == "i8"@ {
        spec_print_signed(buf, 8)
    } else if t == "i16"@ {
        spec_print_signed(buf, 16)
    } else if t == "i32"@ {
        spec_print_signed(buf, 32)
    } else if t == "i64"@ {
        spec_print_signed(buf, 64)
    } else if t == "i128"@ {
        spec_print_signed(buf, 128)
    } else if t == "u8"@ {
        spec_print_unsigned(buf, 8)
    } else if t == "u16"@ {
        spec_print_unsigned(buf, 16)
    } else if t == "u32"@ {
        spec_print_unsigned(buf, 32)
    } else if t == "u64"@ {
        spec_print_unsigned(buf, 64)
    } else if t == "u128"@ {
        spec_print_unsigned(buf, 128)
    } else {
        None
    }
}

/// Prints a signed word.
fn print_signed_exec(buf: &[u8], bits: usize) -> (r: Option<String>)
    requires
        bits == 8 || bits == 16 || bits == 32 || bits == 64 || bits == 128,
    ensures
        r is Some <==> spec_print_signed(buf@, bits as nat) is Some,
        r is Some ==> r->Some_0@ == spec_print_signed(buf@, bits as nat)->Some_0,
{
    proof {
        lemma_pow2_vals();
    }
    if buf.len() != bits / 8 {
        return None;
    }
    let v: u128 = le_val_exec(buf);
    proof {
        lemma_le_val_bound(buf@);
    }
    let thr: u128 = if bits == 8 {
        0x80
    } else if bits == 16 {
        0x8000
    } else if bits == 32 {
        0x8000_0000
    } else if bits == 64 {
        0x8000_0000_0000_0000
    } else {
        0x8000_0000_0000_0000_0000_0000_0000_0000
    };
    if v >= thr {
        let mag: u128 = if bits == 8 {
            0x100 - v
        } else if bits == 16 {
            0x1_0000 - v
        } else if bits == 32 {
            0x1_0000_0000 - v
        } else if bits == 64 {
            0x1_0000_0000_0000_0000 - v
        } else {
            u128::MAX - v + 1
        };
        proof {
            assert(mag == pow2(bits as nat) - le_val(buf@));
        }
        let mut s = String::from_str("-");
        let m = format_u128(mag);
        s.append(m.as_str());
        proof {
            reveal_strlit("-");
            assert("-"@ =~= seq!['-']);
            assert(s@ =~= seq!['-'] + dec_str(mag as int));
        }
        Some(s)
    } else {
        Some(format_u128(v))
    }
}

/// Prints an unsigned word.
fn print_unsigned_exec(buf: &[u8], bits: usize) -> (r: Option<String>)
    requires
        bits == 8 || bits == 16 || bits == 32 || bits == 64 || bits == 128,
    ensures
        r is Some <==> spec_print_unsigned(buf@, bits as nat) is Some,
        r is Some ==> r->Some_0@ == spec_print_unsigned(buf@, bits as nat)->Some_0,
{
    if buf.len() != bits / 8 {
        return None;
    }
    let v: u128 = le_val_exec(buf);
    Some(format_u128(v))
}

/// Decodes raw bytes under a type name into a printable string: lossy
/// UTF-8 or UTF-16 for the string types, decimal for the integer types.
/// `None` for an unknown type name or a buffer of the wrong width.
pub fn print_value(buf: &[u8], typename: &str) -> (r: Option<String>)
    ensures
        r is Some <==> spec_print_value(typename@, buf@) is Some,
        r is Some ==> r->Some_0@ == spec_print_value(typename@, buf@)->Some_0,
{
    if str_eq(typename, "str") {
        Some(lossy_utf8(buf))
    } else if str_eq(typename, "str_utf16") {
        let units: Vec<u16> = le16_units_exec(buf);
        Some(lossy_utf16(&units))
    } else if str_eq(typename, "i8") {
        print_signed_exec(buf, 8)
    } else if str_eq(typename, "i16") {
        print_signed_exec(buf, 16)
    } else if str_eq(typename, "i32") {
        print_signed_exec(buf, 32)
    } else if str_eq(typename, "i64") {
        print_signed_exec(buf, 64)
    } else if str_eq(typename, "i128") {
        print_signed_exec(buf, 128)
    } else if str_eq(typename, "u8") {
        print_unsigned_exec(buf, 8)
    } else if str_eq(typename, "u16") {
        print_unsigned_exec(buf, 16)
    } else if str_eq(typename, "u32") {
        print_unsigned_exec(buf, 32)
    } else if str_eq(typename, "u64") {
        print_unsigned_exec(buf, 64)
    } else if str_eq(typename, "u128") {
        print_unsigned_exec(buf, 128)
    } else {
        None
    }
}

/// How the scan input resolves into a type name and a value string: with a
/// remembered type the whole input is the value; otherwise the input splits
/// at its first space.
pub open spec fn spec_split_input(input: Seq<char>, opt: Option<Seq<char>>) -> Option<
    (Seq<char>, Seq<char>),
> {
    match opt {
        Some(t) => Some((t, input)),
        None => {
            if first_space_in(input) < input.len() {
                Some(
                    (
                        input.take(first_space_in(input)),
                        input.skip(first_space_in(input) + 1),
                    ),
                )
            } else {
                None
            }
        },
    }
}

/// What `parse_input` returns: the encoded bytes and the resolved type
/// name.
pub open spec fn spec_parse_input(input: Seq<char>, opt: Option<Seq<char>>) -> Option<
    (Seq<u8>, Seq<char>),
> {
    match spec_split_input(input, opt) {
        Some((t, v)) => match spec_encode_typed(t, v) {
            Some(b) => Some((b, t)),
            None => None,
        },
        None => None,
    }
}

/// Parses a scan input line: with a remembered type name the whole line is
/// the value; otherwise the word before the first space names the type.
/// Returns the encoded search bytes and the type name, or `None` where the
/// line does not parse.
pub fn parse_input(input: &str, opt_typename: &Option<String>) -> (r: Option<(Vec<u8>, String)>)
    ensures
        r is Some <==> spec_parse_input(
            input@,
            match *opt_typename {
                Some(t) => Some(t@),
                None => None,
            },
        ) is Some,
        r is Some ==> {
            let sp = spec_parse_input(
                input@,
                match *opt_typename {
                    Some(t) => Some(t@),
                    None => None,
                },
            )->Some_0;
            r->Some_0.0@ == sp.0 && r->Some_0.1@ == sp.1
        },
{
    match opt_typename {
        Some(t) => {
            match encode_typed(t.as_str(), input) {
                Some(b) => Some((b, t.clone())),
                None => None,
            }
        },
        None => {
            let n: usize = input.unicode_len();
            let fs: usize = crate::num::first_space_exec(input);
            if fs < n {
                let t: &str = input.substring_char(0, fs);
                let v: &str = input.substring_char(fs + 1, n);
                match encode_typed(t, v) {
                    Some(b) => Some((b, String::from_str(t))),
                    None => None,
                }
            } else {
                None
            }
        },
    }
}

/// Splitting the write command's arguments into index, mode, and value:
/// the value keeps any further spaces.
pub open spec fn spec_split3(s: Seq<char>) -> Option<(Seq<char>, Seq<char>, Seq<char>)> {
    let f1 = first_space_in(s);
    if f1 >= s.len() {
        None
    } else {
        let rest = s.skip(f1 + 1);
        let f2 = first_space_in(rest);
        if f2 >= rest.len() {
            None
        } else {
            Some((s.take(f1), rest.take(f2), rest.skip(f2 + 1)))
        }
    }
}

/// A match-set index: an optionally `+`-signed decimal that fits a
/// `usize`.
pub open spec fn spec_parse_index(s: Seq<char>) -> Option<int> {
    let body = if s.len() > 0 && s[0] == '+' {
        s.drop_first()
    } else {
        s
    };
    if body.len() >= 1 && all_digits(body) && dec_val(body) <= usize::MAX {
        Some(dec_val(body))
    } else {
        None
    }
}

/// What the write command does once parsed: which matches to write, in one
/// shot or continuously, and the encoded bytes.
#[derive(Debug)]
pub struct WritePlan {
    pub skip: usize,
    pub take: usize,
    pub continuous: bool,
    pub bytes: Vec<u8>,
}

/// The decision the write command makes from its arguments: rejected with
/// no matches; the index token selects one match or, as `*`, all of them;
/// the mode token selects one-shot or continuous; the value encodes under
/// the remembered type.
pub open spec fn spec_plan_write(args: Seq<char>, opt: Option<Seq<char>>, mlen: int) -> Result<
    (int, int, bool, Seq<u8>),
    Error,
> {
    if mlen == 0 {
        Err(Error::NoMatches)
    } else {
        match spec_split3(args) {
            None => Err(Error::UsageError),
            Some((idx, mode, value)) => {
                let sel = if idx == "*"@ {
                    Some((0int, mlen))
                } else {
                    match spec_parse_index(idx) {
                        Some(i) => Some((i, 1int)),
                        None => None,
                    }
                };
                match sel {
                    None => Err(Error::UsageError),
                    Some((skip, take)) => {
                        let cont = if mode == "o"@ {
                            Some(false)
                        } else if mode == "c"@ {
                            Some(true)
                        } else {
                            None
                        };
                        match cont {
                            None => Err(Error::UsageError),
                            Some(c) => match spec_parse_input(value, opt) {
                                Some((bytes, _t)) => Ok((skip, take, c, bytes)),
                                None => Err(Error::TypeParse),
                            },
                        }
                    },
                }
            },
        }
    }
}

/// Parses an index token.
fn parse_index_exec(s: &str) -> (r: Option<usize>)
    ensures
        r is Some <==> spec_parse_index(s@) is Some,
        r is Some ==> r->Some_0 == spec_parse_index(s@)->Some_0,
{
    let n: usize = s.unicode_len();
    let start: usize = if n > 0 && s.get_char(0) == '+' {
        1
    } else {
        0
    };
    let ghost body = if s@.len() > 0 && s@[0] == '+' {
        s@.drop_first()
    } else {
        s@
    };
    proof {
        if start == 1 {
            assert(body =~= s@.skip(1));
        } else {
            assert(body =~= s@.skip(0));
        }
    }
    match parse_dec_u128(s, start) {
        Some(x) => {
            if x <= usize::MAX as u128 {
                Some(x as usize)
            } else {
                None
            }
        },
        None => {
            proof {
                if body.len() >= 1 && all_digits(body) && dec_val(body) <= usize::MAX {
                    assert(dec_val(body) <= u128::MAX);
                }
            }
            None
        },
    }
}

/// Parses the write command's arguments against the current match count
/// and remembered type: `(index | *) (o | c) value`. Returns the write
/// plan, or the error the command surfaces.
pub fn plan_write(args: &str, typename: &Option<String>, matches_len: usize) -> (r: Result<
    WritePlan,
    Error,
>)
    ensures
        ({
            let sp = spec_plan_write(
                args@,
                match *typename {
                    Some(t) => Some(t@),
                    None => None,
                },
                matches_len as int,
            );
            match r {
                Ok(p) => sp is Ok && p.skip == sp->Ok_0.0 && p.take == sp->Ok_0.1 && p.continuous
                    == sp->Ok_0.2 && p.bytes@ == sp->Ok_0.3,
                Err(e) => sp is Err && e == sp->Err_0,
            }
        }),
{
    if matches_len == 0 {
        return Err(Error::NoMatches);
    }
    let n: usize = args.unicode_len();
    let f1: usize = crate::num::first_space_exec(args);
    if f1 >= n {
        return Err(Error::UsageError);
    }
    let idx: &str = args.substring_char(0, f1);
    let rest: &str = args.substring_char(f1 + 1, n);
    let rn: usize = rest.unicode_len();
    let f2: usize = crate::num::first_space_exec(rest);
    if f2 >= rn {
        return Err(Error::UsageError);
    }
    let mode: &str = rest.substring_char(0, f2);
    let value: &str = rest.substring_char(f2 + 1, rn);
    let sel: Option<(usize, usize)> = if str_eq(idx, "*") {
        Some((0, matches_len))
    } else {
        match parse_index_exec(idx) {
            Some(i) => Some((i, 1)),
            None => None,
        }
    };
    let (skip, take): (usize, usize) = match sel {
        Some(p) => p,
        None => {
            return Err(Error::UsageError);
        },
    };
    let continuous: bool = if str_eq(mode, "o") {
        false
    } else if str_eq(mode, "c") {
        true
    } else {
        return Err(Error::UsageError);
    };
    match parse_input(value, typename) {
        Some((bytes, _t)) => Ok(WritePlan { skip, take, continuous, bytes }),
        None => Err(Error::TypeParse),
    }
}

/// The offset-scan command's parsed arguments.
pub struct OffsetScanArgs {
    pub use_globals: bool,
    pub lrange: u64,
    pub urange: u64,
    pub max_depth: usize,
    pub filter: Option<u64>,
}

/// A window bound or depth token: an optionally `+`-signed decimal within
/// the given bound.
pub open spec fn spec_parse_bounded(s: Seq<char>, bound: int) -> Option<int> {
    let body = if s.len() > 0 && s[0] == '+' {
        s.drop_first()
    } else {
        s
    };
    if body.len() >= 1 && all_digits(body) && dec_val(body) <= bound {
        Some(dec_val(body))
    } else {
        None
    }
}

/// The offset-scan arguments' meaning:
/// `(y | n) lrange urange max_depth [filter]`, the tokens separated by
/// single spaces; `y` selects the code-extracted globals as start-points,
/// anything else the pointer-map keys; the optional filter is a
/// hexadecimal root-anchor address.
pub open spec fn spec_parse_os_args(s: Seq<char>) -> Option<(bool, int, int, int, Option<int>)> {
    let f1 = first_space_in(s);
    if f1 >= s.len() {
        None
    } else {
        let t1 = s.take(f1);
        let r1 = s.skip(f1 + 1);
        let f2 = first_space_in(r1);
        if f2 >= r1.len() {
            None
        } else {
            let t2 = r1.take(f2);
            let r2 = r1.skip(f2 + 1);
            let f3 = first_space_in(r2);
            if f3 >= r2.len() {
                None
            } else {
                let t3 = r2.take(f3);
                let r3 = r2.skip(f3 + 1);
                let f4 = first_space_in(r3);
                let t4 = if f4 >= r3.len() {
                    r3
                } else {
                    r3.take(f4)
                };
                let filt = if f4 >= r3.len() {
                    None
                } else {
                    Some(r3.skip(f4 + 1))
                };
                match (
                    spec_parse_bounded(t2, u64::MAX as int),
                    spec_parse_bounded(t3, u64::MAX as int),
                    spec_parse_bounded(t4, usize::MAX as int),
                ) {
                    (Some(lr), Some(ur), Some(d)) => match filt {
                        None => Some((t1 == "y"@, lr, ur, d, None)),
                        Some(ft) => {
                            if ft.len() >= 1 && all_hex_digits(ft) && hex_val(ft)
                                <= u64::MAX {
                                Some((t1 == "y"@, lr, ur, d, Some(hex_val(ft))))
                            } else {
                                None
                            }
                        },
                    },
                    _ => None,
                }
            }
        }
    }
}

/// Parses a bounded decimal token.
fn parse_bounded_u64(s: &str) -> (r: Option<u64>)
    ensures
        r is Some <==> spec_parse_bounded(s@, u64::MAX as int) is Some,
        r is Some ==> r->Some_0 == spec_parse_bounded(s@, u64::MAX as int)->Some_0,
{
    let n: usize = s.unicode_len();
    let start: usize = if n > 0 && s.get_char(0) == '+' {
        1
    } else {
        0
    };
    let ghost body = if s@.len() > 0 && s@[0] == '+' {
        s@.drop_first()
    } else {
        s@
    };
    proof {
        if start == 1 {
            assert(body =~= s@.skip(1));
        } else {
            assert(body =~= s@.skip(0));
        }
    }
    match parse_dec_u128(s, start) {
        Some(x) => {
            if x <= u64::MAX as u128 {
                Some(x as u64)
            } else {
                None
            }
        },
        None => {
            proof {
                if body.len() >= 1 && all_digits(body) && dec_val(body) <= u64::MAX {
                    assert(dec_val(body) <= u128::MAX);
                }
            }
            None
        },
    }
}

/// Parses a bounded decimal token into a `usize`.
fn parse_bounded_usize(s: &str) -> (r: Option<usize>)
    ensures
        r is Some <==> spec_parse_bounded(s@, usize::MAX as int) is Some,
        r is Some ==> r->Some_0 == spec_parse_bounded(s@, usize::MAX as int)->Some_0,
{
    parse_index_exec(s)
}

/// Parses the offset-scan command's arguments:
/// `(y | n) lrange urange max_depth [filter]`.
pub fn parse_offset_scan_args(args: &str) -> (r: Option<OffsetScanArgs>)
    ensures
        r is Some <==> spec_parse_os_args(args@) is Some,
        r is Some ==> {
            let sp = spec_parse_os_args(args@)->Some_0;
            let p = r->Some_0;
            p.use_globals == sp.0 && p.lrange == sp.1 && p.urange == sp.2 && p.max_depth == sp.3
                && (match (p.filter, sp.4) {
                (Some(a), Some(b)) => a == b,
                (None, None) => true,
                _ => false,
            })
        },
{
    let n: usize = args.unicode_len();
    let f1: usize = crate::num::first_space_exec(args);
    if f1 >= n {
        return None;
    }
    let t1: &str = args.substring_char(0, f1);
    let r1: &str = args.substring_char(f1 + 1, n);
    let n1: usize = r1.unicode_len();
    let f2: usize = crate::num::first_space_exec(r1);
    if f2 >= n1 {
        return None;
    }
    let t2: &str = r1.substring_char(0, f2);
    let r2: &str = r1.substring_char(f2 + 1, n1);
    let n2: usize = r2.unicode_len();
    let f3: usize = crate::num::first_space_exec(r2);
    if f3 >= n2 {
        return None;
    }
    let t3: &str = r2.substring_char(0, f3);
    let r3: &str = r2.substring_char(f3 + 1, n2);
    let n3: usize = r3.unicode_len();
    let f4: usize = crate::num::first_space_exec(r3);
    let (t4, filt): (&str, Option<&str>) = if f4 >= n3 {
        (r3, None)
    } else {
        (r3.substring_char(0, f4), Some(r3.substring_char(f4 + 1, n3)))
    };
    let lr: u64 = match parse_bounded_u64(t2) {
        Some(x) => x,
        None => {
            return None;
        },
    };
    let ur: u64 = match parse_bounded_u64(t3) {
        Some(x) => x,
        None => {
            return None;
        },
    };
    let d: usize = match parse_bounded_usize(t4) {
        Some(x) => x,
        None => {
            return None;
        },
    };
    let use_globals: bool = str_eq(t1, "y");
    match filt {
        None => Some(
            OffsetScanArgs { use_globals, lrange: lr, urange: ur, max_depth: d, filter: None },
        ),
        Some(fs) => {
            match parse_hex_u64(fs) {
                Some(a) => Some(
                    OffsetScanArgs {
                        use_globals,
                        lrange: lr,
                        urange: ur,
                        max_depth: d,
                        filter: Some(a),
                    },
                ),
                None => None,
            }
        },
    }
}

} // verus!
