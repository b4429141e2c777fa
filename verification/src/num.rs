//! Verified numeric groundwork for the frontend's value encoding: decimal
//! parsing and formatting, and little-endian byte encoding of fixed-width
//! integers.
use vstd::prelude::*;

verus! {

/// `2^n`.
pub open spec fn pow2(n: nat) -> int
    decreases n,
{
    if n == 0 {
        1
    } else {
        2 * pow2((n - 1) as nat)
    }
}

/// `pow2` is positive.
pub proof fn lemma_pow2_pos(n: nat)
    ensures
        pow2(n) >= 1,
    decreases n,
{
    if n > 0 {
        lemma_pow2_pos((n - 1) as nat);
    }
}

/// `pow2` grows with its argument.
pub proof fn lemma_pow2_le(m: nat, n: nat)
    requires
        m <= n,
    ensures
        pow2(m) <= pow2(n),
    decreases n,
{
    lemma_pow2_pos(m);
    if m < n {
        lemma_pow2_le(m, (n - 1) as nat);
    }
}

/// Powers of two compose multiplicatively.
pub proof fn lemma_pow2_add(a: nat, b: nat)
    ensures
        pow2(a + b) == pow2(a) * pow2(b),
    decreases b,
{
    if b == 0 {
    } else {
        lemma_pow2_add(a, (b - 1) as nat);
        assert(pow2(a + b) == 2 * (pow2(a) * pow2((b - 1) as nat)));
        assert(2 * (pow2(a) * pow2((b - 1) as nat)) == pow2(a) * (2 * pow2((b - 1) as nat)))
            by (nonlinear_arith);
    }
}

/// The powers of two the value encodings use.
pub proof fn lemma_pow2_vals()
    ensures
        pow2(7) == 0x80,
        pow2(8) == 0x100,
        pow2(15) == 0x8000,
        pow2(16) == 0x1_0000,
        pow2(31) == 0x8000_0000,
        pow2(32) == 0x1_0000_0000,
        pow2(63) == 0x8000_0000_0000_0000,
        pow2(64) == 0x1_0000_0000_0000_0000,
        pow2(127) == 0x8000_0000_0000_0000_0000_0000_0000_0000,
        pow2(128) == 0x1_0000_0000_0000_0000_0000_0000_0000_0000,
{
    assert(pow2(0) == 1);
    assert(pow2(1) == 2);
    assert(pow2(2) == 4);
    assert(pow2(3) == 8);
    assert(pow2(4) == 16);
    assert(pow2(5) == 32);
    assert(pow2(6) == 64);
    assert(pow2(7) == 0x80);
    assert(pow2(8) == 0x100);
    lemma_pow2_add(8, 7);
    assert(pow2(15) == 0x100 * 0x80);
    lemma_pow2_add(8, 8);
    assert(pow2(16) == 0x100 * 0x100);
    lemma_pow2_add(16, 15);
    assert(pow2(31) == 0x1_0000 * 0x8000);
    lemma_pow2_add(16, 16);
    assert(pow2(32) == 0x1_0000 * 0x1_0000);
    lemma_pow2_add(32, 31);
    assert(pow2(63) == 0x1_0000_0000 * 0x8000_0000);
    lemma_pow2_add(32, 32);
    assert(pow2(64) == 0x1_0000_0000 * 0x1_0000_0000);
    lemma_pow2_add(64, 63);
    assert(pow2(127) == 0x1_0000_0000_0000_0000 * 0x8000_0000_0000_0000);
    lemma_pow2_add(64, 64);
    assert(pow2(128) == 0x1_0000_0000_0000_0000 * 0x1_0000_0000_0000_0000);
}

/// A decimal digit.
pub open spec fn is_digit(c: char) -> bool {
    '0' <= c && c <= '9'
}

/// A digit's value.
pub open spec fn digit_val(c: char) -> int {
    c as u32 - '0' as u32
}

/// Every character is a decimal digit.
pub open spec fn all_digits(s: Seq<char>) -> bool {
    forall|i: int| 0 <= i < s.len() ==> is_digit(#[trigger] s[i])
}

/// The value of a decimal digit string.
pub open spec fn dec_val(s: Seq<char>) -> int
    decreases s.len(),
{
    if s.len() == 0 {
        0
    } else {
        dec_val(s.drop_last()) * 10 + digit_val(s.last())
    }
}

/// A digit string's value is non-negative and grows with every digit.
pub proof fn lemma_dec_val_nonneg(s: Seq<char>)
    requires
        all_digits(s),
    ensures
        dec_val(s) >= 0,
    decreases s.len(),
{
    if s.len() > 0 {
        assert(all_digits(s.drop_last())) by {
            assert(forall|i: int| 0 <= i < s.len() - 1 ==> s.drop_last()[i] == s[i]);
        }
        lemma_dec_val_nonneg(s.drop_last());
    }
}

/// A hexadecimal digit.
pub open spec fn is_hex_digit(c: char) -> bool {
    ('0' <= c && c <= '9') || ('a' <= c && c <= 'f') || ('A' <= c && c <= 'F')
}

/// A hexadecimal digit's value.
pub open spec fn hex_digit_val(c: char) -> int {
    if '0' <= c && c <= '9' {
        c as u32 - '0' as u32
    } else if 'a' <= c && c <= 'f' {
        c as u32 - 'a' as u32 + 10
    } else {
        c as u32 - 'A' as u32 + 10
    }
}

/// Every character is a hexadecimal digit.
pub open spec fn all_hex_digits(s: Seq<char>) -> bool {
    forall|i: int| 0 <= i < s.len() ==> is_hex_digit(#[trigger] s[i])
}

/// The value of a hexadecimal digit string.
pub open spec fn hex_val(s: Seq<char>) -> int
    decreases s.len(),
{
    if s.len() == 0 {
        0
    } else {
        hex_val(s.drop_last()) * 16 + hex_digit_val(s.last())
    }
}

/// A hex string's value is non-negative.
pub proof fn lemma_hex_val_nonneg(s: Seq<char>)
    requires
        all_hex_digits(s),
    ensures
        hex_val(s) >= 0,
    decreases s.len(),
{
    if s.len() > 0 {
        assert(all_hex_digits(s.drop_last())) by {
            assert(forall|i: int| 0 <= i < s.len() - 1 ==> s.drop_last()[i] == s[i]);
        }
        lemma_hex_val_nonneg(s.drop_last());
    }
}

/// The little-endian byte encoding of `v` over `n` bytes; `v` must lie
/// below `2^(8*n)`.
pub open spec fn int_le_bytes(v: int, n: nat) -> Seq<u8>
    decreases n,
{
    if n == 0 {
        Seq::empty()
    } else {
        seq![(v % 256) as u8] + int_le_bytes(v / 256, (n - 1) as nat)
    }
}

/// The encoding has length `n`.
pub proof fn lemma_int_le_bytes_len(v: int, n: nat)
    ensures
        int_le_bytes(v, n).len() == n,
    decreases n,
{
    if n > 0 {
        lemma_int_le_bytes_len(v / 256, (n - 1) as nat);
    }
}

/// The decimal representation of a non-negative value, most significant
/// digit first.
pub open spec fn dec_str(v: int) -> Seq<char>
    decreases v,
{
    if v <= 0 {
        seq!['0']
    } else {
        dec_str_rec(v)
    }
}

/// Digits of a positive value.
pub open spec fn dec_str_rec(v: int) -> Seq<char>
    decreases v,
{
    if v <= 0 {
        Seq::empty()
    } else {
        dec_str_rec(v / 10) + seq![digit_char(v % 10)]
    }
}

/// The digit character for a value in `0..10`.
pub open spec fn digit_char(d: int) -> char {
    (('0' as u32) + d as u32) as char
}

/// A digit-string prefix never exceeds the whole string's value.
pub proof fn lemma_dec_val_prefix_le(s: Seq<char>, m: int)
    requires
        all_digits(s),
        0 <= m <= s.len(),
    ensures
        0 <= dec_val(s.take(m)) <= dec_val(s),
    decreases s.len() - m,
{
    assert(all_digits(s.take(m))) by {
        assert(forall|i: int| 0 <= i < m ==> s.take(m)[i] == s[i]);
    }
    lemma_dec_val_nonneg(s.take(m));
    if m < s.len() {
        lemma_dec_val_prefix_le(s, m + 1);
        assert(s.take(m + 1).drop_last() =~= s.take(m));
        assert(dec_val(s.take(m + 1)) == dec_val(s.take(m)) * 10 + digit_val(s[m]));
        assert(is_digit(s[m]));
    } else {
        assert(s.take(m) =~= s);
    }
}

/// A hex-string prefix never exceeds the whole string's value.
pub proof fn lemma_hex_val_prefix_le(s: Seq<char>, m: int)
    requires
        all_hex_digits(s),
        0 <= m <= s.len(),
    ensures
        0 <= hex_val(s.take(m)) <= hex_val(s),
    decreases s.len() - m,
{
    assert(all_hex_digits(s.take(m))) by {
        assert(forall|i: int| 0 <= i < m ==> s.take(m)[i] == s[i]);
    }
    lemma_hex_val_nonneg(s.take(m));
    if m < s.len() {
        lemma_hex_val_prefix_le(s, m + 1);
        assert(s.take(m + 1).drop_last() =~= s.take(m));
        assert(hex_val(s.take(m + 1)) == hex_val(s.take(m)) * 16 + hex_digit_val(s[m]));
        assert(is_hex_digit(s[m]));
    } else {
        assert(s.take(m) =~= s);
    }
}

/// Parses the decimal digit string `s[start..]`: `Some` exactly when it is
/// non-empty, all digits, and its value fits a `u128`.
pub fn parse_dec_u128(s: &str, start: usize) -> (r: Option<u128>)
    requires
        start <= s@.len(),
    ensures
        r is Some <==> s@.skip(start as int).len() >= 1 && all_digits(s@.skip(start as int))
            && dec_val(s@.skip(start as int)) <= u128::MAX,
        r is Some ==> r->Some_0 == dec_val(s@.skip(start as int)),
{
    let ghost t = s@.skip(start as int);
    let n: usize = s.unicode_len();
    if start >= n {
        proof {
            assert(t.len() == 0);
        }
        return None;
    }
    let mut acc: u128 = 0;
    let mut i: usize = start;
    while i < n
        invariant
            start <= i <= n,
            n == s@.len(),
            t == s@.skip(start as int),
            t.len() >= 1,
            all_digits(t.take(i - start)),
            acc == dec_val(t.take(i - start)),
        decreases n - i,
    {
        let c: char = s.get_char(i);
        proof {
            assert(t[i - start] == s@[i as int]);
        }
        if c < '0' || c > '9' {
            proof {
                assert(!is_digit(t[i - start]));
                assert(!all_digits(t));
            }
            return None;
        }
        let d: u128 = (c as u32 - 48) as u128;
        if acc > (u128::MAX - d) / 10 {
            proof {
                assert(acc * 10 + d > u128::MAX) by (nonlinear_arith)
                    requires
                        acc > (u128::MAX - d) / 10,
                        d <= u128::MAX,
                {}
                assert(t.take(i - start + 1).drop_last() =~= t.take(i - start));
                assert(t.take(i - start + 1).last() == t[i - start]);
                assert(dec_val(t.take(i - start + 1)) == acc * 10 + d);
                if all_digits(t) {
                    lemma_dec_val_prefix_le(t, i - start + 1);
                }
            }
            return None;
        }
        proof {
            assert(acc * 10 + d <= u128::MAX) by (nonlinear_arith)
                requires
                    acc <= (u128::MAX - d) / 10,
                    d <= u128::MAX,
            {}
            assert(t.take(i - start + 1).drop_last() =~= t.take(i - start));
            assert(t.take(i - start + 1).last() == t[i - start]);
            assert(all_digits(t.take(i - start + 1))) by {
                assert(forall|k: int|
                    0 <= k < i - start + 1 ==> t.take(i - start + 1)[k] == t[k]);
                assert(forall|k: int| 0 <= k < i - start ==> t.take(i - start)[k] == t[k]);
            }
        }
        acc = acc * 10 + d;
        i = i + 1;
    }
    proof {
        assert(t.take(n - start) =~= t);
    }
    Some(acc)
}

/// Parses the hexadecimal digit string `s`: `Some` exactly when it is
/// non-empty, all hex digits, and its value fits a `u64`.
pub fn parse_hex_u64(s: &str) -> (r: Option<u64>)
    ensures
        r is Some <==> s@.len() >= 1 && all_hex_digits(s@) && hex_val(s@) <= u64::MAX,
        r is Some ==> r->Some_0 == hex_val(s@),
{
    let ghost t = s@;
    let n: usize = s.unicode_len();
    if n == 0 {
        return None;
    }
    let mut acc: u64 = 0;
    let mut i: usize = 0;
    while i < n
        invariant
            i <= n,
            n == s@.len(),
            t == s@,
            t.len() >= 1,
            all_hex_digits(t.take(i as int)),
            acc == hex_val(t.take(i as int)),
        decreases n - i,
    {
        let c: char = s.get_char(i);
        let dv: u32 = if c >= '0' && c <= '9' {
            c as u32 - 48
        } else if c >= 'a' && c <= 'f' {
            c as u32 - 'a' as u32 + 10
        } else if c >= 'A' && c <= 'F' {
            c as u32 - 'A' as u32 + 10
        } else {
            proof {
                assert(!is_hex_digit(t[i as int]));
                assert(!all_hex_digits(t));
            }
            return None;
        };
        let d: u64 = dv as u64;
        proof {
            assert(d == hex_digit_val(t[i as int]));
            assert(d < 16);
        }
        if acc > (u64::MAX - d) / 16 {
            proof {
                assert(acc * 16 + d > u64::MAX) by (nonlinear_arith)
                    requires
                        acc > (u64::MAX - d) / 16,
                        d <= u64::MAX,
                {}
                assert(t.take(i as int + 1).drop_last() =~= t.take(i as int));
                assert(t.take(i as int + 1).last() == t[i as int]);
                assert(hex_val(t.take(i as int + 1)) == acc * 16 + d);
                if all_hex_digits(t) {
                    lemma_hex_val_prefix_le(t, i as int + 1);
                }
            }
            return None;
        }
        proof {
            assert(acc * 16 + d <= u64::MAX) by (nonlinear_arith)
                requires
                    acc <= (u64::MAX - d) / 16,
                    d <= u64::MAX,
            {}
            assert(t.take(i as int + 1).drop_last() =~= t.take(i as int));
            assert(t.take(i as int + 1).last() == t[i as int]);
            assert(all_hex_digits(t.take(i as int + 1))) by {
                assert(forall|k: int| 0 <= k < i + 1 ==> t.take(i as int + 1)[k] == t[k]);
                assert(forall|k: int| 0 <= k < i ==> t.take(i as int)[k] == t[k]);
            }
        }
        acc = acc * 16 + d;
        i = i + 1;
    }
    proof {
        assert(t.take(n as int) =~= t);
    }
    Some(acc)
}

/// Encodes `v` as `n` little-endian bytes; `v` must fit.
pub fn u128_le_bytes(v: u128, n: usize) -> (r: Vec<u8>)
    requires
        n <= 16,
        v < pow2((8 * n) as nat),
    ensures
        r@ == int_le_bytes(v as int, n as nat),
        r@.len() == n,
{
    proof {
        lemma_int_le_bytes_len(v as int, n as nat);
    }
    let mut out: Vec<u8> = Vec::new();
    let mut acc: u128 = v;
    let mut i: usize = 0;
    while i < n
        invariant
            i <= n,
            out@.len() == i,
            out@ + int_le_bytes(acc as int, (n - i) as nat) == int_le_bytes(v as int, n as nat),
        decreases n - i,
    {
        let b: u8 = (acc % 256) as u8;
        let ghost pre = out@;
        out.push(b);
        proof {
            assert(int_le_bytes(acc as int, (n - i) as nat) == seq![b] + int_le_bytes(
                acc as int / 256,
                (n - i - 1) as nat,
            ));
            assert(out@ + int_le_bytes(acc as int / 256, (n - i - 1) as nat) =~= pre
                + int_le_bytes(acc as int, (n - i) as nat));
        }
        acc = acc / 256;
        i = i + 1;
    }
    proof {
        assert(out@ + int_le_bytes(acc as int, 0) =~= out@);
    }
    out
}

/// The index of the first space in a character sequence, or its length
/// where it has none.
pub open spec fn first_space_in(s: Seq<char>) -> int
    decreases s.len(),
{
    if s.len() == 0 {
        0
    } else if s[0] == ' ' {
        0
    } else {
        1 + first_space_in(s.drop_first())
    }
}

/// Position and bounds of `first_space_in`.
pub proof fn lemma_first_space(s: Seq<char>)
    ensures
        0 <= first_space_in(s) <= s.len(),
        forall|i: int| 0 <= i < first_space_in(s) ==> s[i] != ' ',
        first_space_in(s) < s.len() ==> s[first_space_in(s)] == ' ',
    decreases s.len(),
{
    if s.len() > 0 && s[0] != ' ' {
        let t = s.drop_first();
        assert(forall|i: int| 0 <= i < t.len() ==> t[i] == s[i + 1]);
        lemma_first_space(t);
        assert forall|i: int| 0 <= i < first_space_in(s) implies s[i] != ' ' by {
            if i > 0 {
                assert(t[i - 1] != ' ');
            }
        }
    }
}

/// Finds the first space.
pub fn first_space_exec(s: &str) -> (r: usize)
    ensures
        r == first_space_in(s@),
        r <= s@.len(),
{
    proof {
        lemma_first_space(s@);
    }
    let n: usize = s.unicode_len();
    let mut i: usize = 0;
    while i < n
        invariant
            i <= n,
            n == s@.len(),
            forall|k: int| 0 <= k < i ==> s@[k] != ' ',
        decreases n - i,
    {
        if s.get_char(i) == ' ' {
            proof {
                lemma_first_space_at(s@, i as int);
            }
            return i;
        }
        i = i + 1;
    }
    proof {
        lemma_first_space_at(s@, n as int);
    }
    n
}

/// `first_space_in` equals any position before which no space stands and at
/// which one does (or the length).
proof fn lemma_first_space_at(s: Seq<char>, i: int)
    requires
        0 <= i <= s.len(),
        forall|k: int| 0 <= k < i ==> s[k] != ' ',
        i < s.len() ==> s[i] == ' ',
    ensures
        first_space_in(s) == i,
{
    lemma_first_space(s);
    let f = first_space_in(s);
    if f < i {
        assert(s[f] == ' ');
    }
    if f > i {
        assert(s[i] != ' ');
    }
}

/// Relies on String::from_utf8: a sequence of ASCII bytes is valid UTF-8
/// and decodes to the characters with the same code points.
#[verifier::external_body]
fn ascii_string(bytes: Vec<u8>) -> (r: String)
    requires
        forall|i: int| 0 <= i < bytes@.len() ==> bytes@[i] < 0x80,
    ensures
        r@.len() == bytes@.len(),
        forall|i: int| 0 <= i < r@.len() ==> r@[i] == bytes@[i] as char,
{
    match String::from_utf8(bytes) {
        Ok(s) => s,
        Err(_) => String::new(),
    }
}

/// Formats `v` in decimal.
pub fn format_u128(v: u128) -> (r: String)
    ensures
        r@ == dec_str(v as int),
{
    if v == 0 {
        let r = String::from_str("0");
        proof {
            reveal_strlit("0");
            assert(r@ =~= dec_str(0));
        }
        return r;
    }
    let mut digits: Vec<u8> = Vec::new();
    let mut acc: u128 = v;
    while acc > 0
        invariant
            acc >= 0,
            dec_str_rec(v as int) =~= dec_str_rec(acc as int) + rev_chars(digits@),
            forall|i: int| 0 <= i < digits@.len() ==> #[trigger] digits@[i] < 0x80,
        decreases acc,
    {
        let b: u8 = (acc % 10) as u8 + 48;
        let ghost pre = digits@;
        digits.push(b);
        proof {
            assert(digit_char(acc as int % 10) == b as char);
            assert(rev_chars(digits@) =~= seq![b as char] + rev_chars(pre));
            assert(dec_str_rec(acc as int) =~= dec_str_rec(acc as int / 10) + seq![
                digit_char(acc as int % 10),
            ]);
            assert(dec_str_rec(acc as int / 10) + rev_chars(digits@) =~= dec_str_rec(
                acc as int,
            ) + rev_chars(pre));
        }
        acc = acc / 10;
    }
    proof {
        assert(dec_str_rec(v as int) =~= rev_chars(digits@));
    }
    let n: usize = digits.len();
    let mut bytes: Vec<u8> = Vec::new();
    let mut j: usize = n;
    while j > 0
        invariant
            j <= n,
            n == digits@.len(),
            bytes@.len() == n - j,
            forall|i: int| 0 <= i < digits@.len() ==> #[trigger] digits@[i] < 0x80,
            forall|i: int| 0 <= i < bytes@.len() ==> #[trigger] bytes@[i] == digits@[n - 1 - i],
        decreases j,
    {
        bytes.push(digits[j - 1]);
        j = j - 1;
    }
    proof {
        assert(forall|i: int| 0 <= i < bytes@.len() ==> #[trigger] bytes@[i] < 0x80);
    }
    let r = ascii_string(bytes);
    proof {
        assert(r@ =~= rev_chars(digits@));
        assert(r@ =~= dec_str(v as int));
    }
    r
}

/// The digit bytes read back to front, as characters.
pub open spec fn rev_chars(digits: Seq<u8>) -> Seq<char> {
    Seq::new(digits.len(), |i: int| digits[digits.len() - 1 - i] as char)
}

} // verus!
