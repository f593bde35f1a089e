//! Address codec: dotted-quad text to and from a 32-bit address.
//!
//! An address `a.b.c.d` denotes the big-endian value
//! `a*2^24 + b*2^16 + c*2^8 + d`; each octet is a non-empty run of
//! decimal digits with value at most 255.

use crate::strutil::{all_digits, digit_val, digits_val, is_digit, lemma_digits_val_nonneg,
    lemma_digits_val_prefix};
use vstd::prelude::*;
use vstd::string::*;

verus! {

/// Errors from parsing dotted-quad text.
#[derive(Debug, Clone, Copy, PartialEq, Eq, Structural)]
pub enum AddressError {
    /// The text does not split on dots into exactly four fields.
    WrongOctetCount,
    /// A field is empty, holds a non-digit, or exceeds 255.
    InvalidOctet,
}

/// A non-empty, all-digit string denoting a value of at most 255.
pub open spec fn is_octet_text(s: Seq<char>) -> bool {
    s.len() >= 1 && all_digits(s) && digits_val(s) <= 255
}

pub open spec fn ip_of_octets(a: int, b: int, c: int, d: int) -> int {
    a * 0x1000000 + b * 0x10000 + c * 0x100 + d
}

/// `i < j < k` are dot positions splitting `s` into four octet fields.
pub open spec fn quad_at(s: Seq<char>, i: int, j: int, k: int) -> bool {
    &&& 0 <= i < j < k < s.len()
    &&& s[i] == '.'
    &&& s[j] == '.'
    &&& s[k] == '.'
    &&& is_octet_text(s.subrange(0, i))
    &&& is_octet_text(s.subrange(i + 1, j))
    &&& is_octet_text(s.subrange(j + 1, k))
    &&& is_octet_text(s.subrange(k + 1, s.len() as int))
}

pub open spec fn quad_value_at(s: Seq<char>, i: int, j: int, k: int) -> int {
    ip_of_octets(
        digits_val(s.subrange(0, i)),
        digits_val(s.subrange(i + 1, j)),
        digits_val(s.subrange(j + 1, k)),
        digits_val(s.subrange(k + 1, s.len() as int)),
    )
}

/// The text is a valid dotted quad.
pub open spec fn is_dotted_quad(s: Seq<char>) -> bool {
    exists|i: int, j: int, k: int| quad_at(s, i, j, k)
}

/// The text parses as a dotted quad with value `v`.
pub open spec fn parses_to(s: Seq<char>, v: u32) -> bool {
    exists|i: int, j: int, k: int| quad_at(s, i, j, k) && v as int == quad_value_at(s, i, j, k)
}

/// The text holds exactly three dots, at `i < j < k`.
pub open spec fn dots_exactly(s: Seq<char>, i: int, j: int, k: int) -> bool {
    &&& 0 <= i < j < k < s.len()
    &&& s[i] == '.'
    &&& s[j] == '.'
    &&& s[k] == '.'
    &&& forall|p: int| 0 <= p < s.len() && #[trigger] s[p] == '.' ==> p == i || p == j || p == k
}

pub open spec fn has_three_dots(s: Seq<char>) -> bool {
    exists|i: int, j: int, k: int| dots_exactly(s, i, j, k)
}

/// Parse the field `s[from..to]` as one octet.
fn parse_octet(s: &str, from: usize, to: usize) -> (r: Option<u8>)
    requires
        from <= to <= s@.len(),
    ensures
        match r {
            Some(v) => is_octet_text(s@.subrange(from as int, to as int)) && v as int
                == digits_val(s@.subrange(from as int, to as int)),
            None => !is_octet_text(s@.subrange(from as int, to as int)),
        },
{
    let ghost seg = s@.subrange(from as int, to as int);
    if from == to {
        return None;
    }
    let mut acc: u32 = 0;
    let mut p: usize = from;
    while p < to
        invariant
            from <= p <= to <= s@.len(),
            seg == s@.subrange(from as int, to as int),
            all_digits(seg.subrange(0, p - from)),
            acc as int == digits_val(seg.subrange(0, p - from)),
            acc <= 255,
        decreases to - p,
    {
        let c = s.get_char(p);
        let u = c as u32;
        if u < 48 || u > 57 {
            assert(seg[p - from] == c);
            assert(!is_digit(c));
            return None;
        }
        let d = u - 48;
        let ghost pre = seg.subrange(0, p - from);
        let ghost pre1 = seg.subrange(0, p + 1 - from);
        assert(pre1.drop_last() =~= pre);
        assert(pre1.last() == c);
        if acc > 25 || acc * 10 + d > 255 {
            proof {
                // the whole field can only be larger than this prefix
                assert(digits_val(pre1) > 255);
                assert(all_digits(pre1));
                if is_octet_text(seg) {
                    lemma_digits_val_prefix(seg, p + 1 - from as int);
                }
            }
            return None;
        }
        acc = acc * 10 + d;
        p = p + 1;
    }
    assert(seg.subrange(0, to - from) =~= seg);
    Some(acc as u8)
}

/// Inside a valid quad, every dot is one of the three separators.
proof fn lemma_quad_dots(s: Seq<char>, i: int, j: int, k: int, p: int)
    requires
        quad_at(s, i, j, k),
        0 <= p < s.len(),
        s[p] == '.',
    ensures
        p == i || p == j || p == k,
{
    if p < i {
        assert(s.subrange(0, i)[p] == '.');
    } else if i < p < j {
        assert(s.subrange(i + 1, j)[p - (i + 1)] == '.');
    } else if j < p < k {
        assert(s.subrange(j + 1, k)[p - (j + 1)] == '.');
    } else if k < p {
        assert(s.subrange(k + 1, s.len() as int)[p - (k + 1)] == '.');
    }
}

/// A valid quad splits at one position triple only.
pub proof fn lemma_quad_at_unique(s: Seq<char>, i: int, j: int, k: int, i2: int, j2: int, k2: int)
    requires
        quad_at(s, i, j, k),
        quad_at(s, i2, j2, k2),
    ensures
        i == i2 && j == j2 && k == k2,
{
    lemma_quad_dots(s, i, j, k, i2);
    lemma_quad_dots(s, i, j, k, j2);
    lemma_quad_dots(s, i, j, k, k2);
    lemma_quad_dots(s, i2, j2, k2, i);
    lemma_quad_dots(s, i2, j2, k2, j);
    lemma_quad_dots(s, i2, j2, k2, k);
}

/// A dotted quad denotes one address only.
pub proof fn lemma_parses_to_unique(s: Seq<char>, v1: u32, v2: u32)
    requires
        parses_to(s, v1),
        parses_to(s, v2),
    ensures
        v1 == v2,
{
    let (i1, j1, k1) = choose|i: int, j: int, k: int|
        quad_at(s, i, j, k) && v1 as int == quad_value_at(s, i, j, k);
    let (i2, j2, k2) = choose|i: int, j: int, k: int|
        quad_at(s, i, j, k) && v2 as int == quad_value_at(s, i, j, k);
    lemma_quad_at_unique(s, i1, j1, k1, i2, j2, k2);
}

/// Parse an IP address string (e.g., "8.8.8.8") to a u32.
pub fn ip_to_u32(ip_str: &str) -> (r: Result<u32, AddressError>)
    ensures
        match r {
            Ok(v) => parses_to(ip_str@, v),
            Err(AddressError::WrongOctetCount) => !has_three_dots(ip_str@) && !is_dotted_quad(
                ip_str@,
            ),
            Err(AddressError::InvalidOctet) => has_three_dots(ip_str@) && !is_dotted_quad(ip_str@),
        },
{
    let ghost s = ip_str@;
    let n = ip_str.unicode_len();
    let mut count: usize = 0;
    let mut d1: usize = 0;
    let mut d2: usize = 0;
    let mut d3: usize = 0;
    let mut d4: usize = 0;
    let mut p: usize = 0;
    while p < n
        invariant
            s == ip_str@,
            0 <= p <= n == s.len(),
            count >= 1 ==> 0 <= d1 < p && s[d1 as int] == '.',
            count >= 2 ==> d1 < d2 < p && s[d2 as int] == '.',
            count >= 3 ==> d2 < d3 < p && s[d3 as int] == '.',
            count >= 4 ==> d3 < d4 < p && s[d4 as int] == '.',
            forall|q: int|
                0 <= q < p && #[trigger] s[q] == '.' ==> (count >= 1 && q == d1) || (count >= 2
                    && q == d2) || (count >= 3 && q == d3) || (count >= 4 && q >= d4),
        decreases n - p,
    {
        if ip_str.get_char(p) == '.' {
            if count == 0 {
                d1 = p;
            } else if count == 1 {
                d2 = p;
            } else if count == 2 {
                d3 = p;
            } else if count == 3 {
                d4 = p;
            }
            if count < 4 {
                count = count + 1;
            }
        }
        p = p + 1;
    }
    if count < 3 {
        // fewer than three dots: no triple of dot positions exists
        proof {
            assert forall|i: int, j: int, k: int| !quad_at(s, i, j, k) by {
                if quad_at(s, i, j, k) {
                    assert(s[i] == '.' && s[j] == '.' && s[k] == '.');
                }
            }
            assert forall|i: int, j: int, k: int| !dots_exactly(s, i, j, k) by {
                if dots_exactly(s, i, j, k) {
                    assert(s[i] == '.' && s[j] == '.' && s[k] == '.');
                }
            }
        }
        return Err(AddressError::WrongOctetCount);
    }
    if count > 3 {
        // four or more dots: any split leaves a dot inside a field
        proof {
            assert forall|i: int, j: int, k: int| !quad_at(s, i, j, k) by {
                if quad_at(s, i, j, k) {
                    lemma_quad_dots(s, i, j, k, d1 as int);
                    lemma_quad_dots(s, i, j, k, d2 as int);
                    lemma_quad_dots(s, i, j, k, d3 as int);
                    lemma_quad_dots(s, i, j, k, d4 as int);
                }
            }
            assert forall|i: int, j: int, k: int| !dots_exactly(s, i, j, k) by {
                if dots_exactly(s, i, j, k) {
                    assert(s[d1 as int] == '.');
                    assert(s[d2 as int] == '.');
                    assert(s[d3 as int] == '.');
                    assert(s[d4 as int] == '.');
                }
            }
        }
        return Err(AddressError::WrongOctetCount);
    }
    assert(dots_exactly(s, d1 as int, d2 as int, d3 as int));
    let ra = parse_octet(ip_str, 0, d1);
    let rb = parse_octet(ip_str, d1 + 1, d2);
    let rc = parse_octet(ip_str, d2 + 1, d3);
    let rd = parse_octet(ip_str, d3 + 1, n);
    match (ra, rb, rc, rd) {
        (Some(a), Some(b), Some(c), Some(d)) => {
            let v = (a as u32) * 0x1000000 + (b as u32) * 0x10000 + (c as u32) * 0x100 + (d as u32);
            assert(quad_at(s, d1 as int, d2 as int, d3 as int));
            assert(v as int == quad_value_at(s, d1 as int, d2 as int, d3 as int));
            Ok(v)
        },
        _ => {
            // one field failed; no other split can succeed
            proof {
                assert forall|i: int, j: int, k: int| !quad_at(s, i, j, k) by {
                    if quad_at(s, i, j, k) {
                        lemma_quad_dots(s, i, j, k, d1 as int);
                        lemma_quad_dots(s, i, j, k, d2 as int);
                        lemma_quad_dots(s, i, j, k, d3 as int);
                        assert(i == d1 && j == d2 && k == d3);
                    }
                }
            }
            Err(AddressError::InvalidOctet)
        },
    }
}

pub open spec fn digit_char(d: int) -> char {
    if d == 0 {
        '0'
    } else if d == 1 {
        '1'
    } else if d == 2 {
        '2'
    } else if d == 3 {
        '3'
    } else if d == 4 {
        '4'
    } else if d == 5 {
        '5'
    } else if d == 6 {
        '6'
    } else if d == 7 {
        '7'
    } else if d == 8 {
        '8'
    } else {
        '9'
    }
}

/// The shortest decimal numeral for a non-negative value.
pub open spec fn dec_str(v: int) -> Seq<char>
    decreases v,
{
    if v < 10 {
        seq![digit_char(v)]
    } else {
        dec_str(v / 10).push(digit_char(v % 10))
    }
}

pub open spec fn oct_a(ip: u32) -> int {
    ip as int / 0x1000000
}

pub open spec fn oct_b(ip: u32) -> int {
    (ip as int / 0x10000) % 0x100
}

pub open spec fn oct_c(ip: u32) -> int {
    (ip as int / 0x100) % 0x100
}

pub open spec fn oct_d(ip: u32) -> int {
    ip as int % 0x100
}

/// The canonical dotted-quad text of an address.
pub open spec fn dotted(ip: u32) -> Seq<char> {
    dec_str(oct_a(ip)) + seq!['.'] + dec_str(oct_b(ip)) + seq!['.'] + dec_str(oct_c(ip))
        + seq!['.'] + dec_str(oct_d(ip))
}

/// `dec_str` writes digits only, at least one, denoting its argument.
pub proof fn lemma_dec_str_digits(v: int)
    requires
        0 <= v,
    ensures
        all_digits(dec_str(v)),
        digits_val(dec_str(v)) == v,
        dec_str(v).len() >= 1,
    decreases v,
{
    if v < 10 {
        let s = seq![digit_char(v)];
        assert(is_digit(digit_char(v)));
        assert(digit_val(digit_char(v)) == v);
        assert(s.drop_last() =~= Seq::<char>::empty());
        assert(s.last() == digit_char(v));
        assert(digits_val(s) == digits_val(s.drop_last()) * 10 + digit_val(s.last()));
        assert(digits_val(Seq::<char>::empty()) == 0);
    } else {
        lemma_dec_str_digits(v / 10);
        let s = dec_str(v / 10);
        let t = s.push(digit_char(v % 10));
        assert(t.drop_last() =~= s);
        assert(t.last() == digit_char(v % 10));
        assert(is_digit(digit_char(v % 10)));
        assert(digit_val(digit_char(v % 10)) == v % 10);
        assert(digits_val(t) == digits_val(t.drop_last()) * 10 + digit_val(t.last()));
        assert(digits_val(t) == (v / 10) * 10 + v % 10);
    }
}

fn append_digit(out: &mut String, d: u32)
    requires
        d < 10,
    ensures
        final(out)@ == old(out)@ + seq![digit_char(d as int)],
{
    proof {
        reveal_strlit("0");
        reveal_strlit("1");
        reveal_strlit("2");
        reveal_strlit("3");
        reveal_strlit("4");
        reveal_strlit("5");
        reveal_strlit("6");
        reveal_strlit("7");
        reveal_strlit("8");
        reveal_strlit("9");
    }
    if d == 0 {
        out.append("0");
        assert(final(out)@ =~= old(out)@ + seq![digit_char(d as int)]);
    } else if d == 1 {
        out.append("1");
        assert(final(out)@ =~= old(out)@ + seq![digit_char(d as int)]);
    } else if d == 2 {
        out.append("2");
        assert(final(out)@ =~= old(out)@ + seq![digit_char(d as int)]);
    } else if d == 3 {
        out.append("3");
        assert(final(out)@ =~= old(out)@ + seq![digit_char(d as int)]);
    } else if d == 4 {
        out.append("4");
        assert(final(out)@ =~= old(out)@ + seq![digit_char(d as int)]);
    } else if d == 5 {
        out.append("5");
        assert(final(out)@ =~= old(out)@ + seq![digit_char(d as int)]);
    } else if d == 6 {
        out.append("6");
        assert(final(out)@ =~= old(out)@ + seq![digit_char(d as int)]);
    } else if d == 7 {
        out.append("7");
        assert(final(out)@ =~= old(out)@ + seq![digit_char(d as int)]);
    } else if d == 8 {
        out.append("8");
        assert(final(out)@ =~= old(out)@ + seq![digit_char(d as int)]);
    } else {
        out.append("9");
        assert(final(out)@ =~= old(out)@ + seq![digit_char(d as int)]);
    }
}

/// Append the shortest decimal numeral of a value up to 255.
fn append_dec(out: &mut String, v: u32)
    requires
        v <= 255,
    ensures
        final(out)@ == old(out)@ + dec_str(v as int),
{
    if v >= 100 {
        append_digit(out, v / 100);
        append_digit(out, (v / 10) % 10);
        append_digit(out, v % 10);
        proof {
            vstd::arithmetic::div_mod::lemma_div_denominator(v as int, 10, 10);
            assert(dec_str(v as int) == dec_str(v as int / 10).push(digit_char(v as int % 10)));
            assert(dec_str(v as int / 10) == dec_str(v as int / 100).push(
                digit_char((v as int / 10) % 10),
            ));
            assert(dec_str(v as int / 100) =~= seq![digit_char(v as int / 100)]);
            assert(final(out)@ =~= old(out)@ + dec_str(v as int));
        }
    } else if v >= 10 {
        append_digit(out, v / 10);
        append_digit(out, v % 10);
        proof {
            assert(dec_str(v as int) == dec_str(v as int / 10).push(digit_char(v as int % 10)));
            assert(dec_str(v as int / 10) =~= seq![digit_char(v as int / 10)]);
            assert(final(out)@ =~= old(out)@ + dec_str(v as int));
        }
    } else {
        append_digit(out, v);
        assert(final(out)@ =~= old(out)@ + dec_str(v as int));
    }
}

fn append_dot(out: &mut String)
    ensures
        final(out)@ == old(out)@ + seq!['.'],
{
    proof {
        reveal_strlit(".");
    }
    out.append(".");
    assert(final(out)@ =~= old(out)@ + seq!['.']);
}

/// Convert a u32 IP back to dotted string format for display.
pub fn u32_to_ip(ip: u32) -> (r: String)
    ensures
        r@ == dotted(ip),
{
    let mut out = String::new();
    append_dec(&mut out, ip / 0x1000000);
    append_dot(&mut out);
    append_dec(&mut out, (ip / 0x10000) % 0x100);
    append_dot(&mut out);
    append_dec(&mut out, (ip / 0x100) % 0x100);
    append_dot(&mut out);
    append_dec(&mut out, ip % 0x100);
    assert(out@ =~= dotted(ip));
    out
}

/// Splitting an address into octets and reassembling them is exact.
proof fn lemma_octet_decomposition(ip: u32)
    ensures
        ip_of_octets(oct_a(ip), oct_b(ip), oct_c(ip), oct_d(ip)) == ip as int,
{
    let x = ip as int;
    vstd::arithmetic::div_mod::lemma_fundamental_div_mod(x, 0x100);
    vstd::arithmetic::div_mod::lemma_fundamental_div_mod(x / 0x100, 0x100);
    vstd::arithmetic::div_mod::lemma_fundamental_div_mod(x / 0x100 / 0x100, 0x100);
    vstd::arithmetic::div_mod::lemma_div_denominator(x, 0x100, 0x100);
    vstd::arithmetic::div_mod::lemma_div_denominator(x, 0x10000, 0x100);
    vstd::arithmetic::div_mod::lemma_div_denominator(x / 0x100, 0x100, 0x100);
}

/// A digit string without a leading zero: the text `dec_str` writes.
pub open spec fn is_canonical_octet_text(s: Seq<char>) -> bool {
    is_octet_text(s) && (s.len() == 1 || s[0] != '0')
}

/// A multi-digit numeral without a leading zero denotes at least 10.
proof fn lemma_canonical_val_lower(s: Seq<char>)
    requires
        all_digits(s),
        s.len() >= 2,
        s[0] != '0',
    ensures
        digits_val(s) >= 10,
    decreases s.len(),
{
    let front = s.drop_last();
    assert(forall|i: int| 0 <= i < front.len() ==> front[i] == s[i]);
    if front.len() == 1 {
        assert(digits_val(front) == digits_val(front.drop_last()) * 10 + digit_val(front.last()));
        assert(front.drop_last() =~= Seq::<char>::empty());
        assert(digit_val(front[0]) >= 1);
    } else {
        lemma_canonical_val_lower(front);
    }
    assert(digits_val(s) == digits_val(front) * 10 + digit_val(s.last()));
}

/// Reading a canonical numeral and writing its value back is exact.
proof fn lemma_dec_str_canonical(s: Seq<char>)
    requires
        all_digits(s),
        s.len() >= 1,
        s.len() == 1 || s[0] != '0',
    ensures
        dec_str(digits_val(s)) == s,
    decreases s.len(),
{
    if s.len() == 1 {
        assert(digits_val(s) == digits_val(s.drop_last()) * 10 + digit_val(s.last()));
        assert(s.drop_last() =~= Seq::<char>::empty());
        assert(digits_val(s) == digit_val(s[0]));
        assert(digit_char(digit_val(s[0])) == s[0]);
        assert(dec_str(digits_val(s)) =~= s);
    } else {
        let front = s.drop_last();
        let last = s.last();
        assert(forall|i: int| 0 <= i < front.len() ==> front[i] == s[i]);
        lemma_dec_str_canonical(front);
        let fv = digits_val(front);
        if front.len() == 1 {
            assert(digits_val(front) == digits_val(front.drop_last()) * 10 + digit_val(
                front.last(),
            ));
            assert(front.drop_last() =~= Seq::<char>::empty());
            assert(fv >= 1);
        } else {
            lemma_canonical_val_lower(front);
        }
        lemma_digits_val_nonneg(front);
        let v = digits_val(s);
        assert(v == fv * 10 + digit_val(last));
        vstd::arithmetic::div_mod::lemma_fundamental_div_mod_converse(
            v,
            10,
            fv,
            digit_val(last),
        );
        assert(v / 10 == fv && v % 10 == digit_val(last));
        assert(v >= 10);
        assert(dec_str(v) == dec_str(fv).push(digit_char(digit_val(last))));
        assert(digit_char(digit_val(last)) == last);
        assert(dec_str(v) =~= s);
    }
}

/// Text round trip: a dotted quad written without leading zeros is
/// regenerated exactly by formatting its parsed value.
pub proof fn lemma_text_round_trip(s: Seq<char>, i: int, j: int, k: int, v: u32)
    requires
        quad_at(s, i, j, k),
        is_canonical_octet_text(s.subrange(0, i)),
        is_canonical_octet_text(s.subrange(i + 1, j)),
        is_canonical_octet_text(s.subrange(j + 1, k)),
        is_canonical_octet_text(s.subrange(k + 1, s.len() as int)),
        parses_to(s, v),
    ensures
        dotted(v) == s,
{
    let sa = s.subrange(0, i);
    let sb = s.subrange(i + 1, j);
    let sc = s.subrange(j + 1, k);
    let sd = s.subrange(k + 1, s.len() as int);
    let a = digits_val(sa);
    let b = digits_val(sb);
    let c = digits_val(sc);
    let d = digits_val(sd);
    lemma_digits_val_nonneg(sa);
    lemma_digits_val_nonneg(sb);
    lemma_digits_val_nonneg(sc);
    lemma_digits_val_nonneg(sd);
    let (i2, j2, k2) = choose|i2: int, j2: int, k2: int|
        quad_at(s, i2, j2, k2) && v as int == quad_value_at(s, i2, j2, k2);
    lemma_quad_at_unique(s, i, j, k, i2, j2, k2);
    assert(v as int == ip_of_octets(a, b, c, d));
    vstd::arithmetic::div_mod::lemma_fundamental_div_mod_converse(
        v as int,
        0x1000000,
        a,
        b * 0x10000 + c * 0x100 + d,
    );
    assert(oct_a(v) == a);
    vstd::arithmetic::div_mod::lemma_fundamental_div_mod_converse(
        v as int,
        0x10000,
        a * 0x100 + b,
        c * 0x100 + d,
    );
    vstd::arithmetic::div_mod::lemma_fundamental_div_mod_converse(a * 0x100 + b, 0x100, a, b);
    assert(oct_b(v) == b);
    vstd::arithmetic::div_mod::lemma_fundamental_div_mod_converse(
        v as int,
        0x100,
        a * 0x10000 + b * 0x100 + c,
        d,
    );
    vstd::arithmetic::div_mod::lemma_fundamental_div_mod_converse(
        a * 0x10000 + b * 0x100 + c,
        0x100,
        a * 0x100 + b,
        c,
    );
    assert(oct_c(v) == c);
    assert(oct_d(v) == d);
    lemma_dec_str_canonical(sa);
    lemma_dec_str_canonical(sb);
    lemma_dec_str_canonical(sc);
    lemma_dec_str_canonical(sd);
    assert(dotted(v) =~= s);
}

/// Address round trip: the canonical text of an address parses back to
/// that address, and to nothing else.
pub proof fn lemma_address_round_trip(ip: u32)
    ensures
        parses_to(dotted(ip), ip),
        forall|v: u32| parses_to(dotted(ip), v) ==> v == ip,
{
    let s = dotted(ip);
    let a = dec_str(oct_a(ip));
    let b = dec_str(oct_b(ip));
    let c = dec_str(oct_c(ip));
    let d = dec_str(oct_d(ip));
    lemma_dec_str_digits(oct_a(ip));
    lemma_dec_str_digits(oct_b(ip));
    lemma_dec_str_digits(oct_c(ip));
    lemma_dec_str_digits(oct_d(ip));
    let i = a.len() as int;
    let j = i + 1 + b.len() as int;
    let k = j + 1 + c.len() as int;
    assert(s.subrange(0, i) =~= a);
    assert(s.subrange(i + 1, j) =~= b);
    assert(s.subrange(j + 1, k) =~= c);
    assert(s.subrange(k + 1, s.len() as int) =~= d);
    assert(s[i] == '.');
    assert(s[j] == '.');
    assert(s[k] == '.');
    assert(quad_at(s, i, j, k));
    lemma_octet_decomposition(ip);
    assert(quad_value_at(s, i, j, k) == ip as int);
    assert(parses_to(s, ip));
    assert forall|v: u32| parses_to(s, v) implies v == ip by {
        lemma_parses_to_unique(s, v, ip);
    }
}

} // verus!
