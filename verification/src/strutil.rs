//! Text utilities shared by the parsers: decimal numerals, comma
//! splitting, whitespace trimming and ASCII upper-casing.

use vstd::prelude::*;
use vstd::string::*;

verus! {

pub open spec fn is_digit(c: char) -> bool {
    '0' <= c && c <= '9'
}

pub open spec fn digit_val(c: char) -> int {
    c as int - '0' as int
}

pub open spec fn all_digits(s: Seq<char>) -> bool {
    forall|i: int| 0 <= i < s.len() ==> is_digit(#[trigger] s[i])
}

/// The number a digit string denotes, most significant digit first.
pub open spec fn digits_val(s: Seq<char>) -> int
    decreases s.len(),
{
    if s.len() == 0 {
        0
    } else {
        digits_val(s.drop_last()) * 10 + digit_val(s.last())
    }
}

pub proof fn lemma_digits_val_nonneg(s: Seq<char>)
    requires
        all_digits(s),
    ensures
        digits_val(s) >= 0,
    decreases s.len(),
{
    if s.len() > 0 {
        lemma_digits_val_nonneg(s.drop_last());
    }
}

/// Extending an all-digit string never decreases its value.
pub proof fn lemma_digits_val_prefix(s: Seq<char>, m: int)
    requires
        all_digits(s),
        0 <= m <= s.len(),
    ensures
        digits_val(s) >= digits_val(s.subrange(0, m)),
    decreases s.len() - m,
{
    if m < s.len() {
        lemma_digits_val_prefix(s.drop_last(), m);
        assert(s.drop_last().subrange(0, m) =~= s.subrange(0, m));
        lemma_digits_val_nonneg(s.drop_last());
        assert(forall|i: int| 0 <= i < s.drop_last().len() ==> s.drop_last()[i] == s[i]);
    } else {
        assert(s.subrange(0, m) =~= s);
    }
}

/// A non-empty, all-digit string whose value fits in 32 bits.
pub open spec fn is_u32_text(s: Seq<char>) -> bool {
    s.len() >= 1 && all_digits(s) && digits_val(s) <= u32::MAX
}

/// Parse the field `s[from..to]` as a decimal 32-bit value.
pub fn parse_dec_u32(s: &str, from: usize, to: usize) -> (r: Option<u32>)
    requires
        from <= to <= s@.len(),
    ensures
        match r {
            Some(v) => is_u32_text(s@.subrange(from as int, to as int)) && v as int == digits_val(
                s@.subrange(from as int, to as int),
            ),
            None => !is_u32_text(s@.subrange(from as int, to as int)),
        },
{
    let ghost seg = s@.subrange(from as int, to as int);
    if from == to {
        return None;
    }
    let mut acc: u64 = 0;
    let mut p: usize = from;
    while p < to
        invariant
            from <= p <= to <= s@.len(),
            seg == s@.subrange(from as int, to as int),
            all_digits(seg.subrange(0, p - from)),
            acc as int == digits_val(seg.subrange(0, p - from)),
            acc <= u32::MAX,
        decreases to - p,
    {
        let c = s.get_char(p);
        let u = c as u32;
        if u < 48 || u > 57 {
            assert(seg[p - from] == c);
            assert(!is_digit(c));
            return None;
        }
        let d = (u - 48) as u64;
        let ghost pre1 = seg.subrange(0, p + 1 - from as int);
        proof {
            assert(pre1.drop_last() =~= seg.subrange(0, p - from));
            assert(pre1.last() == c);
        }
        if acc * 10 + d > 0xFFFFFFFF {
            proof {
                assert(digits_val(pre1) > u32::MAX);
                assert(all_digits(pre1));
                if is_u32_text(seg) {
                    lemma_digits_val_prefix(seg, p + 1 - from as int);
                }
            }
            return None;
        }
        acc = acc * 10 + d;
        p = p + 1;
    }
    assert(seg.subrange(0, to - from) =~= seg);
    Some(acc as u32)
}

pub open spec fn is_space(c: char) -> bool {
    c == ' ' || c == '\t' || c == '\n' || c == '\r'
}

/// The string without its leading whitespace.
pub open spec fn trim_start(s: Seq<char>) -> Seq<char>
    decreases s.len(),
{
    if s.len() > 0 && is_space(s[0]) {
        trim_start(s.drop_first())
    } else {
        s
    }
}

/// The string without its trailing whitespace.
pub open spec fn trim_end(s: Seq<char>) -> Seq<char>
    decreases s.len(),
{
    if s.len() > 0 && is_space(s.last()) {
        trim_end(s.drop_last())
    } else {
        s
    }
}

/// The string without leading and trailing whitespace.
pub open spec fn spec_trim(s: Seq<char>) -> Seq<char> {
    trim_end(trim_start(s))
}

/// A lower-case ASCII letter mapped to upper case; all else unchanged.
pub open spec fn upper_char(c: char) -> char {
    if 'a' <= c && c <= 'z' {
        ((c as u8) - 32) as char
    } else {
        c
    }
}

pub open spec fn spec_upper(s: Seq<char>) -> Seq<char> {
    s.map_values(|c: char| upper_char(c))
}

/// The index of the first `c` in `s`, or -1 when there is none.
pub open spec fn first_index(s: Seq<char>, c: char) -> int
    decreases s.len(),
{
    if s.len() == 0 {
        -1
    } else if s[0] == c {
        0
    } else {
        let r = first_index(s.drop_first(), c);
        if r < 0 {
            -1
        } else {
            r + 1
        }
    }
}

pub proof fn lemma_first_index_at(s: Seq<char>, c: char, i: int)
    requires
        0 <= i < s.len(),
        s[i] == c,
        forall|q: int| 0 <= q < i ==> s[q] != c,
    ensures
        first_index(s, c) == i,
    decreases i,
{
    if i > 0 {
        assert(forall|q: int| 0 <= q < s.drop_first().len() ==> s.drop_first()[q] == s[q + 1]);
        lemma_first_index_at(s.drop_first(), c, i - 1);
    }
}

pub proof fn lemma_first_index_none(s: Seq<char>, c: char)
    requires
        forall|q: int| 0 <= q < s.len() ==> s[q] != c,
    ensures
        first_index(s, c) == -1,
    decreases s.len(),
{
    if s.len() > 0 {
        assert(forall|q: int| 0 <= q < s.drop_first().len() ==> s.drop_first()[q] == s[q + 1]);
        lemma_first_index_none(s.drop_first(), c);
    }
}

/// The fields of `s` split on `c`: one more field than separators, in
/// order, separators dropped. An empty string is one empty field.
pub open spec fn spec_split(s: Seq<char>, c: char) -> Seq<Seq<char>>
    decreases s.len(),
{
    let i = first_index(s, c);
    if 0 <= i < s.len() {
        seq![s.take(i)] + spec_split(s.skip(i + 1), c)
    } else {
        seq![s]
    }
}

/// Upper-casing is idempotent.
pub proof fn lemma_upper_idempotent(s: Seq<char>)
    ensures
        spec_upper(spec_upper(s)) == spec_upper(s),
{
    assert(spec_upper(spec_upper(s)) =~= spec_upper(s));
}

/// Upper-casing commutes with trimming: no letter is whitespace.
pub proof fn lemma_trim_start_upper(s: Seq<char>)
    ensures
        trim_start(spec_upper(s)) == spec_upper(trim_start(s)),
    decreases s.len(),
{
    if s.len() > 0 && is_space(s[0]) {
        assert(spec_upper(s)[0] == upper_char(s[0]));
        assert(is_space(upper_char(s[0])));
        lemma_trim_start_upper(s.drop_first());
        assert(spec_upper(s).drop_first() =~= spec_upper(s.drop_first()));
    } else {
        if s.len() > 0 {
            assert(spec_upper(s)[0] == upper_char(s[0]));
            assert(!is_space(upper_char(s[0])));
        }
    }
}

pub proof fn lemma_trim_end_upper(s: Seq<char>)
    ensures
        trim_end(spec_upper(s)) == spec_upper(trim_end(s)),
    decreases s.len(),
{
    if s.len() > 0 && is_space(s.last()) {
        assert(spec_upper(s).last() == upper_char(s.last()));
        assert(is_space(upper_char(s.last())));
        lemma_trim_end_upper(s.drop_last());
        assert(spec_upper(s).drop_last() =~= spec_upper(s.drop_last()));
    } else {
        if s.len() > 0 {
            assert(spec_upper(s).last() == upper_char(s.last()));
            assert(!is_space(upper_char(s.last())));
        }
    }
}

pub proof fn lemma_trim_upper(s: Seq<char>)
    ensures
        spec_trim(spec_upper(s)) == spec_upper(spec_trim(s)),
{
    lemma_trim_start_upper(s);
    lemma_trim_end_upper(trim_start(s));
}

/// Upper-casing moves no separator: splitting commutes with it.
pub proof fn lemma_split_upper(s: Seq<char>, c: char)
    requires
        !('a' <= c && c <= 'z'),
        !('A' <= c && c <= 'Z'),
    ensures
        spec_split(spec_upper(s), c) == spec_split(s, c).map_values(|t: Seq<char>| spec_upper(t)),
    decreases s.len(),
{
    lemma_first_index_upper(s, c);
    let i = first_index(s, c);
    if 0 <= i < s.len() {
        lemma_split_upper(s.skip(i + 1), c);
        assert(spec_upper(s).take(i) =~= spec_upper(s.take(i)));
        assert(spec_upper(s).skip(i + 1) =~= spec_upper(s.skip(i + 1)));
        assert(spec_split(spec_upper(s), c) =~= spec_split(s, c).map_values(
            |t: Seq<char>| spec_upper(t),
        ));
    } else {
        assert(spec_split(spec_upper(s), c) =~= spec_split(s, c).map_values(
            |t: Seq<char>| spec_upper(t),
        ));
    }
}

/// A separator that is no letter sits where it sat before upper-casing.
pub proof fn lemma_first_index_upper(s: Seq<char>, c: char)
    requires
        !('a' <= c && c <= 'z'),
        !('A' <= c && c <= 'Z'),
    ensures
        first_index(spec_upper(s), c) == first_index(s, c),
    decreases s.len(),
{
    if s.len() > 0 {
        assert(spec_upper(s)[0] == upper_char(s[0]));
        assert((upper_char(s[0]) == c) == (s[0] == c));
        lemma_first_index_upper(s.drop_first(), c);
        assert(spec_upper(s).drop_first() =~= spec_upper(s.drop_first()));
    }
}

/// Relies on String::push: appends the given character to the string.
#[verifier::external_body]
pub(crate) fn push_char(s: &mut String, c: char)
    ensures
        final(s)@ == old(s)@.push(c),
{
    s.push(c);
}

/// Split a string into its comma-separated fields.
pub fn split_commas(s: &str) -> (parts: Vec<String>)
    ensures
        parts@.map_values(|p: String| p@) == spec_split(s@, ','),
{
    let n = s.unicode_len();
    let mut parts: Vec<String> = Vec::new();
    let mut cur = String::new();
    let mut start: usize = 0;
    let mut p: usize = 0;
    proof {
        assert(s@.skip(0) =~= s@);
        assert(cur@ =~= s@.subrange(0, 0));
        assert(parts@.map_values(|t: String| t@) + spec_split(s@, ',') =~= spec_split(s@, ','));
    }
    while p < n
        invariant
            0 <= start <= p <= n == s@.len(),
            cur@ == s@.subrange(start as int, p as int),
            forall|q: int| start <= q < p ==> s@[q] != ',',
            spec_split(s@, ',') == parts@.map_values(|t: String| t@) + spec_split(
                s@.skip(start as int),
                ',',
            ),
        decreases n - p,
    {
        let c = s.get_char(p);
        if c == ',' {
            proof {
                let t = s@.skip(start as int);
                assert(forall|q: int| 0 <= q < t.len() ==> t[q] == s@[q + start]);
                lemma_first_index_at(t, ',', p - start);
                assert(t.take(p - start) =~= cur@);
                assert(t.skip(p - start + 1) =~= s@.skip(p + 1));
                assert(spec_split(t, ',') == seq![cur@] + spec_split(s@.skip(p + 1), ','));
            }
            parts.push(cur);
            cur = String::new();
            start = p + 1;
            proof {
                assert(parts@.map_values(|t: String| t@) =~= parts@.map_values(
                    |t: String| t@,
                ).drop_last().push(parts@.last()@));
                assert(cur@ =~= s@.subrange(start as int, p + 1 as int));
            }
        } else {
            push_char(&mut cur, c);
            assert(cur@ =~= s@.subrange(start as int, p + 1 as int));
        }
        p = p + 1;
    }
    proof {
        let t = s@.skip(start as int);
        assert(forall|q: int| 0 <= q < t.len() ==> t[q] == s@[q + start]);
        lemma_first_index_none(t, ',');
        assert(t =~= cur@);
    }
    parts.push(cur);
    proof {
        assert(parts@.map_values(|t: String| t@) =~= spec_split(s@, ','));
    }
    parts
}

/// Upper-case the ASCII letters of a string.
pub fn upper_string(s: &str) -> (out: String)
    ensures
        out@ == spec_upper(s@),
{
    let n = s.unicode_len();
    let mut out = String::new();
    let mut p: usize = 0;
    proof {
        assert(out@ =~= spec_upper(s@.subrange(0, 0)));
    }
    while p < n
        invariant
            0 <= p <= n == s@.len(),
            out@ == spec_upper(s@.subrange(0, p as int)),
        decreases n - p,
    {
        let c = s.get_char(p);
        let u = c as u32;
        let up: char = if u >= 97 && u <= 122 {
            ((c as u8) - 32) as char
        } else {
            c
        };
        assert(up == upper_char(c));
        push_char(&mut out, up);
        proof {
            let pre1 = s@.subrange(0, p + 1 as int);
            assert(pre1.drop_last() =~= s@.subrange(0, p as int));
            assert(spec_upper(pre1) =~= spec_upper(pre1.drop_last()).push(upper_char(c)));
        }
        p = p + 1;
    }
    proof {
        assert(s@.subrange(0, s@.len() as int) =~= s@);
    }
    out
}

fn is_space_exec(c: char) -> (r: bool)
    ensures
        r == is_space(c),
{
    c == ' ' || c == '\t' || c == '\n' || c == '\r'
}

/// Trim whitespace and upper-case ASCII letters in one pass.
pub fn normalize_token(s: &str) -> (out: String)
    ensures
        out@ == spec_upper(spec_trim(s@)),
{
    let n = s.unicode_len();
    let mut lo: usize = 0;
    proof {
        assert(s@.skip(0) =~= s@);
    }
    while lo < n && is_space_exec(s.get_char(lo))
        invariant
            0 <= lo <= n == s@.len(),
            trim_start(s@) == trim_start(s@.skip(lo as int)),
        decreases n - lo,
    {
        proof {
            let t = s@.skip(lo as int);
            assert(t.len() > 0 && is_space(t[0]));
            assert(t.drop_first() =~= s@.skip(lo + 1));
        }
        lo = lo + 1;
    }
    proof {
        let t = s@.skip(lo as int);
        if t.len() > 0 {
            assert(t[0] == s@[lo as int]);
        }
        assert(trim_start(s@) == t);
    }
    let mut hi: usize = n;
    while hi > lo && is_space_exec(s.get_char(hi - 1))
        invariant
            lo <= hi <= n == s@.len(),
            trim_start(s@) == s@.skip(lo as int),
            trim_end(s@.skip(lo as int)) == trim_end(s@.subrange(lo as int, hi as int)),
        decreases hi,
    {
        proof {
            let t = s@.subrange(lo as int, hi as int);
            assert(t.len() > 0 && is_space(t.last()));
            assert(t.drop_last() =~= s@.subrange(lo as int, hi - 1));
        }
        hi = hi - 1;
    }
    proof {
        let t = s@.subrange(lo as int, hi as int);
        if t.len() > 0 {
            assert(t.last() == s@[hi - 1]);
        }
        assert(trim_end(t) == t);
        assert(spec_trim(s@) == s@.subrange(lo as int, hi as int));
    }
    let mut out = String::new();
    let mut p: usize = lo;
    while p < hi
        invariant
            lo <= p <= hi <= s@.len(),
            out@ == spec_upper(s@.subrange(lo as int, p as int)),
        decreases hi - p,
    {
        let c = s.get_char(p);
        let u = c as u32;
        let up: char = if u >= 97 && u <= 122 {
            ((c as u8) - 32) as char
        } else {
            c
        };
        assert(up == upper_char(c));
        push_char(&mut out, up);
        proof {
            let pre1 = s@.subrange(lo as int, p + 1 as int);
            assert(pre1.drop_last() =~= s@.subrange(lo as int, p as int));
            assert(spec_upper(pre1) =~= spec_upper(pre1.drop_last()).push(upper_char(c)));
        }
        p = p + 1;
    }
    assert(out@ == spec_upper(spec_trim(s@)));
    out
}

} // verus!
