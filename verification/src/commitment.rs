//! Public commitment codec.
//!
//! The only information that leaves the private evaluation boundary is a
//! record of the boolean result, a timestamp and the ordered list of
//! excluded country codes. It is serialized in the canonical contract-ABI
//! layout of the tuple `(bool, uint32, uint16[])`: three 32-byte head
//! words (flag, timestamp, tail offset 0x60), then a 32-byte count word
//! and one 32-byte word per country code, every integer big-endian and
//! left-padded with zeros. Encoding and decoding are byte-exact inverses.

use vstd::prelude::*;

verus! {

/// The public values released by one evaluation run.
#[derive(Debug, Clone)]
pub struct CommitmentRecord {
    /// `true` when the address lies in none of the private ranges.
    pub is_excluded: bool,
    /// Seconds since the Unix epoch at orchestration time.
    pub timestamp: u32,
    /// ISO 3166-1 numeric codes, in caller order, duplicates kept.
    pub excluded_countries: Vec<u16>,
}

/// Error from decoding commitment bytes.
#[derive(Debug, Clone, Copy, PartialEq, Eq, Structural)]
pub enum CodecError {
    /// The bytes are not a canonical encoding of any record.
    Malformed,
}

pub open spec fn zero_bytes(n: int) -> Seq<u8> {
    Seq::new(n as nat, |i: int| 0u8)
}

/// A 32-byte word holding a boolean flag in its last byte.
pub open spec fn word_bool(b: bool) -> Seq<u8> {
    zero_bytes(31) + seq![if b { 1u8 } else { 0u8 }]
}

/// A 32-byte word holding a value below 2^32, big-endian.
pub open spec fn word_u32(v: int) -> Seq<u8> {
    zero_bytes(28) + seq![
        ((v / 0x1000000) % 0x100) as u8,
        ((v / 0x10000) % 0x100) as u8,
        ((v / 0x100) % 0x100) as u8,
        (v % 0x100) as u8,
    ]
}

/// A 32-byte word holding a value below 2^16, big-endian.
pub open spec fn word_u16(v: u16) -> Seq<u8> {
    zero_bytes(30) + seq![(v as int / 0x100) as u8, (v as int % 0x100) as u8]
}

/// One 32-byte word per country code, in order.
pub open spec fn codes_words(s: Seq<u16>) -> Seq<u8>
    decreases s.len(),
{
    if s.len() == 0 {
        Seq::empty()
    } else {
        codes_words(s.drop_last()) + word_u16(s.last())
    }
}

/// The canonical encoding of a record.
pub open spec fn encode_spec(is_excluded: bool, timestamp: u32, codes: Seq<u16>) -> Seq<u8> {
    word_bool(is_excluded) + word_u32(timestamp as int) + word_u32(0x60) + word_u32(
        codes.len() as int,
    ) + codes_words(codes)
}

pub open spec fn zeros_at(b: Seq<u8>, from: int, to: int) -> bool {
    forall|p: int| from <= p < to ==> b[p] == 0
}

/// The big-endian value of the four bytes at `p`.
pub open spec fn be4_at(b: Seq<u8>, p: int) -> int {
    b[p] * 0x1000000 + b[p + 1] * 0x10000 + b[p + 2] * 0x100 + b[p + 3]
}

/// The pad bytes of code word `i` are all zero.
pub open spec fn code_padded(b: Seq<u8>, i: int) -> bool {
    zeros_at(b, 128 + 32 * i, 128 + 32 * i + 30)
}

/// The code held by code word `i`.
pub open spec fn code_at(b: Seq<u8>, i: int) -> u16 {
    (b[128 + 32 * i + 30] * 0x100 + b[128 + 32 * i + 31]) as u16
}

/// The record a canonical byte string denotes, or nothing. A layout is
/// accepted only when every pad byte is zero, the tail offset is exactly
/// 0x60 and the length matches the count word: decoding is strict, so
/// the encoding of each record is the only byte string it accepts.
pub open spec fn decode_spec(b: Seq<u8>) -> Option<(bool, u32, Seq<u16>)> {
    if b.len() >= 128 && {
        &&& zeros_at(b, 0, 31)
        &&& (b[31] == 0 || b[31] == 1)
        &&& zeros_at(b, 32, 60)
        &&& b.subrange(64, 96) == word_u32(0x60)
        &&& zeros_at(b, 96, 124)
        &&& b.len() == 128 + 32 * be4_at(b, 124)
        &&& forall|i: int| 0 <= i < be4_at(b, 124) ==> #[trigger] code_padded(b, i)
    } {
        Some(
            (b[31] == 1, be4_at(b, 60) as u32, Seq::new(
                be4_at(b, 124) as nat,
                |i: int| code_at(b, i),
            )),
        )
    } else {
        None
    }
}

fn push_zeros(out: &mut Vec<u8>, n: usize)
    ensures
        final(out)@ == old(out)@ + zero_bytes(n as int),
{
    let mut i: usize = 0;
    while i < n
        invariant
            0 <= i <= n,
            out@ == old(out)@ + zero_bytes(i as int),
        decreases n - i,
    {
        out.push(0);
        assert(out@ =~= old(out)@ + zero_bytes(i + 1));
        i = i + 1;
    }
}

fn push_word_bool(out: &mut Vec<u8>, b: bool)
    ensures
        final(out)@ == old(out)@ + word_bool(b),
{
    push_zeros(out, 31);
    out.push(if b { 1 } else { 0 });
    assert(final(out)@ =~= old(out)@ + word_bool(b));
}

fn push_word_u32(out: &mut Vec<u8>, v: u32)
    ensures
        final(out)@ == old(out)@ + word_u32(v as int),
{
    push_zeros(out, 28);
    out.push((v / 0x1000000) as u8);
    out.push(((v / 0x10000) % 0x100) as u8);
    out.push(((v / 0x100) % 0x100) as u8);
    out.push((v % 0x100) as u8);
    assert((v as int / 0x1000000) % 0x100 == v as int / 0x1000000);
    assert(final(out)@ =~= old(out)@ + word_u32(v as int));
}

fn push_word_u16(out: &mut Vec<u8>, v: u16)
    ensures
        final(out)@ == old(out)@ + word_u16(v),
{
    push_zeros(out, 30);
    out.push((v / 0x100) as u8);
    out.push((v % 0x100) as u8);
    assert(final(out)@ =~= old(out)@ + word_u16(v));
}

/// Serialize a record into its canonical commitment bytes.
pub fn encode(record: &CommitmentRecord) -> (out: Vec<u8>)
    requires
        record.excluded_countries@.len() < 0x100000000,
    ensures
        out@ == encode_spec(record.is_excluded, record.timestamp, record.excluded_countries@),
{
    let codes = &record.excluded_countries;
    let mut out: Vec<u8> = Vec::new();
    push_word_bool(&mut out, record.is_excluded);
    push_word_u32(&mut out, record.timestamp);
    push_word_u32(&mut out, 0x60);
    push_word_u32(&mut out, codes.len() as u32);
    let ghost head = out@;
    let mut i: usize = 0;
    while i < codes.len()
        invariant
            0 <= i <= codes@.len(),
            out@ == head + codes_words(codes@.take(i as int)),
        decreases codes@.len() - i,
    {
        push_word_u16(&mut out, codes[i]);
        proof {
            let t = codes@.take(i + 1);
            assert(t.drop_last() =~= codes@.take(i as int));
            assert(t.last() == codes@[i as int]);
            assert(out@ =~= head + codes_words(t));
        }
        i = i + 1;
    }
    proof {
        assert(codes@.take(codes@.len() as int) =~= codes@);
        assert(out@ =~= encode_spec(
            record.is_excluded,
            record.timestamp,
            record.excluded_countries@,
        ));
    }
    out
}

/// All bytes in `[from, to)` are zero.
fn check_zeros(bytes: &Vec<u8>, from: usize, to: usize) -> (ok: bool)
    requires
        from <= to <= bytes@.len(),
    ensures
        ok == zeros_at(bytes@, from as int, to as int),
{
    let mut p: usize = from;
    while p < to
        invariant
            from <= p <= to <= bytes@.len(),
            zeros_at(bytes@, from as int, p as int),
        decreases to - p,
    {
        if bytes[p] != 0 {
            return false;
        }
        p = p + 1;
    }
    true
}

/// Deserialize commitment bytes, accepting only the canonical layout.
pub fn decode(bytes: &Vec<u8>) -> (r: Result<CommitmentRecord, CodecError>)
    ensures
        match r {
            Ok(rec) => decode_spec(bytes@) == Some(
                (rec.is_excluded, rec.timestamp, rec.excluded_countries@),
            ),
            Err(CodecError::Malformed) => decode_spec(bytes@) is None,
        },
{
    let ghost b = bytes@;
    if bytes.len() < 128 {
        return Err(CodecError::Malformed);
    }
    if !check_zeros(bytes, 0, 31) {
        return Err(CodecError::Malformed);
    }
    let flag = bytes[31];
    if flag > 1 {
        return Err(CodecError::Malformed);
    }
    if !check_zeros(bytes, 32, 60) {
        return Err(CodecError::Malformed);
    }
    let offset_ok = check_zeros(bytes, 64, 95);
    if !offset_ok || bytes[95] != 0x60 {
        proof {
            if b.subrange(64, 96) == word_u32(0x60) {
                if !offset_ok {
                    let p = choose|p: int| 64 <= p < 95 && b[p] != 0;
                    assert(b.subrange(64, 96)[p - 64] == b[p]);
                    assert(word_u32(0x60)[p - 64] == 0);
                } else {
                    assert(b.subrange(64, 96)[31] == b[95]);
                    assert(word_u32(0x60)[31] == 0x60);
                }
            }
        }
        return Err(CodecError::Malformed);
    }
    proof {
        assert(b.subrange(64, 96) =~= word_u32(0x60));
    }
    if !check_zeros(bytes, 96, 124) {
        return Err(CodecError::Malformed);
    }
    let n32: u32 = (bytes[124] as u32) * 0x1000000 + (bytes[125] as u32) * 0x10000 + (
    bytes[126] as u32) * 0x100 + (bytes[127] as u32);
    assert(n32 as int == be4_at(b, 124));
    let body = bytes.len() - 128;
    proof {
        vstd::arithmetic::div_mod::lemma_fundamental_div_mod(body as int, 32);
    }
    if body % 32 != 0 || body / 32 != n32 as usize {
        assert(b.len() != 128 + 32 * be4_at(b, 124));
        return Err(CodecError::Malformed);
    }
    let n = n32 as usize;
    assert(b.len() == 128 + 32 * be4_at(b, 124));
    let mut codes: Vec<u16> = Vec::new();
    let mut i: usize = 0;
    while i < n
        invariant
            0 <= i <= n,
            b == bytes@,
            n as int == be4_at(b, 124),
            b.len() == 128 + 32 * n,
            32 * n <= usize::MAX - 128,
            codes@.len() == i,
            forall|q: int| 0 <= q < i ==> #[trigger] code_padded(b, q),
            forall|q: int| 0 <= q < i ==> codes@[q] == code_at(b, q),
        decreases n - i,
    {
        let base = 128 + 32 * i;
        if !check_zeros(bytes, base, base + 30) {
            assert(!code_padded(b, i as int));
            return Err(CodecError::Malformed);
        }
        assert(code_padded(b, i as int));
        let code = (bytes[base + 30] as u16) * 0x100 + (bytes[base + 31] as u16);
        assert(code == code_at(b, i as int));
        codes.push(code);
        i = i + 1;
    }
    let rec = CommitmentRecord { is_excluded: flag == 1, timestamp: (bytes[60] as u32) * 0x1000000
        + (bytes[61] as u32) * 0x10000 + (bytes[62] as u32) * 0x100 + (bytes[63] as u32),
        excluded_countries: codes };
    proof {
        assert(rec.timestamp as int == be4_at(b, 60));
        assert(rec.excluded_countries@ =~= Seq::new(
            be4_at(b, 124) as nat,
            |q: int| code_at(b, q),
        ));
    }
    Ok(rec)
}

proof fn lemma_codes_words_len(s: Seq<u16>)
    ensures
        codes_words(s).len() == 32 * s.len(),
    decreases s.len(),
{
    if s.len() > 0 {
        lemma_codes_words_len(s.drop_last());
    }
}

/// Byte `32*i + j` of the code words is byte `j` of code `i`'s word.
proof fn lemma_codes_words_index(s: Seq<u16>, i: int, j: int)
    requires
        0 <= i < s.len(),
        0 <= j < 32,
    ensures
        codes_words(s)[32 * i + j] == word_u16(s[i])[j],
    decreases s.len(),
{
    lemma_codes_words_len(s.drop_last());
    if i == s.len() - 1 {
        assert(codes_words(s)[32 * i + j] == word_u16(s.last())[j]);
    } else {
        lemma_codes_words_index(s.drop_last(), i, j);
        assert(s.drop_last()[i] == s[i]);
    }
}

/// A big-endian four-byte split reassembles to the value it came from.
proof fn lemma_be4_value(v: int)
    requires
        0 <= v < 0x100000000,
    ensures
        ((v / 0x1000000) % 0x100) * 0x1000000 + ((v / 0x10000) % 0x100) * 0x10000 + ((v / 0x100)
            % 0x100) * 0x100 + v % 0x100 == v,
{
    vstd::arithmetic::div_mod::lemma_fundamental_div_mod(v, 0x100);
    vstd::arithmetic::div_mod::lemma_fundamental_div_mod(v / 0x100, 0x100);
    vstd::arithmetic::div_mod::lemma_fundamental_div_mod(v / 0x100 / 0x100, 0x100);
    vstd::arithmetic::div_mod::lemma_div_denominator(v, 0x100, 0x100);
    vstd::arithmetic::div_mod::lemma_div_denominator(v, 0x10000, 0x100);
    vstd::arithmetic::div_mod::lemma_div_denominator(v / 0x100, 0x100, 0x100);
    assert((v / 0x1000000) % 0x100 == v / 0x1000000) by {
        vstd::arithmetic::div_mod::lemma_small_mod((v / 0x1000000) as nat, 0x100);
    }
}

/// Big-endian reassembly of four bytes splits back into those bytes.
proof fn lemma_be4_digits(b0: u8, b1: u8, b2: u8, b3: u8)
    ensures
        ({
            let v = b0 * 0x1000000 + b1 * 0x10000 + b2 * 0x100 + b3;
            &&& (v / 0x1000000) % 0x100 == b0
            &&& (v / 0x10000) % 0x100 == b1
            &&& (v / 0x100) % 0x100 == b2
            &&& v % 0x100 == b3
        }),
{
    let v = b0 * 0x1000000 + b1 * 0x10000 + b2 * 0x100 + b3;
    vstd::arithmetic::div_mod::lemma_fundamental_div_mod_converse(
        v as int,
        0x100,
        b0 * 0x10000 + b1 * 0x100 + b2,
        b3 as int,
    );
    vstd::arithmetic::div_mod::lemma_fundamental_div_mod_converse(
        v as int,
        0x10000,
        b0 * 0x100 + b1,
        b2 * 0x100 + b3,
    );
    vstd::arithmetic::div_mod::lemma_fundamental_div_mod_converse(
        v as int,
        0x1000000,
        b0 as int,
        b1 * 0x10000 + b2 * 0x100 + b3,
    );
    vstd::arithmetic::div_mod::lemma_fundamental_div_mod_converse(
        b0 * 0x10000 + b1 * 0x100 + b2,
        0x100,
        b0 * 0x100 + b1,
        b2 as int,
    );
    vstd::arithmetic::div_mod::lemma_fundamental_div_mod_converse(
        b0 * 0x100 + b1,
        0x100,
        b0 as int,
        b1 as int,
    );
    vstd::arithmetic::div_mod::lemma_small_mod(b0 as nat, 0x100);
}

/// Decoding is strict: a byte string a record decodes from is exactly
/// that record's encoding, so each record accepts one byte string only.
pub proof fn lemma_decode_canonical(b: Seq<u8>, is_excluded: bool, timestamp: u32, codes: Seq<u16>)
    requires
        decode_spec(b) == Some((is_excluded, timestamp, codes)),
    ensures
        b == encode_spec(is_excluded, timestamp, codes),
{
    let n = be4_at(b, 124);
    assert(codes =~= Seq::new(n as nat, |i: int| code_at(b, i)));
    let e = encode_spec(is_excluded, timestamp, codes);
    lemma_codes_words_len(codes);
    assert(e.len() == b.len());
    lemma_be4_digits(b[60], b[61], b[62], b[63]);
    lemma_be4_digits(b[124], b[125], b[126], b[127]);
    assert forall|p: int| 0 <= p < b.len() implies e[p] == b[p] by {
        if p < 32 {
            assert(e[p] == word_bool(is_excluded)[p]);
            if p < 31 {
                assert(b[p] == 0);
            } else {
                assert(is_excluded == (b[31] == 1));
            }
        } else if p < 64 {
            assert(e[p] == word_u32(timestamp as int)[p - 32]);
            if p - 32 < 28 {
                assert(b[p] == 0);
            } else {
                assert(timestamp as int == be4_at(b, 60));
            }
        } else if p < 96 {
            assert(e[p] == word_u32(0x60)[p - 64]);
            assert(b.subrange(64, 96)[p - 64] == b[p]);
        } else if p < 128 {
            assert(e[p] == word_u32(n)[p - 96]);
            if p - 96 < 28 {
                assert(b[p] == 0);
            }
        } else {
            let i = (p - 128) / 32;
            let j = (p - 128) % 32;
            vstd::arithmetic::div_mod::lemma_fundamental_div_mod(p - 128, 32);
            assert(0 <= i < n);
            lemma_codes_words_index(codes, i, j);
            assert(e[128 + 32 * i + j] == word_u16(codes[i])[j]);
            assert(code_padded(b, i));
            if j < 30 {
                assert(b[128 + 32 * i + j] == 0);
                assert(word_u16(codes[i])[j] == 0);
            } else {
                let hi = b[128 + 32 * i + 30];
                let lo = b[128 + 32 * i + 31];
                assert(codes[i] == (hi * 0x100 + lo) as u16);
                vstd::arithmetic::div_mod::lemma_fundamental_div_mod_converse(
                    hi * 0x100 + lo,
                    0x100,
                    hi as int,
                    lo as int,
                );
            }
        }
    }
    assert(b =~= e);
}

/// Commitment round trip: decoding the encoding of any record gives
/// back exactly that record, for every flag value, every timestamp and
/// every code list, the empty list included.
pub proof fn lemma_commitment_round_trip(is_excluded: bool, timestamp: u32, codes: Seq<u16>)
    requires
        codes.len() < 0x100000000,
    ensures
        decode_spec(encode_spec(is_excluded, timestamp, codes)) == Some(
            (is_excluded, timestamp, codes),
        ),
{
    let e = encode_spec(is_excluded, timestamp, codes);
    lemma_codes_words_len(codes);
    assert(e.len() == 128 + 32 * codes.len());
    let n = codes.len() as int;
    // head bytes
    assert forall|p: int| 0 <= p < 128 implies e[p] == {
        if p < 32 {
            word_bool(is_excluded)[p]
        } else if p < 64 {
            word_u32(timestamp as int)[p - 32]
        } else if p < 96 {
            word_u32(0x60)[p - 64]
        } else {
            word_u32(n)[p - 96]
        }
    } by {}
    assert forall|i: int, j: int| 0 <= i < n && 0 <= j < 32 implies e[128 + 32 * i + j]
        == word_u16(codes[i])[j] by {
        lemma_codes_words_index(codes, i, j);
        lemma_codes_words_len(codes);
        assert(e[128 + 32 * i + j] == codes_words(codes)[32 * i + j]);
    }
    lemma_be4_value(timestamp as int);
    lemma_be4_value(n);
    assert(be4_at(e, 60) == timestamp as int);
    assert(be4_at(e, 124) == n);
    assert(zeros_at(e, 0, 31));
    assert(e[31] == (if is_excluded { 1u8 } else { 0u8 }));
    assert(zeros_at(e, 32, 60));
    assert(e.subrange(64, 96) =~= word_u32(0x60));
    assert(zeros_at(e, 96, 124));
    assert forall|i: int| 0 <= i < n implies #[trigger] code_padded(e, i) by {
        assert forall|p: int| 128 + 32 * i <= p < 128 + 32 * i + 30 implies e[p] == 0 by {
            let j = p - 128 - 32 * i;
            lemma_codes_words_index(codes, i, j);
            lemma_codes_words_len(codes);
            assert(e[128 + 32 * i + j] == codes_words(codes)[32 * i + j]);
            assert(word_u16(codes[i])[j] == 0);
        }
        assert(zeros_at(e, 128 + 32 * i, 128 + 32 * i + 30));
    }
    let dec = decode_spec(e);
    assert(dec is Some);
    let (db, dt, dc) = dec->Some_0;
    assert(db == is_excluded);
    assert(dt == timestamp);
    assert forall|i: int| 0 <= i < n implies dc[i] == codes[i] by {
        assert(e[128 + 32 * i + 30] == word_u16(codes[i])[30]);
        assert(e[128 + 32 * i + 31] == word_u16(codes[i])[31]);
        let v = codes[i] as int;
        vstd::arithmetic::div_mod::lemma_fundamental_div_mod(v, 0x100);
    }
    assert(dc =~= codes);
}

} // verus!
