//! Proof fixture packaging.
//!
//! A proving run hands back committed public-value bytes and proof
//! bytes. The fixture decodes the public values with the commitment
//! codec and renders both byte strings as `0x`-prefixed lowercase hex,
//! ready for an external verifier.

use crate::commitment::{decode, decode_spec, CodecError, CommitmentRecord};
use vstd::prelude::*;
use vstd::string::*;

verus! {

pub open spec fn hex_digit(d: int) -> char {
    if d == 0 {
        '0'
    } else if d == 1 {
        '1'
    } else if d == 2 {
        '2'
    } else if d == 3 {
        '3'
    } else if d == 4 {
        '4'
    } else if d == 5 {
        '5'
    } else if d == 6 {
        '6'
    } else if d == 7 {
        '7'
    } else if d == 8 {
        '8'
    } else if d == 9 {
        '9'
    } else if d == 10 {
        'a'
    } else if d == 11 {
        'b'
    } else if d == 12 {
        'c'
    } else if d == 13 {
        'd'
    } else if d == 14 {
        'e'
    } else {
        'f'
    }
}

/// Lowercase hex of a byte string: two digits per byte, most
/// significant digit first.
pub open spec fn hex_of(b: Seq<u8>) -> Seq<char>
    decreases b.len(),
{
    if b.len() == 0 {
        Seq::empty()
    } else {
        hex_of(b.drop_last()) + seq![
            hex_digit(b.last() as int / 16),
            hex_digit(b.last() as int % 16),
        ]
    }
}

/// Relies on hex::encode: lowercase hex, two digits per byte, most
/// significant digit of each byte first.
#[verifier::external_body]
fn hex_encode(bytes: &Vec<u8>) -> (r: String)
    ensures
        r@ == hex_of(bytes@),
{
    hex::encode(bytes.as_slice())
}

/// Render bytes as `0x`-prefixed lowercase hex.
fn hex_with_prefix(bytes: &Vec<u8>) -> (r: String)
    ensures
        r@ == seq!['0', 'x'] + hex_of(bytes@),
{
    let mut s = String::new();
    proof {
        reveal_strlit("0x");
    }
    s.append("0x");
    let digits = hex_encode(bytes);
    s.append(digits.as_str());
    proof {
        assert(s@ =~= seq!['0', 'x'] + hex_of(bytes@));
    }
    s
}

/// A verifier-ready bundle: the decoded public values, the
/// verification-key identifier, and the raw byte strings in hex.
#[derive(Debug)]
pub struct ProofFixture {
    /// `true` when the address lay in none of the private ranges.
    pub is_excluded: bool,
    /// The committed timestamp.
    pub timestamp: u32,
    /// The committed country codes, in order.
    pub excluded_countries: Vec<u16>,
    /// The verification-key identifier of the proving run.
    pub vkey: String,
    /// The committed public-value bytes, `0x`-prefixed hex.
    pub public_values: String,
    /// The proof bytes, `0x`-prefixed hex.
    pub proof: String,
}

/// Create a fixture for the given proof: decode the committed public
/// values and render both byte strings for the verifier. Fails exactly
/// when the public-value bytes are not a canonical commitment.
pub fn create_proof_fixture(public_values: &Vec<u8>, proof_bytes: &Vec<u8>, vkey: String) -> (r:
    Result<ProofFixture, CodecError>)
    ensures
        match r {
            Ok(f) => {
                &&& decode_spec(public_values@) == Some(
                    (f.is_excluded, f.timestamp, f.excluded_countries@),
                )
                &&& f.vkey@ == vkey@
                &&& f.public_values@ == seq!['0', 'x'] + hex_of(public_values@)
                &&& f.proof@ == seq!['0', 'x'] + hex_of(proof_bytes@)
            },
            Err(CodecError::Malformed) => decode_spec(public_values@) is None,
        },
{
    let rec = match decode(public_values) {
        Ok(rec) => rec,
        Err(e) => {
            return Err(e);
        },
    };
    let CommitmentRecord { is_excluded, timestamp, excluded_countries } = rec;
    Ok(
        ProofFixture {
            is_excluded,
            timestamp,
            excluded_countries,
            vkey,
            public_values: hex_with_prefix(public_values),
            proof: hex_with_prefix(proof_bytes),
        },
    )
}

} // verus!
