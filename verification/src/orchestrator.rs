//! Proof orchestration: the decisions around the proving capability.
//!
//! The orchestrator assembles the private inputs (address, ranges) and
//! public inputs (numeric country codes, timestamp) of one run, knows
//! which commitment the proving environment must produce for them, and
//! checks an execution run's decoded output against an independent
//! recomputation. The proving capability itself stays outside: callers
//! hand its raw output bytes in.

use crate::commitment::{decode, encode, encode_spec, decode_spec, CommitmentRecord};
use crate::evaluate::{is_excluded_ref, spec_is_excluded};
use vstd::prelude::*;

verus! {

/// The inputs of one proving run. The field order here is the order
/// the proving environment reads them in: address, ranges, numeric
/// codes, timestamp.
#[derive(Debug)]
pub struct ExclusionRequest {
    /// Private: the address under test.
    pub address: u32,
    /// Private: the inclusive exclusion ranges.
    pub ranges: Vec<(u32, u32)>,
    /// Public: the excluded countries' numeric codes, in caller order.
    pub numeric_codes: Vec<u16>,
    /// Public: seconds since the Unix epoch.
    pub timestamp: u32,
}

/// Errors from validating an execution run's output.
#[derive(Debug, Clone, Copy, PartialEq, Eq, Structural)]
pub enum OrchestratorError {
    /// The output bytes are not a canonical commitment.
    DecodeFailed,
    /// The decoded result contradicts the independent recomputation.
    ResultMismatch,
}

/// The commitment record this request must produce: the evaluator's
/// verdict over the private inputs beside the public inputs unchanged.
pub fn commitment_record(request: &ExclusionRequest) -> (rec: CommitmentRecord)
    ensures
        rec.is_excluded == spec_is_excluded(request.address, request.ranges@),
        rec.timestamp == request.timestamp,
        rec.excluded_countries@ == request.numeric_codes@,
{
    let clear = is_excluded_ref(request.address, &request.ranges);
    let mut codes: Vec<u16> = Vec::new();
    let mut i: usize = 0;
    while i < request.numeric_codes.len()
        invariant
            0 <= i <= request.numeric_codes@.len(),
            codes@ == request.numeric_codes@.take(i as int),
        decreases request.numeric_codes@.len() - i,
    {
        codes.push(request.numeric_codes[i]);
        assert(codes@ =~= request.numeric_codes@.take(i + 1));
        i = i + 1;
    }
    proof {
        assert(request.numeric_codes@.take(request.numeric_codes@.len() as int)
            =~= request.numeric_codes@);
    }
    CommitmentRecord { is_excluded: clear, timestamp: request.timestamp, excluded_countries: codes }
}

/// The commitment bytes the proving environment must commit for this
/// request: the evaluation of the private inputs, encoded canonically
/// with the public inputs.
pub fn commitment_bytes(request: &ExclusionRequest) -> (out: Vec<u8>)
    requires
        request.numeric_codes@.len() < 0x100000000,
    ensures
        out@ == encode_spec(
            spec_is_excluded(request.address, request.ranges@),
            request.timestamp,
            request.numeric_codes@,
        ),
{
    let rec = commitment_record(request);
    encode(&rec)
}

/// Validate an execution run: decode the committed public values and
/// check the committed verdict against an independent recomputation
/// over the same private inputs. A mismatch is an orchestration bug
/// and fatal; it must halt the run before any proof is generated.
pub fn validate_execution(request: &ExclusionRequest, output: &Vec<u8>) -> (r: Result<
    CommitmentRecord,
    OrchestratorError,
>)
    ensures
        match r {
            Ok(rec) => {
                &&& decode_spec(output@) == Some(
                    (rec.is_excluded, rec.timestamp, rec.excluded_countries@),
                )
                &&& rec.is_excluded == spec_is_excluded(request.address, request.ranges@)
            },
            Err(OrchestratorError::DecodeFailed) => decode_spec(output@) is None,
            Err(OrchestratorError::ResultMismatch) => match decode_spec(output@) {
                Some(t) => t.0 != spec_is_excluded(request.address, request.ranges@),
                None => false,
            },
        },
{
    let rec = match decode(output) {
        Ok(rec) => rec,
        Err(_) => {
            return Err(OrchestratorError::DecodeFailed);
        },
    };
    let expected = is_excluded_ref(request.address, &request.ranges);
    if rec.is_excluded != expected {
        return Err(OrchestratorError::ResultMismatch);
    }
    Ok(rec)
}

} // verus!
