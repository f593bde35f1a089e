use zkip::cache::{fetch_failure_outcome, is_cache_stale, refresh_reason, FetchFailure,
    RefreshReason};
use zkip::commitment::encode;
use zkip::fixture::create_proof_fixture;
use zkip::orchestrator::{commitment_bytes, validate_execution, ExclusionRequest,
    OrchestratorError};

const DAY: u64 = 24 * 60 * 60;

#[test]
fn stale_after_window() {
    let now: u64 = 1_700_000_000;
    assert!(is_cache_stale(now, Some(now - 31 * DAY)));
    assert!(!is_cache_stale(now, Some(now - 1 * DAY)));
    assert!(!is_cache_stale(now, Some(now - 30 * DAY)));
    assert!(is_cache_stale(now, Some(now - 30 * DAY - 1)));
    assert!(is_cache_stale(now, None));
    assert!(is_cache_stale(now, Some(now + 1)));
}

#[test]
fn old_cache_triggers_refetch_without_force() {
    let now: u64 = 1_700_000_000;
    let stale = is_cache_stale(now, Some(now - 31 * DAY));
    assert_eq!(refresh_reason(false, true, stale), Some(RefreshReason::CacheStale));
    let fresh = is_cache_stale(now, Some(now - 1 * DAY));
    assert_eq!(refresh_reason(false, true, fresh), None);
}

#[test]
fn refresh_reason_precedence() {
    assert_eq!(refresh_reason(true, true, false), Some(RefreshReason::Requested));
    assert_eq!(refresh_reason(true, false, true), Some(RefreshReason::Requested));
    assert_eq!(refresh_reason(false, false, false), Some(RefreshReason::CacheMissing));
    assert_eq!(refresh_reason(false, true, true), Some(RefreshReason::CacheStale));
    assert_eq!(refresh_reason(false, true, false), None);
}

#[test]
fn fetch_failure_falls_back_only_with_cache() {
    assert_eq!(fetch_failure_outcome(true), FetchFailure::UseStaleCache);
    assert_eq!(fetch_failure_outcome(false), FetchFailure::Fatal);
}

fn request_clear() -> ExclusionRequest {
    // scenario: 8.8.8.8 against the France/OVH block
    ExclusionRequest {
        address: 134744072,
        ranges: vec![(1534132224, 1534140415)],
        numeric_codes: vec![250],
        timestamp: 1_700_000_000,
    }
}

fn request_excluded() -> ExclusionRequest {
    // scenario: 91.113.0.1, inside the same block
    ExclusionRequest {
        address: 1534132225,
        ranges: vec![(1534132224, 1534140415)],
        numeric_codes: vec![250],
        timestamp: 1_700_000_000,
    }
}

#[test]
fn end_to_end_clear_address() {
    let req = request_clear();
    let bytes = commitment_bytes(&req);
    assert_eq!(bytes.len(), 160);
    assert_eq!(bytes[31], 1); // clear of every range
    assert_eq!(&bytes[60..64], &1_700_000_000u32.to_be_bytes());
    assert_eq!(bytes[127], 1);
    assert_eq!(bytes[159], 250);
    let rec = validate_execution(&req, &bytes).unwrap();
    assert!(rec.is_excluded);
    assert_eq!(rec.timestamp, req.timestamp);
    assert_eq!(rec.excluded_countries, vec![250]);
}

#[test]
fn end_to_end_excluded_address() {
    let req = request_excluded();
    let bytes = commitment_bytes(&req);
    assert_eq!(bytes[31], 0); // inside an excluded range
    let rec = validate_execution(&req, &bytes).unwrap();
    assert!(!rec.is_excluded);
}

#[test]
fn validation_catches_mismatch() {
    let req = request_clear();
    // a commitment claiming the opposite verdict
    let mut other = request_clear();
    other.address = 1534132225;
    let bytes = commitment_bytes(&other);
    assert!(matches!(
        validate_execution(&req, &bytes),
        Err(OrchestratorError::ResultMismatch)
    ));
}

#[test]
fn validation_catches_garbage() {
    let req = request_clear();
    assert!(matches!(
        validate_execution(&req, &vec![1, 2, 3]),
        Err(OrchestratorError::DecodeFailed)
    ));
}

#[test]
fn fixture_renders_hex() {
    let req = request_clear();
    let public = commitment_bytes(&req);
    let proof = vec![0x01u8, 0xfa, 0x00, 0xff];
    let fixture = create_proof_fixture(&public, &proof, "0xabc123".to_string()).unwrap();
    assert!(fixture.is_excluded);
    assert_eq!(fixture.timestamp, req.timestamp);
    assert_eq!(fixture.excluded_countries, vec![250]);
    assert_eq!(fixture.vkey, "0xabc123");
    assert_eq!(fixture.proof, "0x01fa00ff");
    assert_eq!(fixture.public_values, format!("0x{}", hex::encode(&public)));
    assert!(fixture.public_values.starts_with("0x"));
    assert_eq!(fixture.public_values.len(), 2 + 2 * public.len());
}

#[test]
fn fixture_rejects_bad_public_values() {
    let bad = vec![0u8; 10];
    assert!(create_proof_fixture(&bad, &vec![], "vk".to_string()).is_err());
}

#[test]
fn encode_matches_commitment_bytes() {
    let req = request_clear();
    let rec = zkip::orchestrator::commitment_record(&req);
    assert_eq!(encode(&rec), commitment_bytes(&req));
}
