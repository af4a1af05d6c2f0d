use rp_core::content::{artifact_outcome, hash_step, metered_hash, metered_hash_with_budget, raw_sha256, read_allowance, read_completeness, ChunkDigest, SecureReadError};
use rp_core::content_observations::Completeness;
use rp_core::execution::{ExecutionBudget, ExecutionStop};
use std::io::{self, Read};
use std::sync::atomic::{AtomicBool, Ordering};
use std::sync::Arc;

struct CountingReader {
    bytes: Vec<u8>,
    consumed: usize,
    requests: Vec<usize>,
    error_at: Option<usize>,
    grow: bool,
}

impl CountingReader {
    fn new(bytes: &[u8]) -> Self {
        Self {
            bytes: bytes.into(),
            consumed: 0,
            requests: Vec::new(),
            error_at: None,
            grow: false,
        }
    }
}

impl Read for CountingReader {
    fn read(&mut self, buffer: &mut [u8]) -> io::Result<usize> {
        self.requests.push(buffer.len());
        if self.error_at == Some(self.consumed) {
            return Err(io::Error::other("injected read failure"));
        }
        if self.grow {
            self.bytes.extend_from_slice(b"growing");
        }
        let count = buffer
            .len()
            .min(2)
            .min(self.bytes.len() - self.consumed)
            .min(self.error_at.unwrap_or(usize::MAX) - self.consumed);
        buffer[..count].copy_from_slice(&self.bytes[self.consumed..self.consumed + count]);
        self.consumed += count;
        Ok(count)
    }
}

#[test]
fn metered_reads_reject_metadata_before_io_and_preserve_error_charges() {
    for (size, item, aggregate, expected_error) in [
        (9, 8, 10, SecureReadError::TooLarge),
        (9, 10, 8, SecureReadError::AggregateTooLarge),
    ] {
        let mut reader = CountingReader::new(b"123456789");
        let mut remaining = aggregate;
        assert_eq!(
            metered_hash(&mut reader, size, item, &mut remaining),
            Err(expected_error)
        );
        assert!(reader.requests.is_empty());
        assert_eq!(remaining, aggregate);
    }
    for error in [false, true] {
        let mut reader = CountingReader::new(b"123");
        if error {
            reader.error_at = Some(3);
        }
        let mut remaining = 8;
        assert_eq!(
            metered_hash(&mut reader, 8, 8, &mut remaining),
            Err(if error {
                SecureReadError::Missing
            } else {
                SecureReadError::Changed
            })
        );
        assert_eq!(remaining, 5);
        assert_eq!(reader.consumed, 3);
        let mut next = CountingReader::new(b"123456");
        assert_eq!(
            metered_hash(&mut next, 6, 8, &mut remaining),
            Err(SecureReadError::AggregateTooLarge)
        );
        assert!(next.requests.is_empty());
    }
}

#[test]
fn metered_reads_bound_every_request_even_for_growing_input_and_exact_zero() {
    for grow in [false, true] {
        let mut reader = CountingReader::new(b"12345678");
        reader.grow = grow;
        let mut remaining = 8;
        let (size, digest) = metered_hash(&mut reader, 8, 8, &mut remaining).unwrap();
        assert_eq!((size, digest), (8, raw_sha256(b"12345678")));
        assert_eq!(remaining, 0);
        assert_eq!(reader.requests, [8, 6, 4, 2]);
        assert_eq!(reader.consumed, 8);
    }
    let mut empty = CountingReader::new(b"");
    assert_eq!(
        metered_hash(&mut empty, 0, 0, &mut 0).unwrap(),
        (0, raw_sha256(b""))
    );
    assert!(empty.requests.is_empty());
}

#[test]
fn execution_hash_stops_after_first_chunk_without_refunding_bytes() {
    struct Reader {
        token: Arc<AtomicBool>,
        calls: usize,
    }
    impl Read for Reader {
        fn read(&mut self, bytes: &mut [u8]) -> io::Result<usize> {
            self.calls += 1;
            bytes.fill(0);
            self.token.store(true, Ordering::Release);
            Ok(bytes.len())
        }
    }
    let token = Arc::new(AtomicBool::new(false));
    let execution = ExecutionBudget::new(std::time::Duration::from_secs(60), token.clone());
    let mut reader = Reader { token, calls: 0 };
    let mut remaining = 128 * 1024;
    let result = metered_hash_with_budget(
        &mut reader,
        128 * 1024,
        128 * 1024,
        &mut remaining,
        &execution,
    );
    assert_eq!(
        result,
        Err(SecureReadError::Stopped(ExecutionStop::Interrupted))
    );
    assert_eq!(reader.calls, 1);
    assert_eq!(remaining, 64 * 1024);
}

#[test]
fn digest_text_is_the_known_sha256_in_lowercase_hex() {
    assert_eq!(
        raw_sha256(b""),
        "sha256:e3b0c44298fc1c149afbf4c8996fb92427ae41e4649b934ca495991b7852b855"
    );
    assert_eq!(
        raw_sha256(b"abc"),
        "sha256:ba7816bf8f01cfea414140de5dae2223b00361a396177a9cb410ff61f20015ad"
    );
}

#[test]
fn budget_refusals_are_resource_limits_and_other_failures_unavailable() {
    for error in [
        SecureReadError::TooLarge,
        SecureReadError::AggregateTooLarge,
        SecureReadError::ReportTooLarge,
        SecureReadError::CaptureTooLarge,
    ] {
        assert_eq!(read_completeness(error), Completeness::ResourceLimit);
    }
    for error in [
        SecureReadError::Missing,
        SecureReadError::Changed,
        SecureReadError::Symlink,
        SecureReadError::Stopped(ExecutionStop::Deadline),
    ] {
        assert_eq!(read_completeness(error), Completeness::Unavailable);
    }
}

#[test]
fn chunked_digest_is_the_digest_of_the_chunks_joined() {
    let mut digest = ChunkDigest::new();
    digest.feed(b"hello wor", 6);
    digest.feed(b"world!", 5);
    assert_eq!(digest.finish(), raw_sha256(b"hello world"));
    assert_eq!(ChunkDigest::new().finish(), raw_sha256(b""));
}

#[test]
fn each_metered_read_is_bounded_counted_and_charged() {
    assert_eq!(read_allowance(100_000, 200_000, 0, 1_000_000), 65536);
    assert_eq!(read_allowance(100_000, 200_000, 90_000, 1_000_000), 10_000);
    assert_eq!(read_allowance(100_000, 100_000, 0, 7), 7);
    assert_eq!(hash_step(10, 10, 4, 20, None), Err(SecureReadError::Missing));
    assert_eq!(hash_step(10, 10, 4, 20, Some(0)), Err(SecureReadError::Changed));
    assert_eq!(hash_step(10, 10, 4, 20, Some(6)), Ok((10, 14)));
}

fn artifact_record(digest: &str) -> rp_core::index::ObjectRecord {
    rp_core::index::ObjectRecord {
        ordinal: 0,
        id: "art_a".to_string(),
        logical_id: None,
        object_type: rp_core::model::ObjectType::Artifact,
        source_file: rp_core::finding::ProjectPath::new(".research/artifacts/art_a.yaml").unwrap(),
        value: rp_core::report_json::JsonValue::Object(vec![(
            "sha256".to_string(),
            rp_core::report_json::JsonValue::Text(digest.to_string()),
        )]),
    }
}

#[test]
fn artifact_reads_verify_only_when_size_and_digest_match() {
    let digest = raw_sha256(b"data");
    let record = artifact_record(&digest);
    let ok = artifact_outcome(&record, 4, Ok((4, digest.clone())));
    assert!(ok.verified && ok.findings.is_empty() && ok.completeness == Completeness::Verified);
    assert_eq!(ok.hash.as_deref(), Some(digest.as_str()));
    let both = artifact_outcome(&artifact_record("sha256:00"), 5, Ok((4, digest.clone())));
    let codes: Vec<&str> = both.findings.iter().map(|f| f.error_code).collect();
    assert_eq!(codes, vec!["RP_E_ARTIFACT_SIZE_MISMATCH", "RP_E_ARTIFACT_DIGEST_MISMATCH"]);
    assert!(!both.verified);
    let missing = artifact_outcome(&record, 4, Err(SecureReadError::Missing));
    assert_eq!(missing.findings[0].error_code, "RP_E_ARTIFACT_NOT_FOUND");
    assert_eq!(missing.completeness, Completeness::Unavailable);
    let big = artifact_outcome(&record, 4, Err(SecureReadError::TooLarge));
    assert_eq!(big.completeness, Completeness::ResourceLimit);
    assert!(big.hash.is_none() && !big.verified);
}
