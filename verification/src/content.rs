//! Bounded content hashing and the small path rules of extension schemas.
use vstd::prelude::*;
use sha2::Digest;
use crate::content_observations::Completeness;
use crate::execution::{ExecutionBudget, ExecutionStop};
use crate::finding::{project_path_accepted, sanitized, Finding, ProjectPath, Severity};
use vstd::string::StringSliceAdditionalSpecFns;
use vstd::utf8::encode_utf8;
use crate::text::{
    has_prefix, has_suffix, lemma_split_nonempty, split_on, split_str, starts_with, str_chars, str_eq,
    string_push, string_push_str,
};

verus! {

/// Why a contained file could not be read and hashed.
#[derive(Clone, Copy, Debug, PartialEq, Eq, Structural)]
pub enum SecureReadError {
    Stopped(ExecutionStop),
    UnsafePath,
    Symlink,
    NonRegular,
    Changed,
    TooLarge,
    AggregateTooLarge,
    ReportTooLarge,
    CaptureTooLarge,
    Missing,
}

/// A budget refusal leaves coverage at the resource limit; every other failure
/// leaves the content unavailable.
pub fn read_completeness(error: SecureReadError) -> (c: Completeness)
    ensures
        c == (if error is TooLarge || error is AggregateTooLarge || error is ReportTooLarge
            || error is CaptureTooLarge {
            Completeness::ResourceLimit
        } else {
            Completeness::Unavailable
        }),
{
    match error {
        SecureReadError::TooLarge
        | SecureReadError::AggregateTooLarge
        | SecureReadError::ReportTooLarge
        | SecureReadError::CaptureTooLarge => Completeness::ResourceLimit,
        _ => Completeness::Unavailable,
    }
}

/// A running SHA-256 computation (`sha2::Sha256`). Verus sees only the bytes it has
/// been fed, named by `stream_fed`.
#[verifier::external_body]
pub struct Sha256Stream {
    inner: sha2::Sha256,
}

/// The bytes fed to a running SHA-256 computation, in order.
pub uninterp spec fn stream_fed(s: Sha256Stream) -> Seq<u8>;

/// The SHA-256 digest of a byte sequence.
pub uninterp spec fn sha256_digest(bytes: Seq<u8>) -> Seq<u8>;

/// `sha2::Sha256::new`: a computation that has been fed nothing.
#[verifier::external_body]
fn stream_new() -> (s: Sha256Stream)
    ensures
        stream_fed(s) == Seq::<u8>::empty(),
{
    Sha256Stream { inner: sha2::Sha256::new() }
}

/// `sha2::Digest::update` with the first `count` bytes of `buffer`: they are fed after
/// everything fed before.
#[verifier::external_body]
fn stream_update(s: &mut Sha256Stream, buffer: &[u8], count: usize)
    requires
        count <= buffer@.len(),
    ensures
        stream_fed(*final(s)) == stream_fed(*old(s)) + buffer@.subrange(0, count as int),
{
    s.inner.update(&buffer[..count])
}

/// `sha2::Digest::finalize`: the digest of everything fed, 32 bytes long.
#[verifier::external_body]
fn stream_finish(s: Sha256Stream) -> (d: Vec<u8>)
    ensures
        d@ == sha256_digest(stream_fed(s)),
        d@.len() == 32,
{
    s.inner.finalize().to_vec()
}

/// `std::io::Read::read` into the first `limit` bytes of `buffer`; the reader documents
/// that it reports at most that many.
#[verifier::external_body]
fn read_prefix<R: std::io::Read>(reader: &mut R, buffer: &mut Vec<u8>, limit: usize) -> (r: Result<usize, std::io::Error>)
    requires
        limit <= old(buffer)@.len(),
    ensures
        final(buffer)@.len() == old(buffer)@.len(),
        r matches Ok(n) ==> n <= limit,
{
    reader.read(&mut buffer[..limit])
}

pub open spec fn hex_char(n: int) -> char {
    if n < 10 {
        (48 + n) as char
    } else {
        (87 + n) as char
    }
}

/// Lowercase hexadecimal, two digits per byte, most significant first.
pub open spec fn hex_lower(bytes: Seq<u8>) -> Seq<char>
    decreases bytes.len(),
{
    if bytes.len() == 0 {
        Seq::empty()
    } else {
        hex_lower(bytes.drop_last()) + seq![hex_char((bytes.last() / 16) as int), hex_char((bytes.last() % 16) as int)]
    }
}

/// The digest text of a byte sequence: `sha256:` and the lowercase hex digest.
pub open spec fn sha256_text(bytes: Seq<u8>) -> Seq<char> {
    "sha256:"@ + hex_lower(sha256_digest(bytes))
}

fn hex_char_exec(n: u8) -> (c: char)
    requires
        n < 16,
    ensures
        c == hex_char(n as int),
{
    if n < 10 {
        let c = (48 + n) as char;
        assert(c == hex_char(n as int));
        c
    } else {
        let c = (87 + n) as char;
        assert(c == hex_char(n as int));
        c
    }
}

/// `sha256:` followed by the lowercase hex of `digest`.
fn digest_text(digest: &Vec<u8>) -> (t: String)
    ensures
        t@ == "sha256:"@ + hex_lower(digest@),
{
    let mut t = String::new();
    proof {
        reveal_strlit("sha256:");
    }
    string_push_str(&mut t, "sha256:");
    let mut i: usize = 0;
    assert(digest@.subrange(0, 0) =~= Seq::<u8>::empty());
    assert(t@ =~= "sha256:"@ + hex_lower(digest@.subrange(0, 0)));
    while i < digest.len()
        invariant
            i <= digest@.len(),
            t@ == "sha256:"@ + hex_lower(digest@.subrange(0, i as int)),
        decreases digest@.len() - i,
    {
        let b = digest[i];
        string_push(&mut t, hex_char_exec(b / 16));
        string_push(&mut t, hex_char_exec(b % 16));
        proof {
            let next = digest@.subrange(0, i + 1);
            assert(next.drop_last() =~= digest@.subrange(0, i as int));
            assert(next.last() == b);
            assert(t@ =~= "sha256:"@ + hex_lower(next));
        }
        i = i + 1;
    }
    assert(digest@.subrange(0, digest@.len() as int) =~= digest@);
    t
}

/// The SHA-256 digest of `bytes`.
pub fn raw_sha256_bytes(bytes: &[u8]) -> (d: Vec<u8>)
    ensures
        d@ == sha256_digest(bytes@),
        d@.len() == 32,
{
    let mut s = stream_new();
    stream_update(&mut s, bytes, bytes.len());
    assert(stream_fed(s) =~= bytes@);
    stream_finish(s)
}

/// The digest text of `bytes`.
pub fn raw_sha256(bytes: &[u8]) -> (t: String)
    ensures
        t@ == sha256_text(bytes@),
{
    let mut s = stream_new();
    stream_update(&mut s, bytes, bytes.len());
    assert(stream_fed(s) =~= bytes@);
    let digest = stream_finish(s);
    digest_text(&digest)
}

/// A SHA-256 digest fed chunk by chunk.
pub struct ChunkDigest {
    stream: Sha256Stream,
}

impl ChunkDigest {
    /// The bytes fed so far, in order.
    pub closed spec fn fed(&self) -> Seq<u8> {
        stream_fed(self.stream)
    }

    /// A digest that has been fed nothing.
    pub fn new() -> (d: Self)
        ensures
            d.fed() == Seq::<u8>::empty(),
    {
        ChunkDigest { stream: stream_new() }
    }

    /// Feeds the first `count` bytes of `chunk` after everything fed before.
    pub fn feed(&mut self, chunk: &[u8], count: usize)
        requires
            count <= chunk@.len(),
        ensures
            final(self).fed() == old(self).fed() + chunk@.subrange(0, count as int),
    {
        stream_update(&mut self.stream, chunk, count);
    }

    /// The digest text of everything fed: `sha256:` and 64 lowercase hex digits.
    pub fn finish(self) -> (t: String)
        ensures
            t@ == sha256_text(self.fed()),
    {
        let digest = stream_finish(self.stream);
        digest_text(&digest)
    }
}

/// Bytes one metered read may ask for: at most 64 KiB, and no more than is left of the
/// expected size, of the per-item budget and of the aggregate budget.
pub open spec fn read_allowance_of(expected_size: int, max_bytes: int, observed: int, remaining: int) -> int {
    let a = if expected_size - observed < 65536 { expected_size - observed } else { 65536 };
    let b = if max_bytes - observed < a { max_bytes - observed } else { a };
    if remaining < b { remaining } else { b }
}

/// The size of the next metered read (see `read_allowance_of`).
pub fn read_allowance(expected_size: usize, max_bytes: usize, observed: usize, remaining: usize) -> (n: usize)
    requires
        observed <= expected_size <= max_bytes,
    ensures
        n as int == read_allowance_of(expected_size as int, max_bytes as int, observed as int, remaining as int),
{
    let mut allowance: usize = 65536;
    if expected_size - observed < allowance {
        allowance = expected_size - observed;
    }
    if max_bytes - observed < allowance {
        allowance = max_bytes - observed;
    }
    if remaining < allowance {
        allowance = remaining;
    }
    allowance
}

/// What one read does to a metered hash that has seen `observed` bytes with
/// `remaining` left in the aggregate budget: a failed read (`None`) is `Missing`; a
/// read of nothing means the content ended early, `Changed`; a read of `n` bytes is
/// counted and charged at once.
pub fn hash_step(expected_size: usize, max_bytes: usize, observed: usize, remaining: usize, read: Option<usize>) -> (r: Result<(usize, usize), SecureReadError>)
    requires
        observed < expected_size <= max_bytes,
        read matches Some(n) ==> n <= read_allowance_of(expected_size as int, max_bytes as int, observed as int, remaining as int),
    ensures
        read is None ==> r == Err::<(usize, usize), SecureReadError>(SecureReadError::Missing),
        read == Some(0usize) ==> r == Err::<(usize, usize), SecureReadError>(SecureReadError::Changed),
        read matches Some(n) ==> (n > 0 ==> r == Ok::<(usize, usize), SecureReadError>(((observed + n) as usize, (remaining - n) as usize))),
{
    match read {
        None => Err(SecureReadError::Missing),
        Some(n) => if n == 0 {
            Err(SecureReadError::Changed)
        } else {
            Ok((observed + n, remaining - n))
        },
    }
}

/// Hashes exactly `expected_size` bytes from `reader` in bounded reads. Both budgets
/// are checked before any read; every byte read is charged to `remaining` at once,
/// before later reads or checks can fail. A reader that ends early is `Changed`,
/// one that fails is `Missing`.
pub fn metered_hash_with_budget<R: std::io::Read>(
    reader: &mut R,
    expected_size: usize,
    max_bytes: usize,
    remaining: &mut usize,
    execution: &ExecutionBudget,
) -> (r: Result<(usize, String), SecureReadError>)
    ensures
        *final(remaining) <= *old(remaining),
        expected_size > max_bytes ==> *final(remaining) == *old(remaining)
            && (r matches Err(SecureReadError::Stopped(_)) || r == Err::<(usize, String), SecureReadError>(SecureReadError::TooLarge)),
        expected_size <= max_bytes && expected_size > *old(remaining) ==> *final(remaining) == *old(remaining)
            && (r matches Err(SecureReadError::Stopped(_)) || r == Err::<(usize, String), SecureReadError>(SecureReadError::AggregateTooLarge)),
        r matches Ok(x) ==> {
            &&& x.0 == expected_size
            &&& *old(remaining) - *final(remaining) == expected_size
            &&& exists|read: Seq<u8>| read.len() == expected_size && #[trigger] sha256_text(read) == x.1@
        },
        r matches Err(e) ==> (e is Stopped || e is TooLarge || e is AggregateTooLarge || e is Missing || e is Changed),
        r == Err::<(usize, String), SecureReadError>(SecureReadError::TooLarge) ==> expected_size > max_bytes,
        r == Err::<(usize, String), SecureReadError>(SecureReadError::AggregateTooLarge) ==> expected_size <= max_bytes
            && expected_size > *old(remaining),
        *old(remaining) - *final(remaining) <= expected_size,
        r matches Err(e) && (e is Missing || e is Changed) ==> *old(remaining) - *final(remaining) < expected_size,
        r matches Err(e) && (e is Missing || e is Changed) ==> 0 < expected_size <= max_bytes && expected_size <= *old(remaining),
        expected_size == 0 ==> (r is Ok || r matches Err(SecureReadError::Stopped(_))),
        expected_size == 0 ==> (r matches Ok(x) ==> x.1@ == sha256_text(Seq::empty())),
{
    if let Err(stop) = execution.checkpoint() {
        return Err(SecureReadError::Stopped(stop));
    }
    if expected_size > max_bytes {
        return Err(SecureReadError::TooLarge);
    }
    if expected_size > *remaining {
        return Err(SecureReadError::AggregateTooLarge);
    }
    let mut hasher = ChunkDigest::new();
    let mut observed: usize = 0;
    let mut buffer: Vec<u8> = vec![0u8; 65536];
    while observed < expected_size
        invariant
            observed <= expected_size <= max_bytes,
            buffer@.len() == 65536,
            *remaining <= *old(remaining),
            *old(remaining) - *remaining == observed,
            *remaining >= expected_size - observed,
            hasher.fed().len() == observed,
        decreases expected_size - observed,
    {
        if let Err(stop) = execution.checkpoint() {
            return Err(SecureReadError::Stopped(stop));
        }
        let allowance = read_allowance(expected_size, max_bytes, observed, *remaining);
        let read = match read_prefix(reader, &mut buffer, allowance) {
            Ok(n) => Some(n),
            Err(_) => None,
        };
        let (now_observed, now_remaining) = match hash_step(expected_size, max_bytes, observed, *remaining, read) {
            Ok(x) => x,
            Err(e) => return Err(e),
        };
        let count = now_observed - observed;
        *remaining = now_remaining;
        observed = now_observed;
        if let Err(stop) = execution.checkpoint() {
            return Err(SecureReadError::Stopped(stop));
        }
        hasher.feed(buffer.as_slice(), count);
    }
    let ghost fed = hasher.fed();
    assert(expected_size == 0 ==> fed =~= Seq::<u8>::empty());
    let text = hasher.finish();
    Ok((observed, text))
}

/// `metered_hash_with_budget` under a default execution budget.
pub fn metered_hash<R: std::io::Read>(
    reader: &mut R,
    expected_size: usize,
    max_bytes: usize,
    remaining: &mut usize,
) -> (r: Result<(usize, String), SecureReadError>)
    ensures
        *final(remaining) <= *old(remaining),
        expected_size > max_bytes ==> *final(remaining) == *old(remaining)
            && (r matches Err(SecureReadError::Stopped(_)) || r == Err::<(usize, String), SecureReadError>(SecureReadError::TooLarge)),
        expected_size <= max_bytes && expected_size > *old(remaining) ==> *final(remaining) == *old(remaining)
            && (r matches Err(SecureReadError::Stopped(_)) || r == Err::<(usize, String), SecureReadError>(SecureReadError::AggregateTooLarge)),
        r matches Ok(x) ==> {
            &&& x.0 == expected_size
            &&& *old(remaining) - *final(remaining) == expected_size
            &&& exists|read: Seq<u8>| read.len() == expected_size && #[trigger] sha256_text(read) == x.1@
        },
        r matches Err(e) ==> (e is Stopped || e is TooLarge || e is AggregateTooLarge || e is Missing || e is Changed),
        r == Err::<(usize, String), SecureReadError>(SecureReadError::TooLarge) ==> expected_size > max_bytes,
        r == Err::<(usize, String), SecureReadError>(SecureReadError::AggregateTooLarge) ==> expected_size <= max_bytes
            && expected_size > *old(remaining),
        *old(remaining) - *final(remaining) <= expected_size,
        r matches Err(e) && (e is Missing || e is Changed) ==> *old(remaining) - *final(remaining) < expected_size,
        r matches Err(e) && (e is Missing || e is Changed) ==> 0 < expected_size <= max_bytes && expected_size <= *old(remaining),
        expected_size == 0 ==> (r is Ok || r matches Err(SecureReadError::Stopped(_))),
        expected_size == 0 ==> (r matches Ok(x) ==> x.1@ == sha256_text(Seq::empty())),
{
    metered_hash_with_budget(reader, expected_size, max_bytes, remaining, &ExecutionBudget::default())
}


/// The code, family and message of a read failure other than a stop; a missing file
/// takes the caller's code and family.
pub open spec fn read_failure(error: SecureReadError, default_code: Seq<char>, default_family: Seq<char>) -> (Seq<char>, Seq<char>, Seq<char>) {
    match error {
        SecureReadError::Stopped(_) => (Seq::empty(), Seq::empty(), Seq::empty()),
        SecureReadError::UnsafePath => ("RP_E_PATH_PROJECT_ESCAPE"@, "path_containment"@, "path escapes or encodes traversal outside the Project"@),
        SecureReadError::Symlink => ("RP_E_PATH_SYMLINK_FORBIDDEN"@, "path_containment"@, "symlinks are forbidden for contained content"@),
        SecureReadError::NonRegular => ("RP_E_PATH_NON_REGULAR_FILE"@, "path_containment"@, "contained content is not a regular file"@),
        SecureReadError::Changed => ("RP_E_ARTIFACT_CHANGED_DURING_VERIFICATION"@, "artifact_integrity"@, "contained file changed during verification"@),
        SecureReadError::TooLarge => ("RP_E_RESOURCE_ARTIFACT_SIZE_EXCEEDED"@, "resource_limit"@, "contained file exceeds its byte budget"@),
        SecureReadError::AggregateTooLarge => ("RP_E_RESOURCE_ARTIFACT_AGGREGATE_EXCEEDED"@, "resource_limit"@, "contained file exceeds the remaining aggregate artifact byte budget"@),
        SecureReadError::ReportTooLarge => ("RP_E_RESOURCE_REPORT_SIZE_EXCEEDED"@, "resource_limit"@, "report document byte limit exceeded"@),
        SecureReadError::CaptureTooLarge => ("RP_E_RESOURCE_REPORT_CAPTURE_EXCEEDED"@, "resource_limit"@, "aggregate report capture byte limit exceeded"@),
        SecureReadError::Missing => (default_code, default_family, "contained file was not found"@),
    }
}

fn read_failure_exec(error: SecureReadError, default_code: &'static str, default_family: &'static str) -> (r: (&'static str, &'static str, &'static str))
    requires
        !(error is Stopped),
    ensures
        (r.0@, r.1@, r.2@) == read_failure(error, default_code@, default_family@),
{
    proof {
        reveal_strlit("RP_E_ARTIFACT_CHANGED_DURING_VERIFICATION");
        reveal_strlit("RP_E_PATH_NON_REGULAR_FILE");
        reveal_strlit("RP_E_PATH_PROJECT_ESCAPE");
        reveal_strlit("RP_E_PATH_SYMLINK_FORBIDDEN");
        reveal_strlit("RP_E_RESOURCE_ARTIFACT_AGGREGATE_EXCEEDED");
        reveal_strlit("RP_E_RESOURCE_ARTIFACT_SIZE_EXCEEDED");
        reveal_strlit("RP_E_RESOURCE_REPORT_CAPTURE_EXCEEDED");
        reveal_strlit("RP_E_RESOURCE_REPORT_SIZE_EXCEEDED");
        reveal_strlit("aggregate report capture byte limit exceeded");
        reveal_strlit("artifact_integrity");
        reveal_strlit("contained content is not a regular file");
        reveal_strlit("contained file changed during verification");
        reveal_strlit("contained file exceeds its byte budget");
        reveal_strlit("contained file exceeds the remaining aggregate artifact byte budget");
        reveal_strlit("contained file was not found");
        reveal_strlit("path escapes or encodes traversal outside the Project");
        reveal_strlit("path_containment");
        reveal_strlit("report document byte limit exceeded");
        reveal_strlit("resource_limit");
        reveal_strlit("symlinks are forbidden for contained content");
    }
    match error {
        SecureReadError::Stopped(_) => ("", "", ""),
        SecureReadError::UnsafePath => ("RP_E_PATH_PROJECT_ESCAPE", "path_containment", "path escapes or encodes traversal outside the Project"),
        SecureReadError::Symlink => ("RP_E_PATH_SYMLINK_FORBIDDEN", "path_containment", "symlinks are forbidden for contained content"),
        SecureReadError::NonRegular => ("RP_E_PATH_NON_REGULAR_FILE", "path_containment", "contained content is not a regular file"),
        SecureReadError::Changed => ("RP_E_ARTIFACT_CHANGED_DURING_VERIFICATION", "artifact_integrity", "contained file changed during verification"),
        SecureReadError::TooLarge => ("RP_E_RESOURCE_ARTIFACT_SIZE_EXCEEDED", "resource_limit", "contained file exceeds its byte budget"),
        SecureReadError::AggregateTooLarge => ("RP_E_RESOURCE_ARTIFACT_AGGREGATE_EXCEEDED", "resource_limit", "contained file exceeds the remaining aggregate artifact byte budget"),
        SecureReadError::ReportTooLarge => ("RP_E_RESOURCE_REPORT_SIZE_EXCEEDED", "resource_limit", "report document byte limit exceeded"),
        SecureReadError::CaptureTooLarge => ("RP_E_RESOURCE_REPORT_CAPTURE_EXCEEDED", "resource_limit", "aggregate report capture byte limit exceeded"),
        SecureReadError::Missing => (default_code, default_family, "contained file was not found"),
    }
}

/// The diagnostic of a failed contained read of the object in `source_file`: a stop's
/// own diagnostic, otherwise the failure's code, family and message at `pointer`.
pub fn path_or_content_finding(
    error: SecureReadError,
    default_code: &'static str,
    default_family: &'static str,
    source_file: ProjectPath,
    pointer: &str,
) -> (f: Finding)
    ensures
        error matches SecureReadError::Stopped(stop) ==> f.error_code@ == crate::execution::stop_code(stop)
            && f.finding_family@ == crate::execution::stop_family(stop) && f.source_file is None,
        !(error is Stopped) ==> {
            let (code, family, message) = read_failure(error, default_code@, default_family@);
            &&& f.error_code@ == code
            &&& f.finding_family@ == family
            &&& f.severity == Severity::Error
            &&& f.message@ == sanitized(message)
            &&& f.source_file == Some(source_file)
            &&& f.json_pointer@ == pointer@
        },
{
    if let SecureReadError::Stopped(stop) = error {
        return stop.finding();
    }
    let (code, family, message) = read_failure_exec(error, default_code, default_family);
    Finding::new(code, family, Severity::Error, message, Some(source_file), pointer)
}

/// A template matches a path of the same length whose segments equal the template's,
/// where `*` matches any segment.
pub open spec fn template_fits(template: Seq<String>, actual: Seq<String>) -> bool {
    template.len() == actual.len() && forall|i: int| 0 <= i < template.len() ==>
        (#[trigger] template[i])@ == "*"@ || template[i]@ == actual[i]@
}

/// Whether `actual` fits the segment template `template`.
pub fn template_matches(template: &Vec<String>, actual: &Vec<String>) -> (r: bool)
    ensures
        r == template_fits(template@, actual@),
{
    proof {
        reveal_strlit("*");
    }
    if template.len() != actual.len() {
        return false;
    }
    let mut i: usize = 0;
    while i < template.len()
        invariant
            template@.len() == actual@.len(),
            i <= template@.len(),
            forall|k: int| 0 <= k < i ==> (#[trigger] template@[k])@ == "*"@ || template@[k]@ == actual@[k]@,
        decreases template@.len() - i,
    {
        if !(str_eq(template[i].as_str(), "*") || str_eq(template[i].as_str(), actual[i].as_str())) {
            return false;
        }
        i = i + 1;
    }
    true
}

/// The URI under which an extension schema at `path` is registered.
pub fn extension_schema_uri(path: &str) -> (uri: String)
    ensures
        uri@ == "https://research-provenance.invalid/project/"@ + path@,
{
    proof {
        reveal_strlit("https://research-provenance.invalid/project/");
    }
    let mut uri = String::new();
    string_push_str(&mut uri, "https://research-provenance.invalid/project/");
    string_push_str(&mut uri, path);
    uri
}


/// The position of the last `c` in `s`.
pub open spec fn last_index_of(s: Seq<char>, c: char) -> Option<int>
    decreases s.len(),
{
    if s.len() == 0 {
        None
    } else if s.last() == c {
        Some(s.len() - 1)
    } else {
        last_index_of(s.drop_last(), c)
    }
}

proof fn lemma_last_index_of(s: Seq<char>, c: char)
    ensures
        last_index_of(s, c) matches Some(p) ==> 0 <= p < s.len() && s[p] == c
            && forall|k: int| p < k < s.len() ==> s[k] != c,
        last_index_of(s, c) is None ==> forall|k: int| 0 <= k < s.len() ==> s[k] != c,
    decreases s.len(),
{
    if s.len() > 0 {
        lemma_last_index_of(s.drop_last(), c);
        if s.last() != c {
            assert forall|k: int| 0 <= k < s.len() - 1 implies s[k] == s.drop_last()[k] by {}
        }
    }
}

/// `s` with every `.` replaced by `/`.
pub open spec fn dots_to_slashes(s: Seq<char>) -> Seq<char> {
    s.map_values(|c: char| if c == '.' { '/' } else { c })
}

/// Where the schema of an extension namespace `name/vN` lives: dots of the name
/// become directories. `None` without a `/`, or where the version does not start
/// with `v`.
pub open spec fn schema_path_of(namespace: Seq<char>) -> Option<Seq<char>> {
    match last_index_of(namespace, '/') {
        None => None,
        Some(p) => {
            let name = namespace.subrange(0, p);
            let version = namespace.subrange(p + 1, namespace.len() as int);
            if version.len() > 0 && version[0] == 'v' {
                Some(".research/schemas/"@ + dots_to_slashes(name) + "/"@ + version + ".schema.json"@)
            } else {
                None
            }
        },
    }
}

/// The project path of the schema of extension namespace `namespace`.
pub fn extension_schema_path(namespace: &str) -> (r: Option<String>)
    ensures
        match r {
            Some(path) => schema_path_of(namespace@) == Some(path@),
            None => schema_path_of(namespace@) is None,
        },
{
    let c = str_chars(namespace);
    let mut i: usize = c.len();
    let mut found: Option<usize> = None;
    proof {
        lemma_last_index_of(namespace@, '/');
    }
    while i > 0
        invariant_except_break
            found is None,
        invariant
            c@ == namespace@,
            i <= c@.len(),
            forall|k: int| i <= k < c@.len() ==> c@[k] != '/',
        ensures
            found matches Some(p) ==> p < c@.len() && c@[p as int] == '/' && forall|k: int| p < k < c@.len() ==> c@[k] != '/',
            found is None ==> forall|k: int| 0 <= k < c@.len() ==> c@[k] != '/',
        decreases i,
    {
        if c[i - 1] == '/' {
            found = Some(i - 1);
            break;
        }
        i = i - 1;
    }
    let p = match found {
        None => {
            proof {
                assert(last_index_of(namespace@, '/') is None) by {
                    if last_index_of(namespace@, '/') is Some {
                        let q = last_index_of(namespace@, '/')->0;
                        assert(c@[q] == '/');
                    }
                }
            }
            return None;
        },
        Some(p) => p,
    };
    proof {
        assert(last_index_of(namespace@, '/') == Some(p as int)) by {
            if last_index_of(namespace@, '/') is None {
                assert(c@[p as int] == '/');
            } else {
                let q = last_index_of(namespace@, '/')->0;
                if q < p {
                    assert(c@[p as int] == '/');
                } else if q > p {
                    assert(c@[q] == '/');
                }
            }
        }
    }
    if p + 1 >= c.len() || c[p + 1] != 'v' {
        return None;
    }
    let mut out = String::new();
    proof {
        reveal_strlit(".research/schemas/");
        reveal_strlit("/");
        reveal_strlit(".schema.json");
    }
    string_push_str(&mut out, ".research/schemas/");
    let mut k: usize = 0;
    while k < p
        invariant
            c@ == namespace@,
            p < c@.len(),
            k <= p,
            out@ == ".research/schemas/"@ + dots_to_slashes(namespace@.subrange(0, k as int)),
        decreases p - k,
    {
        let ch = c[k];
        string_push(&mut out, if ch == '.' { '/' } else { ch });
        assert(dots_to_slashes(namespace@.subrange(0, k + 1)) =~= dots_to_slashes(namespace@.subrange(0, k as int)).push(if ch == '.' { '/' } else { ch }));
        k = k + 1;
    }
    string_push(&mut out, '/');
    let mut m: usize = p + 1;
    let ghost base = out@;
    while m < c.len()
        invariant
            c@ == namespace@,
            p < m <= c@.len(),
            out@ == base + namespace@.subrange(p + 1, m as int),
        decreases c@.len() - m,
    {
        string_push(&mut out, c[m]);
        assert(namespace@.subrange(p + 1, m + 1) =~= namespace@.subrange(p + 1, m as int).push(c@[m as int]));
        m = m + 1;
    }
    string_push_str(&mut out, ".schema.json");
    proof {
        assert("/"@ =~= seq!['/']);
        assert(out@ =~= ".research/schemas/"@ + dots_to_slashes(namespace@.subrange(0, p as int)) + "/"@
            + namespace@.subrange(p + 1, namespace@.len() as int) + ".schema.json"@);
    }
    Some(out)
}

/// The diagnostic for an unusable extension schema declared by the project file.
pub fn extension_invalid(source_file: ProjectPath, message: &'static str) -> (f: Finding)
    ensures
        f.error_code@ == "RP_E_EXTENSION_SCHEMA_INVALID"@,
        f.finding_family@ == "extension_schema"@,
        f.severity == Severity::Error,
        f.message@ == sanitized(message@),
        f.source_file == Some(source_file),
        f.json_pointer@ == "/schema_policy/allowed_extensions"@,
{
    Finding::new(
        "RP_E_EXTENSION_SCHEMA_INVALID",
        "extension_schema",
        Severity::Error,
        message,
        Some(source_file),
        "/schema_policy/allowed_extensions",
    )
}


/// Why an extension schema was refused.
#[derive(Clone, Copy, Debug, PartialEq, Eq, Structural)]
pub enum ExtensionSchemaError {
    Forbidden,
    SchemaCount,
    Bytes,
    RefDepth,
    Invalid,
}

pub open spec fn ascii_lower(c: char) -> char {
    if 'A' <= c && c <= 'Z' {
        ((c as u32) + 32) as char
    } else {
        c
    }
}

/// `t` occurs in `s` as a contiguous run.
pub open spec fn occurs_in(s: Seq<char>, t: Seq<char>) -> bool {
    exists|i: int| 0 <= i && i + t.len() <= s.len() && #[trigger] s.subrange(i, i + t.len()) == t
}

/// A schema reference that may not be followed: empty, absolute, with a backslash,
/// query, scheme or drive colon, or with a percent-encoded slash, backslash or dot.
pub open spec fn reference_forbidden(r: Seq<char>) -> bool {
    let lower = r.map_values(|c: char| ascii_lower(c));
    r.len() == 0 || r[0] == '/' || r.contains('\\') || r.contains('?') || r.contains(':')
        || occurs_in(lower, "%2f"@) || occurs_in(lower, "%5c"@) || occurs_in(lower, "%2e"@)
}

/// Applies path segments to a directory stack: empty and `.` segments stay, `..`
/// leaves a directory (refused at the top), others enter one.
pub open spec fn apply_segments(stack: Seq<Seq<char>>, segs: Seq<Seq<char>>) -> Option<Seq<Seq<char>>>
    decreases segs.len(),
{
    if segs.len() == 0 {
        Some(stack)
    } else {
        match apply_segments(stack, segs.drop_last()) {
            None => None,
            Some(st) => {
                let seg = segs.last();
                if seg.len() == 0 || seg == "."@ {
                    Some(st)
                } else if seg == ".."@ {
                    if st.len() == 0 { None } else { Some(st.drop_last()) }
                } else {
                    Some(st.push(seg))
                }
            },
        }
    }
}

proof fn lemma_apply_none_extends(stack: Seq<Seq<char>>, segs: Seq<Seq<char>>, j: int)
    requires
        0 <= j <= segs.len(),
        apply_segments(stack, segs.subrange(0, j)) is None,
    ensures
        apply_segments(stack, segs) is None,
    decreases segs.len() - j,
{
    if j < segs.len() {
        let next = segs.subrange(0, j + 1);
        assert(next.drop_last() =~= segs.subrange(0, j));
        lemma_apply_none_extends(stack, segs, j + 1);
    } else {
        assert(segs.subrange(0, j) =~= segs);
    }
}

/// The parts joined with `/`.
pub open spec fn join_slash(parts: Seq<Seq<char>>) -> Seq<char>
    decreases parts.len(),
{
    if parts.len() == 0 {
        Seq::empty()
    } else if parts.len() == 1 {
        parts[0]
    } else {
        join_slash(parts.drop_last()) + seq!['/'] + parts.last()
    }
}

/// The project path a schema reference from the schema at `current` resolves to,
/// where it stays a contained `.schema.json` file under `.research/schemas/`.
pub open spec fn resolved_schema(current: Seq<char>, reference: Seq<char>) -> Option<Seq<char>> {
    if reference_forbidden(reference) {
        None
    } else {
        match apply_segments(split_on(current, '/').drop_last(), split_on(reference, '/')) {
            None => None,
            Some(st) => {
                let path = join_slash(st);
                if has_prefix(path, ".research/schemas/"@) && has_suffix(path, ".schema.json"@)
                    && project_path_accepted(encode_utf8(path)) {
                    Some(path)
                } else {
                    None
                }
            },
        }
    }
}

/// Whether the three-character run `t` occurs in `s`.
fn occurs3(s: &Vec<char>, t: &[char; 3]) -> (r: bool)
    ensures
        r == occurs_in(s@, t@),
{
    let mut i: usize = 0;
    while i < s.len() && s.len() - i >= 3
        invariant
            i <= s@.len(),
            t@.len() == 3,
            forall|k: int| 0 <= k < i && k + 3 <= s@.len() ==> #[trigger] s@.subrange(k, k + 3) != t@,
        decreases s@.len() - i,
    {
        if s[i] == t[0] && s[i + 1] == t[1] && s[i + 2] == t[2] {
            assert(s@.subrange(i as int, i + 3) =~= t@);
            return true;
        }
        assert(s@.subrange(i as int, i + 3)[0] == s@[i as int]);
        assert(s@.subrange(i as int, i + 3)[1] == s@[i + 1]);
        assert(s@.subrange(i as int, i + 3)[2] == s@[i + 2]);
        i = i + 1;
    }
    proof {
        assert forall|k: int| 0 <= k && k + t@.len() <= s@.len() implies #[trigger] s@.subrange(k, k + t@.len()) != t@ by {
            assert(k < i);
        }
    }
    false
}

fn reference_is_forbidden(reference: &str) -> (r: bool)
    ensures
        r == reference_forbidden(reference@),
{
    let c = str_chars(reference);
    if c.len() == 0 || c[0] == '/' {
        return true;
    }
    let mut lower: Vec<char> = Vec::new();
    let mut i: usize = 0;
    let mut bad = false;
    while i < c.len()
        invariant
            c@ == reference@,
            i <= c@.len(),
            lower@ == c@.subrange(0, i as int).map_values(|ch: char| ascii_lower(ch)),
            bad == (c@.subrange(0, i as int).contains('\\') || c@.subrange(0, i as int).contains('?')
                || c@.subrange(0, i as int).contains(':')),
        decreases c@.len() - i,
    {
        let ch = c[i];
        let ghost before = c@.subrange(0, i as int);
        if ch == '\\' || ch == '?' || ch == ':' {
            bad = true;
        }
        let low = if 'A' <= ch && ch <= 'Z' { ((ch as u8) + 32) as char } else { ch };
        proof {
            if 'A' <= ch && ch <= 'Z' {
                assert(low == ascii_lower(ch));
            }
        }
        lower.push(low);
        proof {
            let next = c@.subrange(0, i + 1);
            assert(next =~= before.push(ch));
            assert(lower@ =~= next.map_values(|x: char| ascii_lower(x)));
            assert(next.contains('\\') == (before.contains('\\') || ch == '\\')) by {
                if next.contains('\\') {
                    let k = choose|k: int| 0 <= k < next.len() && next[k] == '\\';
                    if k < before.len() {
                        assert(before[k] == next[k]);
                    }
                }
                if before.contains('\\') {
                    let k = choose|k: int| 0 <= k < before.len() && before[k] == '\\';
                    assert(next[k] == before[k]);
                }
                if ch == '\\' {
                    assert(next[i as int] == ch);
                }
            }
            assert(next.contains('?') == (before.contains('?') || ch == '?')) by {
                if next.contains('?') {
                    let k = choose|k: int| 0 <= k < next.len() && next[k] == '?';
                    if k < before.len() {
                        assert(before[k] == next[k]);
                    }
                }
                if before.contains('?') {
                    let k = choose|k: int| 0 <= k < before.len() && before[k] == '?';
                    assert(next[k] == before[k]);
                }
                if ch == '?' {
                    assert(next[i as int] == ch);
                }
            }
            assert(next.contains(':') == (before.contains(':') || ch == ':')) by {
                if next.contains(':') {
                    let k = choose|k: int| 0 <= k < next.len() && next[k] == ':';
                    if k < before.len() {
                        assert(before[k] == next[k]);
                    }
                }
                if before.contains(':') {
                    let k = choose|k: int| 0 <= k < before.len() && before[k] == ':';
                    assert(next[k] == before[k]);
                }
                if ch == ':' {
                    assert(next[i as int] == ch);
                }
            }
        }
        i = i + 1;
    }
    proof {
        assert(c@.subrange(0, c@.len() as int) =~= c@);
        reveal_strlit("%2f");
        reveal_strlit("%5c");
        reveal_strlit("%2e");
        assert(['%', '2', 'f']@ =~= "%2f"@);
        assert(['%', '5', 'c']@ =~= "%5c"@);
        assert(['%', '2', 'e']@ =~= "%2e"@);
    }
    bad || occurs3(&lower, &['%', '2', 'f']) || occurs3(&lower, &['%', '5', 'c']) || occurs3(&lower, &['%', '2', 'e'])
}

/// The parts joined with `/`, as a string.
fn join_parts(parts: &Vec<String>) -> (s: String)
    ensures
        s@ == join_slash(crate::claim::views(parts@)),
{
    let mut s = String::new();
    let mut i: usize = 0;
    proof {
        assert(crate::claim::views(parts@).subrange(0, 0) =~= Seq::<Seq<char>>::empty());
    }
    while i < parts.len()
        invariant
            i <= parts@.len(),
            s@ == join_slash(crate::claim::views(parts@).subrange(0, i as int)),
        decreases parts@.len() - i,
    {
        let ghost v = crate::claim::views(parts@);
        proof {
            let next = v.subrange(0, i + 1);
            assert(next.drop_last() =~= v.subrange(0, i as int));
            assert(next.last() == parts@[i as int]@);
            if i == 0 {
                assert(next =~= seq![parts@[0]@]);
            }
        }
        if i > 0 {
            string_push(&mut s, '/');
        }
        string_push_str(&mut s, parts[i].as_str());
        proof {
            let next = v.subrange(0, i + 1);
            if i > 0 {
                assert(s@ =~= join_slash(next.drop_last()) + seq!['/'] + next.last());
            } else {
                assert(s@ =~= next[0]);
            }
        }
        i = i + 1;
    }
    proof {
        assert(crate::claim::views(parts@).subrange(0, parts@.len() as int) =~= crate::claim::views(parts@));
    }
    s
}

/// Resolves a schema reference against the schema file at `current_path`.
pub fn resolve_schema_path(current_path: &str, reference: &str) -> (r: Result<String, ExtensionSchemaError>)
    ensures
        match r {
            Ok(path) => resolved_schema(current_path@, reference@) == Some(path@),
            Err(e) => e == ExtensionSchemaError::Forbidden && resolved_schema(current_path@, reference@) is None,
        },
{
    if reference_is_forbidden(reference) {
        return Err(ExtensionSchemaError::Forbidden);
    }
    let mut components = split_str(current_path, '/');
    proof {
        lemma_split_nonempty(current_path@, '/');
    }
    let ghost all = crate::claim::views(components@);
    components.pop();
    proof {
        assert(crate::claim::views(components@) =~= split_on(current_path@, '/').drop_last());
    }
    let segments = split_str(reference, '/');
    let ghost segs = split_on(reference@, '/');
    let ghost start = crate::claim::views(components@);
    let mut i: usize = 0;
    proof {
        assert(segs.subrange(0, 0) =~= Seq::<Seq<char>>::empty());
        reveal_strlit(".");
        reveal_strlit("..");
    }
    while i < segments.len()
        invariant
            start == split_on(current_path@, '/').drop_last(),
            segs == split_on(reference@, '/'),
            !reference_forbidden(reference@),
            segments@.len() == segs.len(),
            forall|k: int| 0 <= k < segments@.len() ==> (#[trigger] segments@[k])@ == segs[k],
            i <= segments@.len(),
            apply_segments(start, segs.subrange(0, i as int)) == Some(crate::claim::views(components@)),
        decreases segments@.len() - i,
    {
        let seg = segments[i].as_str();
        proof {
            let next = segs.subrange(0, i + 1);
            assert(next.drop_last() =~= segs.subrange(0, i as int));
            assert(next.last() == seg@);
        }
        let ghost before = components@;
        let empty = seg.as_bytes().len() == 0;
        if empty || str_eq(seg, ".") {
            proof {
                if empty {
                    vstd::utf8::encode_utf8_decode_utf8(seg@);
                    assert(seg@.len() == 0) by {
                        if seg@.len() > 0 {
                            crate::text::lemma_utf8_injective(seg@, Seq::<char>::empty());
                        }
                    }
                }
            }
        } else if str_eq(seg, "..") {
            match components.pop() {
                Some(_) => {
                    proof {
                        assert(crate::claim::views(components@) =~= crate::claim::views(before).drop_last());
                    }
                },
                None => {
                    proof {
                        assert(crate::claim::views(before).len() == 0);
                        assert(apply_segments(start, segs.subrange(0, i + 1)) is None);
                        lemma_apply_none_extends(start, segs, i + 1);
                    }
                    return Err(ExtensionSchemaError::Forbidden);
                },
            }
        } else {
            components.push(seg.to_owned());
            proof {
                assert(crate::claim::views(components@) =~= crate::claim::views(before).push(seg@));
                if seg@.len() == 0 {
                    assert(seg.spec_bytes().len() == 0);
                }
            }
        }
        i = i + 1;
    }
    proof {
        assert(segs.subrange(0, segs.len() as int) =~= segs);
    }
    let path = join_parts(&components);
    proof {
        reveal_strlit(".research/schemas/");
        reveal_strlit(".schema.json");
    }
    if !starts_with(path.as_str(), ".research/schemas/") || !crate::text::ends_with(path.as_str(), ".schema.json") {
        return Err(ExtensionSchemaError::Forbidden);
    }
    match ProjectPath::new(path.as_str()) {
        Ok(_) => Ok(path),
        Err(_) => Err(ExtensionSchemaError::Forbidden),
    }
}

/// What a hashed artifact read leaves: the record's completeness, the digest it was
/// read with, its diagnostics, and whether the artifact is verified.
pub struct ArtifactOutcome {
    pub completeness: Completeness,
    pub hash: Option<String>,
    pub findings: Vec<Finding>,
    pub verified: bool,
}

/// `f` is an artifact-integrity error of the record in `source_file` at `pointer`.
pub open spec fn integrity_finding(f: Finding, code: Seq<char>, message: Seq<char>, source_file: ProjectPath, pointer: Seq<char>) -> bool {
    &&& f.error_code@ == code
    &&& f.finding_family@ == "artifact_integrity"@
    &&& f.severity == Severity::Error
    &&& f.message@ == sanitized(message)
    &&& f.source_file == Some(source_file)
    &&& f.json_pointer@ == pointer
}

/// The outcome of reading and hashing the artifact of `record`, whose manifest
/// declares `declared_size` bytes and the digest text under `sha256`. A read that
/// succeeds verifies the record's content and keeps its digest; a size or digest
/// that differs from the manifest is reported, and the artifact counts as verified
/// only when both match. A failed read reports its failure (a missing file as an
/// absent artifact) and leaves the content unavailable, or at its resource limit.
pub fn artifact_outcome(
    record: &crate::index::ObjectRecord,
    declared_size: usize,
    read: Result<(usize, String), SecureReadError>,
) -> (r: ArtifactOutcome)
    ensures
        read matches Ok(x) ==> {
            let size_ok = x.0 == declared_size;
            let digest_ok = crate::json::as_text(crate::json::json_get(record.value, "sha256"@)) == Some(x.1@);
            &&& r.completeness == Completeness::Verified
            &&& r.hash matches Some(h) && h@ == x.1@
            &&& r.verified == (size_ok && digest_ok)
            &&& r.findings@.len() == (if size_ok { 0int } else { 1int }) + (if digest_ok { 0int } else { 1int })
            &&& !size_ok ==> integrity_finding(r.findings@[0], "RP_E_ARTIFACT_SIZE_MISMATCH"@,
                "artifact size does not match size_bytes"@, record.source_file, "/size_bytes"@)
            &&& !digest_ok ==> integrity_finding(r.findings@.last(), "RP_E_ARTIFACT_DIGEST_MISMATCH"@,
                "artifact SHA-256 does not match the manifest"@, record.source_file, "/sha256"@)
        },
        read matches Err(e) ==> {
            &&& r.completeness == (if e is TooLarge || e is AggregateTooLarge || e is ReportTooLarge || e is CaptureTooLarge {
                Completeness::ResourceLimit
            } else {
                Completeness::Unavailable
            })
            &&& r.hash is None
            &&& !r.verified
            &&& r.findings@.len() == 1
            &&& e matches SecureReadError::Stopped(stop) ==> r.findings@[0].error_code@ == crate::execution::stop_code(stop)
                && r.findings@[0].source_file is None
            &&& !(e is Stopped) ==> {
                let (code, family, message) = read_failure(e, "RP_E_ARTIFACT_NOT_FOUND"@, "artifact_integrity"@);
                &&& r.findings@[0].error_code@ == code
                &&& r.findings@[0].finding_family@ == family
                &&& r.findings@[0].message@ == sanitized(message)
                &&& r.findings@[0].source_file == Some(record.source_file)
                &&& r.findings@[0].json_pointer@ == "/uri"@
            }
        },
{
    proof {
        reveal_strlit("RP_E_ARTIFACT_SIZE_MISMATCH");
        reveal_strlit("RP_E_ARTIFACT_DIGEST_MISMATCH");
        reveal_strlit("RP_E_ARTIFACT_NOT_FOUND");
        reveal_strlit("artifact_integrity");
        reveal_strlit("artifact size does not match size_bytes");
        reveal_strlit("artifact SHA-256 does not match the manifest");
        reveal_strlit("/size_bytes");
        reveal_strlit("/sha256");
        reveal_strlit("/uri");
        reveal_strlit("sha256");
    }
    match read {
        Ok((size, digest)) => {
            let mut findings: Vec<Finding> = Vec::new();
            let size_ok = size == declared_size;
            if !size_ok {
                findings.push(Finding::new(
                    "RP_E_ARTIFACT_SIZE_MISMATCH",
                    "artifact_integrity",
                    Severity::Error,
                    "artifact size does not match size_bytes",
                    Some(record.source_file.clone_path()),
                    "/size_bytes",
                ));
            }
            let digest_ok = match record.value.get("sha256") {
                Some(v) => match v.as_str() {
                    Some(t) => str_eq(t, digest.as_str()),
                    None => false,
                },
                None => false,
            };
            if !digest_ok {
                findings.push(Finding::new(
                    "RP_E_ARTIFACT_DIGEST_MISMATCH",
                    "artifact_integrity",
                    Severity::Error,
                    "artifact SHA-256 does not match the manifest",
                    Some(record.source_file.clone_path()),
                    "/sha256",
                ));
            }
            ArtifactOutcome { completeness: Completeness::Verified, hash: Some(digest), findings, verified: size_ok && digest_ok }
        },
        Err(e) => {
            let f = path_or_content_finding(e, "RP_E_ARTIFACT_NOT_FOUND", "artifact_integrity", record.source_file.clone_path(), "/uri");
            let mut findings: Vec<Finding> = Vec::new();
            findings.push(f);
            ArtifactOutcome { completeness: read_completeness(e), hash: None, findings, verified: false }
        },
    }
}

} // verus!
