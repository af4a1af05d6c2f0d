//! Same-read content observations, retained compactly under a fixed budget.
use vstd::prelude::*;
use vstd::string::StringSliceAdditionalSpecFns;
use vstd::utf8::encode_utf8;

use crate::finding::{Finding, Severity};
use crate::findings::{saturating_inc, Findings};
use crate::text::{str_chars, str_eq, string_push};

verus! {

/// Who a content observation belongs to.
#[derive(Clone, Debug, PartialEq, Eq)]
pub enum Owner {
    Object(String),
    Context(String),
    Outer,
}

/// The validation phase that read the content.
#[derive(Clone, Copy, Debug, PartialEq, Eq, Structural)]
pub enum Phase {
    Canonical,
    Policy,
    Narrative,
    Artifact,
    ExtensionSchema,
    ExtensionPayload,
    EventProvenance,
    OuterReport,
}

/// How much of the content a record's hash covers.
#[derive(Clone, Copy, Debug, PartialEq, Eq, Structural)]
pub enum Completeness {
    Verified,
    Mismatch,
    IdentifierOnly,
    Unavailable,
    ResourceLimit,
    Ambiguous,
}

impl Completeness {
    /// The bytes were read in full (whether or not they matched).
    pub fn byte_complete(self) -> (r: bool)
        ensures
            r == (self == Completeness::Verified || self == Completeness::Mismatch),
    {
        match self {
            Completeness::Verified | Completeness::Mismatch => true,
            _ => false,
        }
    }

    /// Ambiguity and resource exhaustion are final for a record.
    pub fn is_sticky(self) -> (r: bool)
        ensures
            r == (self == Completeness::Ambiguous || self == Completeness::ResourceLimit),
    {
        match self {
            Completeness::Ambiguous | Completeness::ResourceLimit => true,
            _ => false,
        }
    }
}

/// The retained projection of a diagnostic.
#[derive(Clone, Debug)]
pub struct CompactFinding {
    pub error_code: &'static str,
    pub finding_family: &'static str,
    pub severity: Severity,
    pub json_pointer: String,
}

/// One observed read.
#[derive(Clone, Debug)]
pub struct Observation {
    pub owner: Owner,
    pub phase: Phase,
    pub path: Option<String>,
    pub namespace: Option<String>,
    pub consumers: Vec<String>,
    pub raw_sha256: Option<String>,
    pub completeness: Completeness,
    pub findings: Vec<CompactFinding>,
}

/// Remaining retention allowances of a store.
#[derive(Clone, Copy, Debug, PartialEq, Eq, Structural)]
pub struct ObservationLimits {
    pub records: usize,
    pub bytes: usize,
    pub owners: usize,
    pub findings: usize,
}

pub open spec fn default_observation_limits() -> ObservationLimits {
    ObservationLimits { records: 4096, bytes: 4194304, owners: 16384, findings: 16384 }
}

impl ObservationLimits {
    pub fn default() -> (l: Self)
        ensures
            l == default_observation_limits(),
    {
        ObservationLimits { records: 4096, bytes: 4 * 1024 * 1024, owners: 16384, findings: 16384 }
    }
}

pub open spec fn min_usize(a: usize, b: usize) -> usize {
    if a < b {
        a
    } else {
        b
    }
}

pub open spec fn sat_add(a: int, b: int) -> int {
    if a + b > usize::MAX {
        usize::MAX as int
    } else {
        a + b
    }
}

pub open spec fn sat_mul(a: int, b: int) -> int {
    if a * b > usize::MAX {
        usize::MAX as int
    } else {
        a * b
    }
}

pub open spec fn option_len(s: Option<&str>) -> int {
    match s {
        Some(t) => utf8_len(t@),
        None => 0,
    }
}

/// A `/`-separated path with empty and `.` segments dropped.
pub open spec fn flush_segment(out: Seq<char>, seg: Seq<char>) -> Seq<char> {
    if seg.len() == 0 || seg == seq!['.'] {
        out
    } else if out.len() == 0 {
        seg
    } else {
        out + seq!['/'] + seg
    }
}

pub open spec fn normalize_from(p: Seq<char>, out: Seq<char>, seg: Seq<char>) -> Seq<char>
    decreases p.len(),
{
    if p.len() == 0 {
        flush_segment(out, seg)
    } else if p[0] == '/' {
        normalize_from(p.drop_first(), flush_segment(out, seg), Seq::empty())
    } else {
        normalize_from(p.drop_first(), out, seg.push(p[0]))
    }
}

/// Lexical collapse of redundant separators and `.` segments; never canonicalizes.
pub open spec fn normalized_path(p: Seq<char>) -> Seq<char> {
    normalize_from(p, Seq::empty(), Seq::empty())
}

fn is_single_dot(seg: &Vec<char>) -> (r: bool)
    ensures
        r == (seg@ == seq!['.']),
{
    let r = seg.len() == 1 && seg[0] == '.';
    proof {
        if seg@.len() == 1 && seg@[0] == '.' {
            assert(seg@ =~= seq!['.']);
        }
    }
    r
}

fn flush_into(out: &mut String, seg: &Vec<char>)
    ensures
        final(out)@ == flush_segment(old(out)@, seg@),
{
    if seg.len() == 0 || is_single_dot(seg) {
        return;
    }
    let ghost before = out@;
    if !out.as_str().is_empty() {
        string_push(out, '/');
    }
    proof {
        if before.len() == 0 {
            assert(out@ =~= Seq::<char>::empty());
        }
    }
    let mut i: usize = 0;
    let ghost base = out@;
    while i < seg.len()
        invariant
            i <= seg@.len(),
            out@ == base + seg@.take(i as int),
        decreases seg.len() - i,
    {
        string_push(out, seg[i]);
        assert(seg@.take(i + 1) =~= seg@.take(i as int).push(seg@[i as int]));
        i = i + 1;
    }
    assert(seg@.take(i as int) =~= seg@);
    proof {
        if before.len() == 0 {
            assert(out@ =~= seg@);
        } else {
            assert(out@ =~= before + seq!['/'] + seg@);
        }
    }
}

/// Collapses empty and `.` segments of a project path.
pub fn normalize_path(p: &str) -> (r: String)
    ensures
        r@ == normalized_path(p@),
{
    let chars = str_chars(p);
    let mut out = String::new();
    let mut seg: Vec<char> = Vec::new();
    let mut i: usize = 0;
    assert(chars@.skip(0) =~= chars@);
    while i < chars.len()
        invariant
            i <= chars@.len(),
            chars@ == p@,
            normalize_from(chars@.skip(i as int), out@, seg@) == normalized_path(p@),
        decreases chars.len() - i,
    {
        assert(chars@.skip(i as int).drop_first() =~= chars@.skip(i + 1));
        if chars[i] == '/' {
            flush_into(&mut out, &seg);
            seg = Vec::new();
            assert(seg@ =~= Seq::<char>::empty());
        } else {
            seg.push(chars[i]);
        }
        i = i + 1;
    }
    assert(chars@.skip(i as int).len() == 0);
    flush_into(&mut out, &seg);
    out
}

fn copy_str(s: &str) -> (r: String)
    ensures
        r@ == s@,
{
    s.to_owned()
}

fn copy_strings(ids: &[String]) -> (r: Vec<String>)
    ensures
        r@ == ids@,
{
    let mut out: Vec<String> = Vec::new();
    let mut i: usize = 0;
    while i < ids.len()
        invariant
            i <= ids@.len(),
            out@.len() == i,
            forall|k: int| 0 <= k < i ==> #[trigger] out@[k] == ids@[k],
        decreases ids.len() - i,
    {
        out.push(ids[i].clone());
        i = i + 1;
    }
    assert(out@ =~= ids@);
    out
}

/// The UTF-8 length of a text.
pub open spec fn utf8_len(s: Seq<char>) -> int {
    (encode_utf8(s).len() as usize) as int
}

/// `start` plus the UTF-8 bytes of the first `n` identifiers, saturating.
pub open spec fn id_bytes(ids: Seq<String>, n: int, start: int) -> int
    decreases n,
{
    if n <= 0 {
        start
    } else {
        sat_add(id_bytes(ids, n - 1, start), utf8_len(ids[n - 1]@))
    }
}

/// Bytes of the consumer identifiers plus one shared handle each, saturating.
pub open spec fn handle_bytes(ids: Seq<String>, n: int, handle: int) -> int
    decreases n,
{
    if n <= 0 {
        0
    } else {
        sat_add(sat_add(handle_bytes(ids, n - 1, handle), utf8_len(ids[n - 1]@)), handle)
    }
}

/// A retained, budgeted store of content observations.
pub struct ObservationStore {
    pub records: Vec<Observation>,
    /// False on overflow, early stop or a visit that could not be represented.
    pub coverage_complete: bool,
    pub pipeline_provenance_complete: bool,
    pub retention_exhausted: bool,
    pub remaining: ObservationLimits,
    /// First actual hash per normalized path; `None` is sticky ambiguity.
    pub hashes: Vec<(String, Option<String>)>,
}

/// The hash recorded for `path`, if the path was hashed.
pub open spec fn hash_entry(hashes: Seq<(String, Option<String>)>, path: Seq<char>) -> Option<
    Option<String>,
>
    decreases hashes.len(),
{
    if hashes.len() == 0 {
        None
    } else if hashes[0].0@ == path {
        Some(hashes[0].1)
    } else {
        hash_entry(hashes.drop_first(), path)
    }
}

proof fn lemma_hash_entry_at(h: Seq<(String, Option<String>)>, path: Seq<char>, i: int)
    requires
        0 <= i < h.len(),
        h[i].0@ == path,
        forall|j: int| 0 <= j < i ==> (#[trigger] h[j]).0@ != path,
    ensures
        hash_entry(h, path) == Some(h[i].1),
    decreases i,
{
    if i > 0 {
        assert forall|j: int| 0 <= j < i - 1 implies (#[trigger] h.drop_first()[j]).0@ != path by {
            assert(h.drop_first()[j] == h[j + 1]);
        }
        lemma_hash_entry_at(h.drop_first(), path, i - 1);
    }
}

proof fn lemma_hash_entry_absent(h: Seq<(String, Option<String>)>, path: Seq<char>)
    requires
        forall|j: int| 0 <= j < h.len() ==> (#[trigger] h[j]).0@ != path,
    ensures
        hash_entry(h, path) is None,
    decreases h.len(),
{
    if h.len() > 0 {
        assert forall|j: int| 0 <= j < h.len() - 1 implies (#[trigger] h.drop_first()[j]).0@ != path by {
            assert(h.drop_first()[j] == h[j + 1]);
        }
        lemma_hash_entry_absent(h.drop_first(), path);
    }
}

/// The index of the entry recorded for `path`.
fn find_hash(h: &Vec<(String, Option<String>)>, path: &str) -> (r: Option<usize>)
    ensures
        r matches Some(i) ==> i < h@.len() && h@[i as int].0@ == path@ && hash_entry(h@, path@)
            == Some(h@[i as int].1),
        r is None ==> hash_entry(h@, path@) is None && forall|j: int|
            0 <= j < h@.len() ==> (#[trigger] h@[j]).0@ != path@,
{
    let mut i: usize = 0;
    while i < h.len()
        invariant
            i <= h@.len(),
            forall|j: int| 0 <= j < i ==> (#[trigger] h@[j]).0@ != path@,
        decreases h.len() - i,
    {
        if str_eq(h[i].0.as_str(), path) {
            proof {
                lemma_hash_entry_at(h@, path@, i as int);
            }
            return Some(i);
        }
        i = i + 1;
    }
    proof {
        lemma_hash_entry_absent(h@, path@);
    }
    None
}

/// `hash` is the recorded text `h`.
pub open spec fn same_hash(h: Option<String>, hash: Seq<char>) -> bool {
    h matches Some(t) && t@ == hash
}

/// Bytes charged for retaining a hash, plus its path entry when the path is new.
pub open spec fn hash_charge(path: Option<String>, entry: Option<Option<String>>, hash: Seq<char>) -> int {
    let extra = match path {
        Some(p) => if entry is None {
            sat_add(sat_add(utf8_len(p@), utf8_len(hash)), 64)
        } else {
            0
        },
        None => 0,
    };
    sat_add(utf8_len(hash), extra)
}

/// A recorded entry that disagrees with `hash` (or is already ambiguous).
pub open spec fn conflicting(entry: Option<Option<String>>, hash: Seq<char>) -> bool {
    entry matches Some(v) && !same_hash(v, hash)
}

/// A record filed under `path`.
pub open spec fn filed_under(rec: Observation, path: Seq<char>) -> bool {
    rec.path matches Some(p) && p@ == path
}

/// A record whose hash was withdrawn because its path was read with two hashes.
pub open spec fn ambiguated(rec: Observation) -> Observation {
    Observation { raw_sha256: None, completeness: Completeness::Ambiguous, ..rec }
}


/// Whether a reservation fits the remaining allowances.
pub open spec fn fits(rem: ObservationLimits, bytes: int, owners: int, records: int, findings: int) -> bool {
    bytes <= rem.bytes && owners <= rem.owners && records <= rem.records && findings
        <= rem.findings
}

pub open spec fn exhausted_limits() -> ObservationLimits {
    ObservationLimits { records: 0, bytes: 0, owners: 0, findings: 0 }
}

/// The effect of one reservation on the store's allowances and flags: a fitting one
/// debits all four allowances; one that does not fit exhausts the store, which marks
/// coverage incomplete and leaves nothing for any later reservation.
pub open spec fn reserved(old: ObservationStore, new: ObservationStore, bytes: int, owners: int, records: int, findings: int) -> bool {
    &&& fits(old.remaining(), bytes, owners, records, findings) ==> {
        &&& new.remaining() == debited(old.remaining(), bytes, owners, records, findings)
        &&& new.coverage_complete == old.coverage_complete
        &&& new.retention_exhausted == old.retention_exhausted
    }
    &&& !fits(old.remaining(), bytes, owners, records, findings) ==> {
        &&& new.remaining() == exhausted_limits()
        &&& !new.coverage_complete
        &&& new.retention_exhausted
    }
    &&& new.pipeline_provenance_complete == old.pipeline_provenance_complete
}

/// Allowances after a successful reservation.
pub open spec fn debited(rem: ObservationLimits, bytes: int, owners: int, records: int, findings: int) -> ObservationLimits {
    ObservationLimits {
        records: (rem.records - records) as usize,
        bytes: (rem.bytes - bytes) as usize,
        owners: (rem.owners - owners) as usize,
        findings: (rem.findings - findings) as usize,
    }
}

pub open spec fn owner_len(owner: Owner) -> int {
    match owner {
        Owner::Object(id) => utf8_len(id@),
        Owner::Context(p) => utf8_len(p@),
        Owner::Outer => 0,
    }
}

/// Bytes charged for one record: its texts, its fixed size and one handle per consumer.
pub open spec fn record_charge(
    owner: Owner,
    path: Option<&str>,
    namespace: Option<&str>,
    consumers: Seq<String>,
) -> int {
    let texts = id_bytes(
        consumers,
        consumers.len() as int,
        sat_add(sat_add(owner_len(owner), option_len(path)), option_len(namespace)),
    );
    sat_add(
        sat_add(texts, vstd::layout::size_of::<Observation>() as int),
        sat_mul(consumers.len() as int, vstd::layout::size_of::<String>() as int),
    )
}

/// `rec` is the fresh record `begin` files.
pub open spec fn is_fresh_record(
    rec: Observation,
    owner: Owner,
    phase: Phase,
    path: Option<&str>,
    namespace: Option<&str>,
    consumers: Seq<String>,
) -> bool {
    &&& match (owner, path) {
        (Owner::Context(_), Some(p)) => rec.owner matches Owner::Context(c) && c@ == normalized_path(p@),
        (o, _) => rec.owner == o,
    }
    &&& rec.phase == phase
    &&& match path {
        Some(p) => rec.path matches Some(q) && q@ == normalized_path(p@),
        None => rec.path is None,
    }
    &&& match namespace {
        Some(n) => rec.namespace matches Some(m) && m@ == n@,
        None => rec.namespace is None,
    }
    &&& rec.consumers@ == consumers
    &&& rec.raw_sha256 is None
    &&& rec.completeness == Completeness::Unavailable
    &&& rec.findings@.len() == 0
}

/// The completeness a record takes after `state`: ambiguity and exhaustion stick.
pub open spec fn next_completeness(current: Completeness, requested: Completeness) -> Completeness {
    if current == Completeness::Ambiguous || current == Completeness::ResourceLimit {
        current
    } else {
        requested
    }
}

pub open spec fn with_completeness(rec: Observation, c: Completeness) -> Observation {
    Observation { completeness: next_completeness(rec.completeness, c), ..rec }
}

/// The effect of `ObservationStore::begin`: a fresh record is filed exactly when its
/// retention fits.
pub open spec fn began(
    old: ObservationStore,
    new: ObservationStore,
    key: Option<usize>,
    owner: Owner,
    phase: Phase,
    path: Option<&str>,
    namespace: Option<&str>,
    consumers: Seq<String>,
) -> bool {
    &&& (key is Some <==> fits(
        old.remaining(),
        record_charge(owner, path, namespace, consumers),
        consumers.len() + 1 as int,
        1,
        0,
    ))
    &&& (key matches Some(k) ==> k == old.records@.len()
                && new.records@.len() == k + 1
                && new.records@.drop_last() == old.records@
                && is_fresh_record(new.records@.last(), owner, phase, path, namespace, consumers))
    &&& (key is None ==> new.records == old.records)
    &&& (new.hashes == old.hashes)
    &&& (new.wf() == old.wf())
    &&& reserved(old, new, record_charge(owner, path, namespace, consumers), consumers.len() + 1 as int, 1, 0)
}

/// Each filed record uses up one unit of the record allowance; a record that cannot be
/// filed exhausts the store, and an exhausted store files no record.
pub proof fn law_begin_allowance(
    old: ObservationStore,
    new: ObservationStore,
    key: Option<usize>,
    owner: Owner,
    phase: Phase,
    path: Option<&str>,
    namespace: Option<&str>,
    consumers: Seq<String>,
)
    requires
        began(old, new, key, owner, phase, path, namespace, consumers),
    ensures
        key is Some ==> new.remaining().records == old.remaining().records - 1,
        key is None ==> new.remaining() == exhausted_limits() && new.retention_exhausted && !new.coverage_complete,
        old.remaining().records == 0 ==> key is None,
{
}

/// The effect of `ObservationStore::hash` on a record keyed `key`.
pub open spec fn hashed(old: ObservationStore, new: ObservationStore, key: Option<usize>, hash: Seq<char>) -> bool {
    &&& (new.wf())
    &&& (new.records@.len() == old.records@.len())
    &&& (key is None ==> new == old)
    &&& (key matches Some(k) ==> {
            let rec = old.records@[k as int];
            let entry = match rec.path {
                Some(p) => old.recorded_hash(p@),
                None => None,
            };
            &&& reserved(old, new, hash_charge(rec.path, entry, hash), 0, 0, 0)
            &&& if !fits(old.remaining(), hash_charge(rec.path, entry, hash), 0, 0, 0) {
                &&& new.records@ == old.records@.update(
                    k as int,
                    with_completeness(rec, Completeness::ResourceLimit),
                )
                &&& new.hashes == old.hashes
            } else if rec.path is Some && conflicting(entry, hash) {
                &&& new.recorded_hash(rec.path.unwrap()@) == Some(None::<String>)
                &&& forall|i: int|
                    0 <= i < old.records@.len() ==> #[trigger] new.records@[i]
                        == if filed_under(old.records@[i], rec.path.unwrap()@) {
                        ambiguated(old.records@[i])
                    } else {
                        old.records@[i]
                    }
            } else {
                &&& new.records@[k as int].raw_sha256 matches Some(h) && h@ == hash
                &&& new.records@[k as int].completeness == rec.completeness
                &&& forall|i: int|
                    0 <= i < old.records@.len() && i != k ==> #[trigger] new.records@[i]
                        == old.records@[i]
                &&& rec.path is Some ==> new.recorded_hash(rec.path.unwrap()@) is Some
                &&& rec.path is Some && entry is None ==> same_hash(new.recorded_hash(rec.path.unwrap()@).unwrap(), hash)
                &&& rec.path is Some && entry is Some ==> new.recorded_hash(rec.path.unwrap()@) == entry
            }
        })
}

/// The effect of `ObservationStore::finding` on a record keyed `key`.
pub open spec fn noted(old: ObservationStore, new: ObservationStore, key: Option<usize>, f: Finding) -> bool {
    &&& (new.records@.len() == old.records@.len())
    &&& (new.hashes == old.hashes)
    &&& (key is None ==> new == old)
    &&& (key matches Some(k) ==> {
            let rec = old.records@[k as int];
            let charge = sat_add(
                utf8_len(f.json_pointer@),
                vstd::layout::size_of::<CompactFinding>() as int,
            );
            &&& reserved(old, new, charge, 0, 0, 1)
            &&& if !fits(old.remaining(), charge, 0, 0, 1) {
                new.records@ == old.records@.update(
                    k as int,
                    with_completeness(rec, Completeness::ResourceLimit),
                )
            } else {
                &&& attached(rec, new.records@[k as int], f)
                &&& forall|i: int|
                    0 <= i < old.records@.len() && i != k ==> #[trigger] new.records@[i]
                        == old.records@[i]
            }
        })
}

impl ObservationStore {
    /// Recorded path hashes are keyed uniquely.
    pub open spec fn wf(&self) -> bool {
        forall|i: int, j: int|
            0 <= i < j < self.hashes@.len() ==> (#[trigger] self.hashes@[i]).0@
                != (#[trigger] self.hashes@[j]).0@
    }

    pub open spec fn remaining(&self) -> ObservationLimits {
        self.remaining
    }

    /// The first hash seen per path; `Some(None)` marks a conflicting path.
    pub open spec fn recorded_hash(&self, path: Seq<char>) -> Option<Option<String>> {
        hash_entry(self.hashes@, path)
    }

    pub fn new(limits: ObservationLimits) -> (s: Self)
        ensures
            s.wf(),
            s.records@.len() == 0,
            s.coverage_complete,
            !s.pipeline_provenance_complete,
            !s.retention_exhausted,
            s.remaining() == (ObservationLimits {
                records: min_usize(limits.records, 4096),
                bytes: min_usize(limits.bytes, 4194304),
                owners: min_usize(limits.owners, 16384),
                findings: min_usize(limits.findings, 16384),
            }),
            forall|p: Seq<char>| s.recorded_hash(p) is None,
    {
        let ceiling = ObservationLimits::default();
        ObservationStore {
            records: Vec::new(),
            coverage_complete: true,
            pipeline_provenance_complete: false,
            retention_exhausted: false,
            remaining: ObservationLimits {
                records: if limits.records < ceiling.records { limits.records } else { ceiling.records },
                bytes: if limits.bytes < ceiling.bytes { limits.bytes } else { ceiling.bytes },
                owners: if limits.owners < ceiling.owners { limits.owners } else { ceiling.owners },
                findings: if limits.findings < ceiling.findings { limits.findings } else { ceiling.findings },
            },
            hashes: Vec::new(),
        }
    }

    /// Exhausts the store: coverage is incomplete and nothing is left to reserve.
    fn exhaust(&mut self)
        ensures
            final(self).remaining() == exhausted_limits(),
            !final(self).coverage_complete,
            final(self).retention_exhausted,
            final(self).records == old(self).records,
            final(self).hashes == old(self).hashes,
            final(self).pipeline_provenance_complete == old(self).pipeline_provenance_complete,
    {
        self.coverage_complete = false;
        self.retention_exhausted = true;
        self.remaining = ObservationLimits { records: 0, bytes: 0, owners: 0, findings: 0 };
    }

    /// Debits all four allowances, or none: a failed reservation exhausts the store.
    pub fn reserve(&mut self, bytes: usize, owners: usize, records: usize, findings: usize) -> (ok: bool)
        ensures
            ok == fits(old(self).remaining(), bytes as int, owners as int, records as int, findings as int),
            ok ==> final(self).remaining() == debited(old(self).remaining(), bytes as int, owners as int, records as int, findings as int)
                && final(self).coverage_complete == old(self).coverage_complete
                && final(self).retention_exhausted == old(self).retention_exhausted,
            !ok ==> final(self).remaining() == exhausted_limits() && !final(self).coverage_complete
                && final(self).retention_exhausted,
            final(self).records == old(self).records,
            final(self).hashes == old(self).hashes,
            final(self).pipeline_provenance_complete == old(self).pipeline_provenance_complete,
    {
        if bytes > self.remaining.bytes || owners > self.remaining.owners || records > self.remaining.records
            || findings > self.remaining.findings {
            self.exhaust();
            return false;
        }
        self.remaining.bytes = self.remaining.bytes - bytes;
        self.remaining.owners = self.remaining.owners - owners;
        self.remaining.records = self.remaining.records - records;
        self.remaining.findings = self.remaining.findings - findings;
        true
    }

    /// Files a new record for one read, if its retention fits.
    pub fn begin(
        &mut self,
        owner: Owner,
        phase: Phase,
        path: Option<&str>,
        namespace: Option<&str>,
        consumers: &[String],
    ) -> (key: Option<usize>)
        ensures
            began(*old(self), *final(self), key, owner, phase, path, namespace, consumers@),
    {
        let ghost owner0 = owner;
        let ghost ns0 = namespace;
        let ghost cons0 = consumers@;
        let owner_bytes = match &owner {
            Owner::Object(id) => id.as_str().len(),
            Owner::Context(p) => p.as_str().len(),
            Owner::Outer => 0,
        };
        let path_len = match path {
            Some(p) => p.len(),
            None => 0,
        };
        let ns_len = match namespace {
            Some(n) => n.len(),
            None => 0,
        };
        let mut bytes = owner_bytes.saturating_add(path_len).saturating_add(ns_len);
        let ghost start = bytes as int;
        let mut i: usize = 0;
        while i < consumers.len()
            invariant
                i <= consumers@.len(),
                bytes as int == id_bytes(consumers@, i as int, start),
            decreases consumers.len() - i,
        {
            let id = consumers[i].as_str();
            let n = id.len();
            assert(n as int == utf8_len(consumers@[i as int]@));
            bytes = bytes.saturating_add(n);
            i = i + 1;
        }
        let handles = match consumers.len().checked_mul(core::mem::size_of::<String>()) {
            Some(v) => v,
            None => usize::MAX,
        };
        let charge = bytes.saturating_add(core::mem::size_of::<Observation>()).saturating_add(handles);
        assert(charge as int == record_charge(owner0, path, namespace, consumers@));
        let owners = if consumers.len() < usize::MAX { consumers.len() + 1 } else { usize::MAX };
        if consumers.len() == usize::MAX {
            self.exhaust();
            return None;
        }
        if !self.reserve(charge, owners, 1, 0) {
            assert(self.hashes@ == old(self).hashes@);
            return None;
        }
        let normalized = match path {
            Some(p) => Some(normalize_path(p)),
            None => None,
        };
        let owner = match (owner, &normalized) {
            (Owner::Context(_), Some(n)) => Owner::Context(n.clone()),
            (o, _) => o,
        };
        let namespace = match namespace {
            Some(n) => Some(copy_str(n)),
            None => None,
        };
        let key = self.records.len();
        let consumers = copy_strings(consumers);
        self.records.push(Observation {
            owner,
            phase,
            path: normalized,
            namespace,
            consumers,
            raw_sha256: None,
            completeness: Completeness::Unavailable,
            findings: Vec::new(),
        });
        assert(self.hashes@ == old(self).hashes@);
        assert(self.records@.drop_last() =~= old(self).records@);
        assert(is_fresh_record(self.records@.last(), owner0, phase, path, ns0, cons0));
        Some(key)
    }
}

impl ObservationStore {
    fn set_completeness(&mut self, k: usize, c: Completeness)
        requires
            k < old(self).records@.len(),
        ensures
            final(self).records@ == old(self).records@.update(
                k as int,
                with_completeness(old(self).records@[k as int], c),
            ),
            final(self).hashes == old(self).hashes,
            final(self).remaining == old(self).remaining,
            final(self).coverage_complete == old(self).coverage_complete,
            final(self).retention_exhausted == old(self).retention_exhausted,
            final(self).pipeline_provenance_complete == old(self).pipeline_provenance_complete,
    {
        let mut rec = self.records.remove(k);
        if !rec.completeness.is_sticky() {
            rec.completeness = c;
        }
        self.records.insert(k, rec);
        assert(self.records@ =~= old(self).records@.update(
            k as int,
            with_completeness(old(self).records@[k as int], c),
        ));
    }

    /// Reserve the temporary shared-consumer list before cloning any identifier.
    pub fn consumers(&mut self, ids: &[String]) -> (r: Vec<String>)
        ensures
            fits(old(self).remaining(), handle_bytes(ids@, ids@.len() as int, vstd::layout::size_of::<String>() as int), ids@.len() as int, 0, 0) ==> r@ == ids@,
            !fits(old(self).remaining(), handle_bytes(ids@, ids@.len() as int, vstd::layout::size_of::<String>() as int), ids@.len() as int, 0, 0) ==> r@.len() == 0
                && final(self).retention_exhausted,
            final(self).records == old(self).records,
            final(self).hashes == old(self).hashes,
    {
        let handle = core::mem::size_of::<String>();
        let mut bytes: usize = 0;
        let mut i: usize = 0;
        while i < ids.len()
            invariant
                i <= ids@.len(),
                handle == vstd::layout::size_of::<String>(),
                bytes as int == handle_bytes(ids@, i as int, handle as int),
            decreases ids.len() - i,
        {
            let n = ids[i].as_str().len();
            assert(n as int == utf8_len(ids@[i as int]@));
            bytes = bytes.saturating_add(n).saturating_add(handle);
            i = i + 1;
        }
        if !self.reserve(bytes, ids.len(), 0, 0) {
            return Vec::new();
        }
        copy_strings(ids)
    }

    /// Sets the completeness of a record unless it is already ambiguous or exhausted.
    pub fn state(&mut self, key: Option<usize>, state: Completeness)
        ensures
            key matches Some(k) ==> (k < old(self).records@.len() ==> final(self).records@
                == old(self).records@.update(
                k as int,
                with_completeness(old(self).records@[k as int], state),
            )),
            (key is None || key.unwrap() >= old(self).records@.len()) ==> final(self).records
                == old(self).records,
            final(self).hashes == old(self).hashes,
            final(self).remaining == old(self).remaining,
            final(self).coverage_complete == old(self).coverage_complete,
            final(self).retention_exhausted == old(self).retention_exhausted,
            final(self).pipeline_provenance_complete == old(self).pipeline_provenance_complete,
    {
        if let Some(k) = key {
            if k < self.records.len() {
                self.set_completeness(k, state);
            }
        }
    }

    fn copy_path(&self, k: usize) -> (r: Option<String>)
        requires
            k < self.records@.len(),
        ensures
            r == self.records@[k as int].path,
    {
        match &self.records[k].path {
            Some(p) => Some(p.clone()),
            None => None,
        }
    }

    /// Records the actual hash of a read. The first hash per path stays; a path read
    /// with a different hash becomes ambiguous for every record filed under it.
    pub fn hash(&mut self, key: Option<usize>, hash: &str)
        requires
            old(self).wf(),
            key matches Some(k) ==> k < old(self).records@.len(),
        ensures
            hashed(*old(self), *final(self), key, hash@),
    {
        let k = match key {
            None => return,
            Some(k) => k,
        };
        let path = self.copy_path(k);
        let found = match &path {
            Some(p) => find_hash(&self.hashes, p.as_str()),
            None => None,
        };
        let extra = match &path {
            Some(p) => if found.is_none() {
                p.as_str().len().saturating_add(hash.len()).saturating_add(64)
            } else {
                0
            },
            None => 0,
        };
        let bytes = hash.len().saturating_add(extra);
        if !self.reserve(bytes, 0, 0, 0) {
            self.set_completeness(k, Completeness::ResourceLimit);
            return;
        }
        let ambiguous = match &path {
            Some(p) => self.record_hash_entry(p, found, hash),
            None => false,
        };
        if ambiguous {
            let p = path.unwrap();
            self.ambiguate(&p);
        } else {
            self.set_raw(k, hash);
        }
    }
}

impl ObservationStore {
    /// Files the first hash of a path, or marks the path ambiguous on a conflict.
    fn record_hash_entry(&mut self, p: &String, found: Option<usize>, hash: &str) -> (ambiguous: bool)
        requires
            old(self).wf(),
            found matches Some(i) ==> i < old(self).hashes@.len() && old(self).hashes@[i as int].0@ == p@
                && hash_entry(old(self).hashes@, p@) == Some(old(self).hashes@[i as int].1),
            found is None ==> forall|j: int| 0 <= j < old(self).hashes@.len() ==> (#[trigger] old(self).hashes@[j]).0@ != p@,
        ensures
            final(self).wf(),
            final(self).records == old(self).records,
            final(self).remaining == old(self).remaining,
            final(self).coverage_complete == old(self).coverage_complete,
            final(self).retention_exhausted == old(self).retention_exhausted,
            final(self).pipeline_provenance_complete == old(self).pipeline_provenance_complete,
            ambiguous == conflicting(old(self).recorded_hash(p@), hash@),
            ambiguous ==> final(self).recorded_hash(p@) == Some(None::<String>),
            !ambiguous ==> final(self).recorded_hash(p@) is Some,
            !ambiguous && old(self).recorded_hash(p@) is None ==> same_hash(final(self).recorded_hash(p@).unwrap(), hash@),
            !ambiguous && old(self).recorded_hash(p@) is Some ==> final(self).recorded_hash(p@) == old(self).recorded_hash(p@),
    {
        proof {
            if found is None {
                lemma_hash_entry_absent(self.hashes@, p@);
            }
        }
        match found {
            Some(i) => {
                let conflict = match &self.hashes[i].1 {
                    Some(previous) => !str_eq(previous.as_str(), hash),
                    None => true,
                };
                if conflict {
                    let key_text = p.clone();
                    let ghost before = self.hashes@;
                    self.hashes.set(i, (key_text, None));
                    proof {
                        assert forall|a: int, b: int| 0 <= a < b < self.hashes@.len() implies
                            (#[trigger] self.hashes@[a]).0@ != (#[trigger] self.hashes@[b]).0@ by {
                            assert(before[a].0@ != before[b].0@);
                        }
                        assert forall|j: int| 0 <= j < i implies (#[trigger] self.hashes@[j]).0@ != p@ by {
                            assert(before[j].0@ != before[i as int].0@);
                        }
                        lemma_hash_entry_at(self.hashes@, p@, i as int);
                    }
                }
                conflict
            },
            None => {
                let ghost before = self.hashes@;
                let h = copy_str(hash);
                self.hashes.push((p.clone(), Some(h)));
                proof {
                    assert forall|j: int| 0 <= j < before.len() implies (#[trigger] self.hashes@[j]).0@ != p@ by {
                        assert(self.hashes@[j] == before[j]);
                    }
                    lemma_hash_entry_at(self.hashes@, p@, before.len() as int);
                    assert forall|a: int, b: int| 0 <= a < b < self.hashes@.len() implies
                        (#[trigger] self.hashes@[a]).0@ != (#[trigger] self.hashes@[b]).0@ by {
                        if b < before.len() {
                            assert(before[a].0@ != before[b].0@);
                        }
                    }
                }
                false
            },
        }
    }

    /// Withdraws the hash of every record filed under `p`.
    fn ambiguate(&mut self, p: &String)
        ensures
            final(self).records@.len() == old(self).records@.len(),
            forall|i: int|
                0 <= i < old(self).records@.len() ==> #[trigger] final(self).records@[i]
                    == if filed_under(old(self).records@[i], p@) {
                    ambiguated(old(self).records@[i])
                } else {
                    old(self).records@[i]
                },
            final(self).hashes == old(self).hashes,
            final(self).remaining == old(self).remaining,
            final(self).coverage_complete == old(self).coverage_complete,
            final(self).retention_exhausted == old(self).retention_exhausted,
            final(self).pipeline_provenance_complete == old(self).pipeline_provenance_complete,
    {
        let ghost before = self.records@;
        let mut i: usize = 0;
        while i < self.records.len()
            invariant
                i <= self.records@.len(),
                self.records@.len() == before.len(),
                forall|j: int|
                    0 <= j < i ==> #[trigger] self.records@[j] == if filed_under(before[j], p@) {
                        ambiguated(before[j])
                    } else {
                        before[j]
                    },
                forall|j: int| i <= j < before.len() ==> #[trigger] self.records@[j] == before[j],
                self.hashes == old(self).hashes,
                self.remaining == old(self).remaining,
                self.coverage_complete == old(self).coverage_complete,
                self.retention_exhausted == old(self).retention_exhausted,
                self.pipeline_provenance_complete == old(self).pipeline_provenance_complete,
            decreases self.records.len() - i,
        {
            let filed = match &self.records[i].path {
                Some(q) => str_eq(q.as_str(), p.as_str()),
                None => false,
            };
            if filed {
                let mut rec = self.records.remove(i);
                rec.raw_sha256 = None;
                rec.completeness = Completeness::Ambiguous;
                self.records.insert(i, rec);
            }
            i = i + 1;
        }
    }

    fn set_raw(&mut self, k: usize, hash: &str)
        requires
            k < old(self).records@.len(),
        ensures
            final(self).records@.len() == old(self).records@.len(),
            final(self).records@[k as int].raw_sha256 matches Some(h) && h@ == hash@,
            final(self).records@[k as int].completeness == old(self).records@[k as int].completeness,
            final(self).records@[k as int].path == old(self).records@[k as int].path,
            forall|i: int|
                0 <= i < old(self).records@.len() && i != k ==> #[trigger] final(self).records@[i]
                    == old(self).records@[i],
            final(self).hashes == old(self).hashes,
            final(self).remaining == old(self).remaining,
            final(self).coverage_complete == old(self).coverage_complete,
            final(self).retention_exhausted == old(self).retention_exhausted,
            final(self).pipeline_provenance_complete == old(self).pipeline_provenance_complete,
    {
        let mut rec = self.records.remove(k);
        rec.raw_sha256 = Some(copy_str(hash));
        self.records.insert(k, rec);
    }
}

/// The compact projection retained for a diagnostic.
pub open spec fn compact_of(f: Finding) -> CompactFinding {
    CompactFinding {
        error_code: f.error_code,
        finding_family: f.finding_family,
        severity: f.severity,
        json_pointer: f.json_pointer,
    }
}

/// The completeness a record takes when a diagnostic is attached to it.
pub open spec fn completeness_after_finding(c: Completeness, f: Finding) -> Completeness {
    if f.finding_family@ == "resource_limit"@ {
        next_completeness(c, Completeness::ResourceLimit)
    } else if c == Completeness::Verified {
        Completeness::Mismatch
    } else {
        c
    }
}

/// `new` is `old` with the diagnostic attached.
pub open spec fn attached(old: Observation, new: Observation, f: Finding) -> bool {
    &&& new.owner == old.owner
    &&& new.phase == old.phase
    &&& new.path == old.path
    &&& new.namespace == old.namespace
    &&& new.consumers == old.consumers
    &&& new.raw_sha256 == old.raw_sha256
    &&& new.completeness == completeness_after_finding(old.completeness, f)
    &&& new.findings@ == old.findings@.push(compact_of(f))
}

impl ObservationStore {
    /// Attaches a diagnostic's compact projection to a record, within the budget.
    pub fn finding(&mut self, key: Option<usize>, finding: &Finding)
        requires
            key matches Some(k) ==> k < old(self).records@.len(),
        ensures
            noted(*old(self), *final(self), key, *finding),
    {
        let k = match key {
            None => return,
            Some(k) => k,
        };
        let bytes = finding.json_pointer.as_str().len().saturating_add(
            core::mem::size_of::<CompactFinding>(),
        );
        if !self.reserve(bytes, 0, 0, 1) {
            self.set_completeness(k, Completeness::ResourceLimit);
            return;
        }
        proof {
            reveal_strlit("resource_limit");
        }
        if str_eq(finding.finding_family, "resource_limit") {
            self.set_completeness(k, Completeness::ResourceLimit);
        } else if self.records[k].completeness == Completeness::Verified {
            self.set_completeness(k, Completeness::Mismatch);
        }
        let ghost mid = self.records@;
        let mut rec = self.records.remove(k);
        rec.findings.push(CompactFinding {
            error_code: finding.error_code,
            finding_family: finding.finding_family,
            severity: finding.severity,
            json_pointer: finding.json_pointer.clone(),
        });
        self.records.insert(k, rec);
    }
}

/// The external transcript with optional, budgeted observation tracking. Scope is
/// assigned at the producing call site, never inferred from a source file.
pub struct ContentFindings {
    pub output: Findings,
    pub store: Option<ObservationStore>,
    pub active: Option<usize>,
}

impl ContentFindings {
    /// The active record, if any, exists in the store.
    pub open spec fn wf(&self) -> bool {
        &&& self.output.wf()
        &&& match self.store {
            Some(s) => s.wf() && (self.active matches Some(k) ==> k < s.records@.len()),
            None => true,
        }
    }

    pub fn new(enabled: bool) -> (c: Self)
        ensures
            c.wf(),
            c.store is Some == enabled,
            c.active is None,
            c.output.retained().len() == 0,
    {
        Self::with_budget(enabled, Findings::new(crate::findings::DEFAULT_FINDINGS_LIMIT))
    }

    pub fn with_budget(enabled: bool, output: Findings) -> (c: Self)
        requires
            output.wf(),
        ensures
            c.wf(),
            c.output == output,
            c.active is None,
            c.store is Some == enabled,
            c.store matches Some(s) ==> s.records@.len() == 0 && s.coverage_complete
                && s.remaining() == default_observation_limits(),
    {
        let store = if enabled {
            Some(ObservationStore::new(ObservationLimits::default()))
        } else {
            None
        };
        ContentFindings { output, store, active: None }
    }

    /// Opens a record for a new read; later states, hashes and findings attach to it.
    pub fn begin(
        &mut self,
        owner: Owner,
        phase: Phase,
        path: Option<&str>,
        namespace: Option<&str>,
        consumers: &[String],
    )
        requires
            old(self).wf(),
        ensures
            final(self).wf(),
            final(self).output == old(self).output,
            old(self).store is None ==> final(self).store is None && final(self).active is None,
            old(self).store matches Some(s) ==> final(self).store matches Some(t) && began(
                s,
                t,
                final(self).active,
                owner,
                phase,
                path,
                namespace,
                consumers@,
            ),
    {
        match &mut self.store {
            Some(s) => {
                self.active = s.begin(owner, phase, path, namespace, consumers);
            },
            None => {
                self.active = None;
            },
        }
    }

    /// Opens a record owned by a context path, charging the owner first.
    pub fn context(
        &mut self,
        path: &str,
        phase: Phase,
        namespace: Option<&str>,
        consumers: &[String],
    )
        requires
            old(self).wf(),
        ensures
            final(self).wf(),
            final(self).output == old(self).output,
            old(self).store is None ==> final(self).store is None && final(self).active is None,
    {
        match &mut self.store {
            Some(s) => {
                if !s.reserve(path.len(), 1, 0, 0) {
                    self.active = None;
                } else {
                    self.active = s.begin(
                        Owner::Context(copy_str(path)),
                        phase,
                        Some(path),
                        namespace,
                        consumers,
                    );
                }
            },
            None => {
                self.active = None;
            },
        }
    }

    pub fn state(&mut self, state: Completeness)
        requires
            old(self).wf(),
        ensures
            final(self).wf(),
            final(self).output == old(self).output,
            final(self).active == old(self).active,
            old(self).store is None ==> final(self).store is None,
            old(self).store matches Some(s) ==> final(self).store matches Some(t) && (
            old(self).active matches Some(k) ==> t.records@ == s.records@.update(
                k as int,
                with_completeness(s.records@[k as int], state),
            )) && (old(self).active is None ==> t.records == s.records) && t.hashes == s.hashes,
    {
        let active = self.active;
        if let Some(s) = &mut self.store {
            s.state(active, state);
        }
    }

    pub fn hash(&mut self, hash: &str)
        requires
            old(self).wf(),
        ensures
            final(self).wf(),
            final(self).output == old(self).output,
            final(self).active == old(self).active,
            old(self).store is None ==> final(self).store is None,
            old(self).store matches Some(s) ==> final(self).store matches Some(t) && hashed(
                s,
                t,
                old(self).active,
                hash@,
            ),
    {
        let active = self.active;
        if let Some(s) = &mut self.store {
            s.hash(active, hash);
        }
    }

    /// Marks observation coverage incomplete.
    pub fn incomplete(&mut self)
        requires
            old(self).wf(),
        ensures
            final(self).wf(),
            final(self).output == old(self).output,
            final(self).active == old(self).active,
            old(self).store is None ==> final(self).store is None,
            old(self).store matches Some(s) ==> final(self).store matches Some(t) && !t.coverage_complete
                && t.records == s.records && t.hashes == s.hashes,
    {
        if let Some(s) = &mut self.store {
            s.coverage_complete = false;
        }
    }

    pub fn cancelled(&self) -> bool
        requires
            self.wf(),
    {
        self.output.cancelled()
    }

    /// Reports an error; an admitted one is also attached to the active record.
    pub fn push<F: FnOnce() -> Finding>(&mut self, make: F)
        requires
            old(self).wf(),
            make.requires(()),
            forall|f: Finding| make.ensures((), f) ==> f.severity == Severity::Error,
        ensures
            final(self).wf(),
            final(self).active == old(self).active,
            final(self).output.errors() == saturating_inc(old(self).output.errors(), true),
            final(self).output.retained() == old(self).output.retained() || (
            final(self).output.retained().len() == old(self).output.retained().len() + 1
                && final(self).output.retained().drop_last() == old(self).output.retained()
                && make.ensures((), final(self).output.retained().last())),
            old(self).store is None ==> final(self).store is None,
            old(self).store is Some ==> final(self).store is Some,
    {
        let admitted = self.output.push_admitted(make);
        if admitted {
            let active = self.active;
            let f = self.output.last().clone_finding();
            if let Some(s) = &mut self.store {
                s.finding(active, &f);
            }
        }
        if self.cancelled() {
            self.incomplete();
        }
    }

    /// Moves a fork's charged findings here, attaching each to the active record.
    pub fn absorb(&mut self, findings: Findings)
        requires
            old(self).wf(),
            findings.wf(),
            old(self).output.shares_allowance(&findings),
        ensures
            final(self).wf(),
            final(self).active == old(self).active,
            final(self).output.retained() == old(self).output.retained() + findings.retained(),
            old(self).store is None ==> final(self).store is None,
            old(self).store is Some ==> final(self).store is Some,
    {
        let active = self.active;
        if let Some(s) = &mut self.store {
            let items = findings.as_slice();
            let mut i: usize = 0;
            while i < items.len()
                invariant
                    s.wf(),
                    active matches Some(k) ==> k < s.records@.len(),
                decreases items.len() - i,
            {
                s.finding(active, &items[i]);
                i = i + 1;
            }
        }
        self.output.absorb(findings);
        if self.cancelled() {
            self.incomplete();
        }
    }
}
} // verus!
