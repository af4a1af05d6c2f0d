//! Access labels, compact compartment sets, dependency floors and export decisions.
use vstd::prelude::*;

use crate::execution::ExecutionBudget;
use crate::graph::{has_edge, lemma_closed_contains, lemma_reach_step, lemma_unique_bound, reach_within, reachable};
use crate::model::ObjectType;
use crate::text::{bytes_lt, has_prefix, starts_with, str_eq, string_push_str};
use vstd::utf8::encode_utf8;

verus! {

/// Disclosure level; later variants are more restrictive.
#[derive(Clone, Copy, Debug, PartialEq, Eq, Structural, PartialOrd, Ord)]
pub enum AccessLevel {
    Public,
    Internal,
    Restricted,
    Exclusive,
}

pub open spec fn level_rank(l: AccessLevel) -> int {
    match l {
        AccessLevel::Public => 0,
        AccessLevel::Internal => 1,
        AccessLevel::Restricted => 2,
        AccessLevel::Exclusive => 3,
    }
}

pub open spec fn parse_level(s: Seq<char>) -> Option<AccessLevel> {
    if s == "public"@ {
        Some(AccessLevel::Public)
    } else if s == "internal"@ {
        Some(AccessLevel::Internal)
    } else if s == "restricted"@ {
        Some(AccessLevel::Restricted)
    } else if s == "exclusive"@ {
        Some(AccessLevel::Exclusive)
    } else {
        None
    }
}

/// The more restrictive of two levels.
pub open spec fn level_max(a: AccessLevel, b: AccessLevel) -> AccessLevel {
    if level_rank(a) >= level_rank(b) {
        a
    } else {
        b
    }
}

impl AccessLevel {
    pub fn parse(value: &str) -> (r: Option<AccessLevel>)
        ensures
            r == parse_level(value@),
    {
        proof {
            reveal_strlit("public");
            reveal_strlit("internal");
            reveal_strlit("restricted");
            reveal_strlit("exclusive");
        }
        if str_eq(value, "public") {
            Some(AccessLevel::Public)
        } else if str_eq(value, "internal") {
            Some(AccessLevel::Internal)
        } else if str_eq(value, "restricted") {
            Some(AccessLevel::Restricted)
        } else if str_eq(value, "exclusive") {
            Some(AccessLevel::Exclusive)
        } else {
            None
        }
    }

    pub fn rank(self) -> (r: u8)
        ensures
            r == level_rank(self),
    {
        match self {
            AccessLevel::Public => 0,
            AccessLevel::Internal => 1,
            AccessLevel::Restricted => 2,
            AccessLevel::Exclusive => 3,
        }
    }

    /// `self` is at least as restrictive as `other`.
    pub fn dominates(self, other: AccessLevel) -> (r: bool)
        ensures
            r == (level_rank(self) >= level_rank(other)),
    {
        self.rank() >= other.rank()
    }

    pub fn max(self, other: AccessLevel) -> (r: AccessLevel)
        ensures
            r == level_max(self, other),
    {
        if self.rank() >= other.rank() {
            self
        } else {
            other
        }
    }
}

/// A level with named compartments.
#[derive(Clone, Debug, PartialEq, Eq)]
pub struct AccessLabel {
    pub level: AccessLevel,
    pub compartments: Vec<String>,
}

/// One explained dependency edge.
#[derive(Clone, Debug, PartialEq, Eq)]
pub struct DependencyStep {
    pub from_id: String,
    pub edge: String,
    pub to_id: String,
}

/// Declared label, required dependency floor and effective label of one object.
#[derive(Clone, Debug, PartialEq, Eq)]
pub struct AccessReport {
    pub declared: AccessLabel,
    pub required_floor: AccessLabel,
    pub effective: AccessLabel,
    pub valid: bool,
    pub dependency_count: usize,
}

/// A requested export ceiling.
#[derive(Clone, Debug, PartialEq, Eq)]
pub struct ExportRequest {
    pub level_ceiling: AccessLevel,
    pub allowed_compartments: Vec<String>,
}

/// Whether an object's effective access fits a request.
#[derive(Clone, Debug, PartialEq, Eq)]
pub struct ExportDecision {
    pub eligible: bool,
    pub effective_access: AccessLabel,
    pub request: ExportRequest,
}

/// The names of a list of strings.
pub open spec fn names(v: Seq<String>) -> Set<Seq<char>> {
    Set::new(|n: Seq<char>| exists|i: int| 0 <= i < v.len() && (#[trigger] v[i])@ == n)
}

pub fn contains_name(v: &Vec<String>, name: &str) -> (r: bool)
    ensures
        r == names(v@).contains(name@),
{
    let mut i: usize = 0;
    while i < v.len()
        invariant
            i <= v@.len(),
            forall|k: int| 0 <= k < i ==> (#[trigger] v@[k])@ != name@,
        decreases v.len() - i,
    {
        if str_eq(v[i].as_str(), name) {
            return true;
        }
        i = i + 1;
    }
    false
}

/// Every name of `a` is a name of `b`.
pub fn names_subset(a: &Vec<String>, b: &Vec<String>) -> (r: bool)
    ensures
        r == names(a@).subset_of(names(b@)),
{
    let mut i: usize = 0;
    while i < a.len()
        invariant
            i <= a@.len(),
            forall|k: int| 0 <= k < i ==> names(b@).contains(#[trigger] a@[k]@),
        decreases a.len() - i,
    {
        if !contains_name(b, a[i].as_str()) {
            assert(names(a@).contains(a@[i as int]@));
            return false;
        }
        i = i + 1;
    }
    assert forall|n: Seq<char>| names(a@).contains(n) implies names(b@).contains(n) by {
        let k = choose|k: int| 0 <= k < a@.len() && (#[trigger] a@[k])@ == n;
    }
    true
}

/// An export is eligible when the effective level is at most the ceiling and every
/// effective compartment is allowed.
pub open spec fn export_eligible(effective: AccessLabel, request: ExportRequest) -> bool {
    level_rank(effective.level) <= level_rank(request.level_ceiling) && names(
        effective.compartments@,
    ).subset_of(names(request.allowed_compartments@))
}

/// Decides an export request against an object's effective access.
pub fn export_decision(effective: AccessLabel, request: ExportRequest) -> (d: ExportDecision)
    ensures
        d.eligible == export_eligible(effective, request),
        d.effective_access == effective,
        d.request == request,
{
    let eligible = request.level_ceiling.dominates(effective.level) && names_subset(
        &effective.compartments,
        &request.allowed_compartments,
    );
    ExportDecision { eligible, effective_access: effective, request }
}

/// The code and family of an access violation without a more specific edge.
pub open spec fn generic_code(level_valid: bool) -> (Seq<char>, Seq<char>) {
    if level_valid {
        ("RP_E_ACCESS_COMPARTMENT_MISSING"@, "access_compartment_drop"@)
    } else {
        ("RP_E_ACCESS_LEVEL_DOWNGRADE"@, "access_level_downgrade"@)
    }
}

pub fn generic_access_code(level_valid: bool) -> (r: (&'static str, &'static str))
    ensures
        (r.0@, r.1@) == generic_code(level_valid),
{
    proof {
        reveal_strlit("RP_E_ACCESS_COMPARTMENT_MISSING");
        reveal_strlit("access_compartment_drop");
        reveal_strlit("RP_E_ACCESS_LEVEL_DOWNGRADE");
        reveal_strlit("access_level_downgrade");
    }
    if level_valid {
        ("RP_E_ACCESS_COMPARTMENT_MISSING", "access_compartment_drop")
    } else {
        ("RP_E_ACCESS_LEVEL_DOWNGRADE", "access_level_downgrade")
    }
}


/// Compartment indexes into a sorted vocabulary: a bit set for small vocabularies,
/// otherwise a sorted list.
#[derive(Clone, Debug)]
pub enum CompactCompartments {
    Bits(u64),
    Many(Vec<u32>),
}

pub open spec fn bit_set(bits: u64, i: int) -> bool {
    0 <= i < 64 && (bits >> (i as u64)) & 1u64 == 1u64
}

/// Some entry of `v` is `i`.
pub open spec fn u32_has(v: Seq<u32>, i: int) -> bool {
    exists|k: int| 0 <= k < v.len() && (#[trigger] v[k]) as int == i
}

/// Some entry of `v` is `i`.
pub open spec fn usize_has(v: Seq<usize>, i: int) -> bool {
    exists|k: int| 0 <= k < v.len() && (#[trigger] v[k]) as int == i
}

pub open spec fn strictly_increasing(v: Seq<u32>) -> bool {
    forall|a: int, b: int| 0 <= a < b < v.len() ==> v[a] < v[b]
}

proof fn lemma_usize_has_push(s: Seq<usize>, v: usize, x: int)
    ensures
        usize_has(s.push(v), x) <==> (usize_has(s, x) || x == v as int),
{
    let t = s.push(v);
    if usize_has(t, x) {
        let k = choose|k: int| 0 <= k < t.len() && (#[trigger] t[k]) as int == x;
        if k < s.len() {
            assert(s[k] == t[k]);
        }
    }
    if usize_has(s, x) {
        let k = choose|k: int| 0 <= k < s.len() && (#[trigger] s[k]) as int == x;
        assert(t[k] == s[k]);
    }
    if x == v as int {
        assert(t[s.len() as int] == v);
    }
}

proof fn lemma_usize_has_append(a: Seq<usize>, b: Seq<usize>, x: int)
    ensures
        usize_has(a + b, x) <==> (usize_has(a, x) || usize_has(b, x)),
{
    let t = a + b;
    if usize_has(t, x) {
        let k = choose|k: int| 0 <= k < t.len() && (#[trigger] t[k]) as int == x;
        if k < a.len() {
            assert(a[k] == t[k]);
        } else {
            assert(b[k - a.len()] == t[k]);
        }
    }
    if usize_has(a, x) {
        let k = choose|k: int| 0 <= k < a.len() && (#[trigger] a[k]) as int == x;
        assert(t[k] == a[k]);
    }
    if usize_has(b, x) {
        let k = choose|k: int| 0 <= k < b.len() && (#[trigger] b[k]) as int == x;
        assert(t[a.len() + k] == b[k]);
    }
}

proof fn lemma_usize_has_prefix(s: Seq<usize>, j: int, x: int)
    requires
        0 <= j < s.len(),
    ensures
        usize_has(s.subrange(0, j + 1), x) <==> (usize_has(s.subrange(0, j), x) || x == s[j] as int),
{
    assert(s.subrange(0, j + 1) =~= s.subrange(0, j).push(s[j]));
    lemma_usize_has_push(s.subrange(0, j), s[j], x);
}

proof fn lemma_bit_or(a: u64, b: u64, i: u64)
    requires
        i < 64,
    ensures
        ((a | b) >> i) & 1u64 == 1u64 <==> ((a >> i) & 1u64 == 1u64 || (b >> i) & 1u64 == 1u64),
{
    assert(((a | b) >> i) & 1u64 == 1u64 <==> ((a >> i) & 1u64 == 1u64 || (b >> i) & 1u64 == 1u64)) by (bit_vector)
        requires
            i < 64,
    ;
}

proof fn lemma_bit_single(b: u64, k: u64, i: u64)
    requires
        i < 64,
        k < 64,
    ensures
        ((b | (1u64 << k)) >> i) & 1u64 == 1u64 <==> ((b >> i) & 1u64 == 1u64 || i == k),
{
    assert(((b | (1u64 << k)) >> i) & 1u64 == 1u64 <==> ((b >> i) & 1u64 == 1u64 || i == k)) by (bit_vector)
        requires
            i < 64,
            k < 64,
    ;
}

proof fn lemma_bit_zero(i: u64)
    requires
        i < 64,
    ensures
        (0u64 >> i) & 1u64 != 1u64,
{
    assert((0u64 >> i) & 1u64 != 1u64) by (bit_vector)
        requires
            i < 64,
    ;
}

impl CompactCompartments {
    /// A list is kept sorted without repeats.
    pub open spec fn wf(&self) -> bool {
        match self {
            CompactCompartments::Bits(_) => true,
            CompactCompartments::Many(v) => strictly_increasing(v@),
        }
    }

    /// Index `i` is in the set.
    pub open spec fn has(&self, i: int) -> bool {
        match self {
            CompactCompartments::Bits(b) => bit_set(*b, i),
            CompactCompartments::Many(v) => u32_has(v@, i),
        }
    }

    /// The compartments at the given vocabulary indexes; a bit set where the vocabulary has at
    /// most 64 names, otherwise a sorted list without repeats (indexes beyond `u32` are dropped).
    pub fn from_indexes(indexes: &[usize], vocabulary_len: usize) -> (c: Self)
        requires
            vocabulary_len <= 64 ==> forall|k: int| 0 <= k < indexes@.len() ==> #[trigger] indexes@[k] < 64,
        ensures
            c.wf(),
            vocabulary_len <= 64 <==> c is Bits,
            forall|i: int| #[trigger] c.has(i) <==> (usize_has(indexes@, i) && i <= u32::MAX),
    {
        if vocabulary_len <= 64 {
            let mut bits: u64 = 0;
            let mut j: usize = 0;
            proof {
                assert forall|i: int| 0 <= i < 64 implies !(#[trigger] bit_set(bits, i)) by {
                    lemma_bit_zero(i as u64);
                }
                assert forall|i: int| !usize_has(indexes@.subrange(0, 0), i) by {}
            }
            while j < indexes.len()
                invariant
                    j <= indexes@.len(),
                    vocabulary_len <= 64,
                    forall|k: int| 0 <= k < indexes@.len() ==> #[trigger] indexes@[k] < 64,
                    forall|i: int| #![trigger bit_set(bits, i)] 0 <= i < 64 ==> (bit_set(bits, i) <==> usize_has(indexes@.subrange(0, j as int), i)),
                decreases indexes.len() - j,
            {
                let index = indexes[j];
                let ghost old_bits = bits;
                bits = bits | (1u64 << (index as u64));
                proof {
                    assert forall|i: int| 0 <= i < 64 implies (#[trigger] bit_set(bits, i) <==> usize_has(indexes@.subrange(0, j + 1), i)) by {
                        lemma_bit_single(old_bits, index as u64, i as u64);
                        lemma_usize_has_prefix(indexes@, j as int, i);
                        assert(bit_set(old_bits, i) == usize_has(indexes@.subrange(0, j as int), i));
                    }
                }
                j = j + 1;
            }
            proof {
                assert(indexes@.subrange(0, j as int) =~= indexes@);
            }
            let c = CompactCompartments::Bits(bits);
            assert forall|i: int| #[trigger] c.has(i) <==> (usize_has(indexes@, i) && i <= u32::MAX) by {
                if usize_has(indexes@, i) {
                    let k = choose|k: int| 0 <= k < indexes@.len() && (#[trigger] indexes@[k]) as int == i;
                    assert(indexes@[k] < 64);
                    assert(bit_set(bits, i));
                }
            }
            c
        } else {
            let mut sorted: Vec<u32> = Vec::new();
            let mut j: usize = 0;
            while j < indexes.len()
                invariant
                    j <= indexes@.len(),
                    strictly_increasing(sorted@),
                    forall|i: int| #[trigger] u32_has(sorted@, i) <==> (usize_has(indexes@.subrange(0, j as int), i) && i <= u32::MAX),
                decreases indexes.len() - j,
            {
                let index = indexes[j];
                let ghost before = sorted@;
                if index <= 0xffff_ffff {
                    let value = index as u32;
                    insert_unique(&mut sorted, value);
                }
                proof {
                    assert forall|i: int| #[trigger] u32_has(sorted@, i) <==> (usize_has(indexes@.subrange(0, j + 1), i) && i <= u32::MAX) by {
                        lemma_usize_has_prefix(indexes@, j as int, i);
                        assert(u32_has(before, i) == (usize_has(indexes@.subrange(0, j as int), i) && i <= u32::MAX));
                    }
                }
                j = j + 1;
            }
            proof {
                assert(indexes@.subrange(0, j as int) =~= indexes@);
            }
            let c = CompactCompartments::Many(sorted);
            assert forall|i: int| #[trigger] c.has(i) <==> (usize_has(indexes@, i) && i <= u32::MAX) by {
                assert(u32_has(sorted@, i) == (usize_has(indexes@.subrange(0, j as int), i) && i <= u32::MAX));
            }
            c
        }
    }

    /// The indexes, ascending.
    pub fn indexes(&self) -> (v: Vec<usize>)
        requires
            self.wf(),
        ensures
            forall|a: int, b: int| 0 <= a < b < v@.len() ==> v@[a] < v@[b],
            forall|i: int| #![trigger self.has(i)] #![trigger usize_has(v@, i)] self.has(i) <==> usize_has(v@, i),
    {
        let mut out: Vec<usize> = Vec::new();
        match self {
            CompactCompartments::Bits(bits) => {
                let bits = *bits;
                let mut i: u64 = 0;
                while i < 64
                    invariant
                        i <= 64,
                        forall|a: int, b: int| 0 <= a < b < out@.len() ==> out@[a] < out@[b],
                        forall|k: int| 0 <= k < out@.len() ==> #[trigger] out@[k] < i,
                        forall|x: int| #![trigger usize_has(out@, x)] #![trigger bit_set(bits, x)] (x < i && bit_set(bits, x)) <==> usize_has(out@, x),
                    decreases 64 - i,
                {
                    let ghost before = out@;
                    if (bits >> i) & 1u64 == 1u64 {
                        out.push(i as usize);
                    }
                    proof {
                        assert forall|x: int| #![trigger usize_has(out@, x)] #![trigger bit_set(bits, x)] (x < i + 1 && bit_set(bits, x)) <==> usize_has(out@, x) by {
                            if out@.len() > before.len() {
                                lemma_usize_has_push(before, i as usize, x);
                            }
                            assert((x < i && bit_set(bits, x)) <==> usize_has(before, x));
                        }
                    }
                    i = i + 1;
                }
            },
            CompactCompartments::Many(values) => {
                let mut k: usize = 0;
                while k < values.len()
                    invariant
                        k <= values@.len(),
                        strictly_increasing(values@),
                        out@.len() == k,
                        forall|a: int| 0 <= a < k ==> #[trigger] out@[a] == values@[a] as usize,
                    decreases values.len() - k,
                {
                    out.push(values[k] as usize);
                    k = k + 1;
                }
                assert forall|i: int| #![trigger self.has(i)] #![trigger usize_has(out@, i)] self.has(i) <==> usize_has(out@, i) by {
                    if usize_has(out@, i) {
                        let k = choose|k: int| 0 <= k < out@.len() && (#[trigger] out@[k]) as int == i;
                        assert(values@[k] as int == i);
                    }
                    if self.has(i) {
                        let k = choose|k: int| 0 <= k < values@.len() && (#[trigger] values@[k]) as int == i;
                        assert(out@[k] as int == i);
                    }
                }
            },
        }
        out
    }

    /// Whether index `i` is in the set.
    pub fn contains(&self, i: usize) -> (r: bool)
        ensures
            r == self.has(i as int),
    {
        match self {
            CompactCompartments::Bits(bits) => {
                if i < 64 {
                    let shift = i as u64;
                    let r = (*bits >> shift) & 1u64 == 1u64;
                    proof {
                        assert(shift == (i as int) as u64);
                        assert(r == bit_set(*bits, i as int));
                    }
                    r
                } else {
                    false
                }
            },
            CompactCompartments::Many(values) => {
                let mut k: usize = 0;
                while k < values.len()
                    invariant
                        k <= values@.len(),
                        *self == CompactCompartments::Many(*values),
                        forall|a: int| 0 <= a < k ==> #[trigger] values@[a] as int != i as int,
                    decreases values.len() - k,
                {
                    if values[k] as usize == i {
                        proof {
                            assert(values@[k as int] as int == i as int);
                        }
                        return true;
                    }
                    k = k + 1;
                }
                false
            },
        }
    }

    /// Every index of `self` is an index of `other`.
    pub fn is_subset(&self, other: &Self) -> (r: bool)
        requires
            self.wf(),
        ensures
            r == (forall|i: int| #[trigger] self.has(i) ==> other.has(i)),
    {
        let mine = self.indexes();
        let mut i: usize = 0;
        while i < mine.len()
            invariant
                i <= mine@.len(),
                forall|x: int| #![trigger self.has(x)] #![trigger usize_has(mine@, x)] self.has(x) <==> usize_has(mine@, x),
                forall|k: int| 0 <= k < i ==> other.has(#[trigger] mine@[k] as int),
            decreases mine.len() - i,
        {
            if !other.contains(mine[i]) {
                proof {
                    let x = mine@[i as int] as int;
                    assert(usize_has(mine@, x));
                    assert(self.has(x));
                    assert(!other.has(x));
                }
                return false;
            }
            i = i + 1;
        }
        assert forall|x: int| self.has(x) implies other.has(x) by {
            assert(usize_has(mine@, x));
            let k = choose|k: int| 0 <= k < mine@.len() && (#[trigger] mine@[k]) as int == x;
            assert(other.has(mine@[k] as int));
        }
        true
    }

    /// The union of two compartment sets over a vocabulary.
    pub fn union(&self, other: &Self, vocabulary_len: usize) -> (c: Self)
        requires
            self.wf(),
            other.wf(),
            vocabulary_len <= 64 ==> forall|i: int| #![trigger self.has(i)] #![trigger other.has(i)] self.has(i) || other.has(i) ==> i < 64,
        ensures
            c.wf(),
            forall|i: int| #[trigger] c.has(i) <==> (self.has(i) || other.has(i)),
            self is Bits && other is Bits ==> c is Bits,
            !(self is Bits && other is Bits) ==> (vocabulary_len <= 64 <==> c is Bits),
    {
        match (self, other) {
            (CompactCompartments::Bits(left), CompactCompartments::Bits(right)) => {
                let c = CompactCompartments::Bits(*left | *right);
                assert forall|i: int| #[trigger] c.has(i) <==> (self.has(i) || other.has(i)) by {
                    if 0 <= i < 64 {
                        lemma_bit_or(*left, *right, i as u64);
                    }
                }
                c
            },
            _ => {
                let mut all = self.indexes();
                let mut more = other.indexes();
                let ghost a = all@;
                let ghost b = more@;
                all.append(&mut more);
                proof {
                    assert(all@ =~= a + b);
                    assert forall|k: int| 0 <= k < all@.len() implies #[trigger] all@[k] < 64 || vocabulary_len > 64 by {
                        let x = all@[k] as int;
                        assert(usize_has(a + b, x));
                        lemma_usize_has_append(a, b, x);
                        if usize_has(a, x) {
                            assert(self.has(x));
                        } else {
                            assert(other.has(x));
                        }
                    }
                }
                let c = Self::from_indexes(all.as_slice(), vocabulary_len);
                assert forall|i: int| #[trigger] c.has(i) <==> (self.has(i) || other.has(i)) by {
                    lemma_usize_has_append(a, b, i);
                    if self.has(i) {
                        lemma_index_bound(self, i);
                    }
                    if other.has(i) {
                        lemma_index_bound(other, i);
                    }
                    assert(c.has(i) == (usize_has(all@, i) && i <= u32::MAX));
                }
                c
            },
        }
    }
}

proof fn lemma_index_bound(c: &CompactCompartments, i: int)
    requires
        c.has(i),
    ensures
        0 <= i <= u32::MAX,
{
    match c {
        CompactCompartments::Bits(_) => {},
        CompactCompartments::Many(v) => {
            let k = choose|k: int| 0 <= k < v@.len() && (#[trigger] v@[k]) as int == i;
        },
    }
}

/// Inserts into a strictly increasing list unless present.
fn insert_unique(v: &mut Vec<u32>, x: u32)
    requires
        strictly_increasing(old(v)@),
    ensures
        strictly_increasing(final(v)@),
        forall|i: int| #[trigger] u32_has(final(v)@, i) <==> (u32_has(old(v)@, i) || i == x as int),
{
    let mut p: usize = 0;
    while p < v.len() && v[p] < x
        invariant
            p <= v@.len(),
            forall|k: int| 0 <= k < p ==> #[trigger] v@[k] < x,
        decreases v.len() - p,
    {
        p = p + 1;
    }
    if p < v.len() && v[p] == x {
        return;
    }
    let ghost before = v@;
    v.insert(p, x);
    assert forall|a: int, b: int| 0 <= a < b < v@.len() implies v@[a] < v@[b] by {
        if b < p {
        } else if b == p {
        } else if a < p {
            assert(v@[b] == before[b - 1]);
        } else if a == p {
            assert(v@[b] == before[b - 1]);
            assert(before[p as int] > x);
            if b - 1 > p {
                assert(before[p as int] < before[b - 1]);
            }
        } else {
            assert(v@[a] == before[a - 1]);
            assert(v@[b] == before[b - 1]);
        }
    }
    assert forall|i: int| #[trigger] u32_has(v@, i) <==> (u32_has(before, i) || i == x as int) by {
        if u32_has(v@, i) {
            let k = choose|k: int| 0 <= k < v@.len() && (#[trigger] v@[k]) as int == i;
            if k < p {
                assert(v@[k] == before[k]);
            } else if k > p {
                assert(v@[k] == before[k - 1]);
            }
        }
        if u32_has(before, i) {
            let k = choose|k: int| 0 <= k < before.len() && (#[trigger] before[k]) as int == i;
            if k < p {
                assert(v@[k] == before[k]);
            } else {
                assert(v@[k + 1] == before[k]);
            }
        }
        if i == x as int {
            assert(v@[p as int] == x);
        }
    }
}

/// A parsed access label in compact form.
#[derive(Clone, Debug)]
pub struct CompactAccess {
    pub level: AccessLevel,
    pub compartments: CompactCompartments,
}

/// The part of a project index that access closures read: for each object (by
/// ordinal) the ordinals its resolved references point to, in stored order, and its
/// parsed access label, over a vocabulary of `compartment_count` compartment names.
#[derive(Clone, Debug)]
pub struct AccessGraph {
    pub targets: Vec<Vec<usize>>,
    pub labels: Vec<Option<CompactAccess>>,
    pub compartment_count: usize,
}

/// A compact label is well formed over a vocabulary of `count` names.
pub open spec fn label_fits(c: CompactCompartments, count: int) -> bool {
    &&& c.wf()
    &&& (count <= 64 <==> c is Bits)
    &&& forall|i: int| #[trigger] c.has(i) ==> 0 <= i < count
}

/// The dependencies of `s`: every other object a path of references leads to.
pub open spec fn dependency_set(adj: Seq<Seq<usize>>, s: int) -> Set<int> {
    Set::new(|t: int| t != s && reachable(adj, s, t))
}

/// Object `t` carries a label holding compartment `i`.
pub open spec fn label_has(labels: Seq<Option<CompactAccess>>, t: int, i: int) -> bool {
    labels[t] matches Some(l) && l.compartments.has(i)
}

impl AccessGraph {
    /// The reference targets as sequences.
    pub open spec fn adj(&self) -> Seq<Seq<usize>> {
        Seq::new(self.targets@.len(), |i: int| self.targets@[i]@)
    }

    /// Every target is an object of the graph and every label fits the vocabulary.
    pub open spec fn wf(&self) -> bool {
        &&& self.targets@.len() == self.labels@.len()
        &&& forall|a: int, k: int| 0 <= a < self.targets@.len() && 0 <= k < self.targets@[a]@.len()
            ==> #[trigger] self.targets@[a]@[k] < self.targets@.len()
        &&& forall|t: int| 0 <= t < self.labels@.len() ==> (#[trigger] self.labels@[t] matches Some(l)
            ==> label_fits(l.compartments, self.compartment_count as int))
    }

    /// The dependency floor of object `start`: how many objects its references reach,
    /// the most restrictive level among their labels (`Public` when none) and the union
    /// of their compartments. The last component is `false` where the budget stopped
    /// the walk; the first three then cover only what was reached.
    pub fn summary(&self, start: usize, execution: &ExecutionBudget) -> (r: (usize, AccessLevel, CompactCompartments, bool))
        requires
            self.wf(),
            start < self.targets@.len(),
        ensures
            label_fits(r.2, self.compartment_count as int),
            r.3 ==> {
                let deps = dependency_set(self.adj(), start as int);
                &&& r.0 == deps.len()
                &&& forall|t: int| #[trigger] deps.contains(t) ==> (self.labels@[t] matches Some(l)
                    ==> level_rank(l.level) <= level_rank(r.1))
                &&& (r.1 == AccessLevel::Public || exists|t: int| #[trigger] deps.contains(t)
                    && (self.labels@[t] matches Some(l) && l.level == r.1))
                &&& forall|i: int| #[trigger] r.2.has(i) <==> exists|t: int| #[trigger] deps.contains(t)
                    && label_has(self.labels@, t, i)
            },
    {
        let n = self.targets.len();
        let ghost adj = self.adj();
        let mut seen: Vec<bool> = Vec::new();
        let mut z: usize = 0;
        while z < n
            invariant
                z <= n,
                seen@.len() == z,
                forall|x: int| 0 <= x < z ==> !#[trigger] seen@[x],
            decreases n - z,
        {
            seen.push(false);
            z = z + 1;
        }
        let mut marks: Vec<bool> = Vec::new();
        let count_c = self.compartment_count;
        z = 0;
        while z < count_c
            invariant
                z <= count_c,
                marks@.len() == z,
                forall|x: int| 0 <= x < z ==> !#[trigger] marks@[x],
            decreases count_c - z,
        {
            marks.push(false);
            z = z + 1;
        }
        seen.set(start, true);
        let mut queue: Vec<usize> = Vec::new();
        queue.push(start);
        let mut head: usize = 0;
        let mut count: usize = 0;
        let mut level = AccessLevel::Public;
        let ghost labels = self.labels@;
        proof {
            assert forall|x: int| 0 <= x < n implies (#[trigger] seen@[x] <==> exists|k: int| 0 <= k < queue@.len() && queue@[k] as int == x) by {
                if x == start as int {
                    assert(queue@[0] as int == x);
                }
            }
        }
        while head < queue.len()
            invariant
                self.wf(),
                adj == self.adj(),
                labels == self.labels@,
                n == self.targets@.len(),
                start < n,
                count_c == self.compartment_count,
                seen@.len() == n,
                marks@.len() == count_c,
                1 <= queue@.len() <= n,
                head <= queue@.len(),
                queue@[0] == start,
                count == queue@.len() - 1,
                queue@.no_duplicates(),
                forall|k: int| 0 <= k < queue@.len() ==> #[trigger] queue@[k] < n,
                forall|x: int| 0 <= x < n ==> (#[trigger] seen@[x] <==> exists|k: int| 0 <= k < queue@.len() && queue@[k] as int == x),
                forall|k: int| 1 <= k < queue@.len() ==> reachable(adj, start as int, #[trigger] queue@[k] as int),
                forall|k: int, b: int| 0 <= k < head && #[trigger] has_edge(adj, queue@[k] as int, b) ==> seen@[b],
                forall|k: int| 1 <= k < queue@.len() ==> (#[trigger] labels[queue@[k] as int] matches Some(l)
                    ==> level_rank(l.level) <= level_rank(level)),
                level == AccessLevel::Public || exists|k: int| 1 <= k < queue@.len()
                    && (#[trigger] labels[queue@[k] as int] matches Some(l) && l.level == level),
                forall|i: int| 0 <= i < count_c ==> (#[trigger] marks@[i] <==> exists|k: int| 1 <= k < queue@.len()
                    && #[trigger] label_has(labels, queue@[k] as int, i)),
            decreases n - head, n - queue@.len(),
        {
            if let Err(_) = execution.checkpoint() {
                let c = marked_compartments(&marks, count_c, Ghost(labels), Ghost(queue@));
                return (count, level, c, false);
            }
            let u = queue[head];
            let succ = &self.targets[u];
            let mut j: usize = 0;
            while j < succ.len()
                invariant
                    self.wf(),
                    adj == self.adj(),
                    labels == self.labels@,
                    n == self.targets@.len(),
                    start < n,
                    count_c == self.compartment_count,
                    u < n,
                    succ@ == adj[u as int],
                    j <= succ@.len(),
                    seen@.len() == n,
                    marks@.len() == count_c,
                    1 <= queue@.len() <= n,
                    head < queue@.len(),
                    queue@[head as int] == u,
                    queue@[0] == start,
                    count == queue@.len() - 1,
                    queue@.no_duplicates(),
                    forall|k: int| 0 <= k < queue@.len() ==> #[trigger] queue@[k] < n,
                    forall|x: int| 0 <= x < n ==> (#[trigger] seen@[x] <==> exists|k: int| 0 <= k < queue@.len() && queue@[k] as int == x),
                    forall|k: int| 1 <= k < queue@.len() ==> reachable(adj, start as int, #[trigger] queue@[k] as int),
                    forall|k: int, b: int| 0 <= k < head && #[trigger] has_edge(adj, queue@[k] as int, b) ==> seen@[b],
                    forall|m: int| 0 <= m < j ==> seen@[#[trigger] succ@[m] as int],
                    forall|k: int| 1 <= k < queue@.len() ==> (#[trigger] labels[queue@[k] as int] matches Some(l)
                        ==> level_rank(l.level) <= level_rank(level)),
                    level == AccessLevel::Public || exists|k: int| 1 <= k < queue@.len()
                        && (#[trigger] labels[queue@[k] as int] matches Some(l) && l.level == level),
                    forall|i: int| 0 <= i < count_c ==> (#[trigger] marks@[i] <==> exists|k: int| 1 <= k < queue@.len()
                        && #[trigger] label_has(labels, queue@[k] as int, i)),
                decreases succ@.len() - j,
            {
                if let Err(_) = execution.checkpoint() {
                    let c = marked_compartments(&marks, count_c, Ghost(labels), Ghost(queue@));
                    return (count, level, c, false);
                }
                let t = succ[j];
                proof {
                    assert(adj[u as int][j as int] == t);
                    assert(self.targets@[u as int]@[j as int] < n);
                }
                if !seen[t] {
                    let ghost q0 = queue@;
                    let ghost m0 = marks@;
                    let ghost level0 = level;
                    proof {
                        assert(has_edge(adj, u as int, t as int));
                        if head > 0 {
                            assert(reachable(adj, start as int, queue@[head as int] as int));
                        }
                        lemma_reach_step(adj, start as int, u as int, t as int);
                        assert forall|k: int| 0 <= k < q0.len() implies q0[k] != t by {
                            if q0[k] == t {
                                assert(seen@[t as int]);
                            }
                        }
                    }
                    seen.set(t, true);
                    count = count + 1;
                    match &self.labels[t] {
                        Some(label) => {
                            level = level.max(label.level);
                            let idx = label.compartments.indexes();
                            let mut p: usize = 0;
                            while p < idx.len()
                                invariant
                                    p <= idx@.len(),
                                    marks@.len() == count_c,
                                    label_fits(label.compartments, count_c as int),
                                    forall|i: int| #![trigger label.compartments.has(i)] #![trigger usize_has(idx@, i)] label.compartments.has(i) <==> usize_has(idx@, i),
                                    forall|i: int| 0 <= i < count_c ==> (#[trigger] marks@[i] <==> (m0[i] || exists|w: int| 0 <= w < p && idx@[w] as int == i)),
                                decreases idx@.len() - p,
                            {
                                let i = idx[p];
                                proof {
                                    assert(usize_has(idx@, i as int));
                                    assert(label.compartments.has(i as int));
                                }
                                marks.set(i, true);
                                proof {
                                    assert forall|x: int| 0 <= x < count_c implies (#[trigger] marks@[x] <==> (m0[x] || exists|w: int| 0 <= w < p + 1 && idx@[w] as int == x)) by {
                                        if x == i as int {
                                            assert(idx@[p as int] as int == x);
                                        }
                                    }
                                }
                                p = p + 1;
                            }
                            proof {
                                assert forall|x: int| 0 <= x < count_c implies (marks@[x] <==> (m0[x] || label_has(labels, t as int, x))) by {
                                    if label.compartments.has(x) {
                                        assert(usize_has(idx@, x));
                                        let w = choose|w: int| 0 <= w < idx@.len() && (#[trigger] idx@[w]) as int == x;
                                    }
                                    if exists|w: int| 0 <= w < idx@.len() && idx@[w] as int == x {
                                        let w = choose|w: int| 0 <= w < idx@.len() && idx@[w] as int == x;
                                        assert(usize_has(idx@, x));
                                    }
                                }
                            }
                        },
                        None => {},
                    }
                    queue.push(t);
                    proof {
                        let q1 = queue@;
                        assert(q1.drop_last() == q0);
                        assert forall|a: int, b: int| 0 <= a < b < q1.len() implies q1[a] != q1[b] by {
                            if b == q0.len() {
                                assert(q1[a] == q0[a]);
                            } else {
                                assert(q1[a] == q0[a]);
                                assert(q1[b] == q0[b]);
                            }
                        }
                        assert forall|k: int| 0 <= k < q1.len() implies #[trigger] q1[k] < n by {
                            if k < q0.len() {
                                assert(q1[k] == q0[k]);
                            }
                        }
                        lemma_unique_bound(q1, n as int);
                        assert forall|x: int| 0 <= x < n implies (#[trigger] seen@[x] <==> exists|k: int| 0 <= k < q1.len() && q1[k] as int == x) by {
                            if x == t as int {
                                assert(q1[q0.len() as int] as int == x);
                            } else if seen@[x] {
                                let k = choose|k: int| 0 <= k < q0.len() && q0[k] as int == x;
                                assert(q1[k] == q0[k]);
                            } else {
                                if exists|k: int| 0 <= k < q1.len() && q1[k] as int == x {
                                    let k = choose|k: int| 0 <= k < q1.len() && q1[k] as int == x;
                                    if k < q0.len() {
                                        assert(q1[k] == q0[k]);
                                    }
                                }
                            }
                        }
                        assert forall|k: int| 1 <= k < q1.len() implies (#[trigger] labels[q1[k] as int] matches Some(l)
                            ==> level_rank(l.level) <= level_rank(level)) by {
                            if k < q0.len() {
                                assert(q1[k] == q0[k]);
                            }
                        }
                        if level != AccessLevel::Public {
                            if level == level0 && level0 != AccessLevel::Public {
                                let k = choose|k: int| 1 <= k < q0.len()
                                    && (#[trigger] labels[q0[k] as int] matches Some(l) && l.level == level0);
                                assert(q1[k] == q0[k]);
                            } else {
                                assert(q1[q0.len() as int] == t);
                            }
                        }
                        assert forall|i: int| 0 <= i < count_c implies (#[trigger] marks@[i] <==> exists|k: int| 1 <= k < q1.len()
                            && #[trigger] label_has(labels, q1[k] as int, i)) by {
                            if m0[i] {
                                let k = choose|k: int| 1 <= k < q0.len() && #[trigger] label_has(labels, q0[k] as int, i);
                                assert(q1[k] == q0[k]);
                            }
                            if label_has(labels, t as int, i) {
                                assert(q1[q0.len() as int] == t);
                            }
                            if exists|k: int| 1 <= k < q1.len() && #[trigger] label_has(labels, q1[k] as int, i) {
                                let k = choose|k: int| 1 <= k < q1.len() && #[trigger] label_has(labels, q1[k] as int, i);
                                if k < q0.len() {
                                    assert(q1[k] == q0[k]);
                                }
                            }
                        }
                        assert forall|k: int| 1 <= k < q1.len() implies reachable(adj, start as int, #[trigger] q1[k] as int) by {
                            if k < q0.len() {
                                assert(q1[k] == q0[k]);
                            }
                        }
                        assert forall|k: int, b: int| 0 <= k < head && #[trigger] has_edge(adj, q1[k] as int, b) implies seen@[b] by {
                            assert(q1[k] == q0[k]);
                            assert(has_edge(adj, q0[k] as int, b));
                        }
                        assert forall|m: int| 0 <= m < j + 1 implies seen@[#[trigger] succ@[m] as int] by {}
                        assert forall|k: int| 0 <= k < q1.len() implies #[trigger] q1[k] < n by {
                            if k < q0.len() {
                                assert(q1[k] == q0[k]);
                            }
                        }
                    }
                }
                j = j + 1;
            }
            proof {
                assert forall|k: int, b: int| 0 <= k < head + 1 && #[trigger] has_edge(adj, queue@[k] as int, b) implies seen@[b] by {
                    if k == head as int {
                        let w = choose|w: int| 0 <= w < adj[u as int].len() && adj[u as int][w] as int == b;
                        assert(seen@[succ@[w] as int]);
                    }
                }
            }
            head = head + 1;
        }
        let ghost q = queue@;
        let ghost vis = Set::new(|x: int| 0 <= x < n && seen@[x]);
        let ghost deps = dependency_set(adj, start as int);
        proof {
            assert forall|u: int, v: int| vis.contains(u) && #[trigger] has_edge(adj, u, v) implies vis.contains(v) by {
                let k = choose|k: int| 0 <= k < q.len() && q[k] as int == u;
                assert(has_edge(adj, q[k] as int, v));
                let w = choose|w: int| 0 <= w < adj[u].len() && adj[u][w] as int == v;
                assert(self.targets@[u]@[w] < n);
            }
            assert(seen@[start as int]);
            let tail = q.subrange(1, q.len() as int).map_values(|x: usize| x as int);
            assert forall|t: int| deps.contains(t) <==> #[trigger] tail.to_set().contains(t) by {
                if deps.contains(t) {
                    let m = choose|m: nat| m >= 1 && #[trigger] reach_within(adj, start as int, t, m);
                    lemma_closed_contains(adj, start as int, vis, t, m);
                    let k = choose|k: int| 0 <= k < q.len() && q[k] as int == t;
                    assert(k != 0);
                    assert(tail[k - 1] == q[k] as int);
                }
                if tail.to_set().contains(t) {
                    let w = choose|w: int| 0 <= w < tail.len() && tail[w] == t;
                    assert(q[w + 1] as int == tail[w]);
                    assert(q[w + 1] != q[0]);
                    assert(reachable(adj, start as int, q[w + 1] as int));
                }
            }
            assert(deps =~= tail.to_set());
            assert(tail.no_duplicates()) by {
                assert forall|a: int, b: int| 0 <= a < b < tail.len() implies tail[a] != tail[b] by {
                    assert(tail[a] == q[a + 1] as int);
                    assert(tail[b] == q[b + 1] as int);
                }
            }
            tail.unique_seq_to_set();
        }
        let c = marked_compartments(&marks, count_c, Ghost(labels), Ghost(q));
        proof {
            let tail = q.subrange(1, q.len() as int).map_values(|x: usize| x as int);
            assert forall|t: int| #[trigger] deps.contains(t) <==> exists|k: int| 1 <= k < q.len() && q[k] as int == t by {
                if deps.contains(t) {
                    assert(tail.to_set().contains(t));
                    let w = choose|w: int| 0 <= w < tail.len() && tail[w] == t;
                    assert(q[w + 1] as int == tail[w]);
                }
                if exists|k: int| 1 <= k < q.len() && q[k] as int == t {
                    let k = choose|k: int| 1 <= k < q.len() && q[k] as int == t;
                    assert(tail[k - 1] == q[k] as int);
                    assert(tail.to_set().contains(t));
                }
            }
            assert forall|t: int| #[trigger] deps.contains(t) implies (self.labels@[t] matches Some(l)
                ==> level_rank(l.level) <= level_rank(level)) by {
                let k = choose|k: int| 1 <= k < q.len() && q[k] as int == t;
                assert(labels[q[k] as int] == labels[t]);
            }
            if level != AccessLevel::Public {
                let k = choose|k: int| 1 <= k < q.len()
                    && (#[trigger] labels[q[k] as int] matches Some(l) && l.level == level);
                assert(deps.contains(q[k] as int));
            }
            assert forall|i: int| #[trigger] c.has(i) <==> exists|t: int| #[trigger] deps.contains(t)
                && label_has(self.labels@, t, i) by {
                if exists|t: int| #[trigger] deps.contains(t) && label_has(self.labels@, t, i) {
                    let t = choose|t: int| #[trigger] deps.contains(t) && label_has(self.labels@, t, i);
                    let k = choose|k: int| 1 <= k < q.len() && q[k] as int == t;
                    assert(label_has(labels, q[k] as int, i));
                }
                if c.has(i) {
                    let k = choose|k: int| 1 <= k < q.len() && #[trigger] label_has(labels, q[k] as int, i);
                    assert(deps.contains(q[k] as int));
                }
            }
        }
        (count, level, c, true)
    }
}

/// The compartment set of the marked vocabulary indexes.
fn marked_compartments(
    marks: &Vec<bool>,
    count_c: usize,
    Ghost(labels): Ghost<Seq<Option<CompactAccess>>>,
    Ghost(q): Ghost<Seq<usize>>,
) -> (c: CompactCompartments)
    requires
        marks@.len() == count_c,
        forall|t: int| 0 <= t < labels.len() ==> (#[trigger] labels[t] matches Some(l) ==> label_fits(l.compartments, count_c as int)),
        forall|k: int| 0 <= k < q.len() ==> #[trigger] q[k] < labels.len(),
        forall|i: int| 0 <= i < count_c ==> (#[trigger] marks@[i] <==> exists|k: int| 1 <= k < q.len()
            && #[trigger] label_has(labels, q[k] as int, i)),
    ensures
        label_fits(c, count_c as int),
        forall|i: int| #[trigger] c.has(i) <==> exists|k: int| 1 <= k < q.len()
            && #[trigger] label_has(labels, q[k] as int, i),
{
    let mut list: Vec<usize> = Vec::new();
    let mut i: usize = 0;
    while i < count_c
        invariant
            i <= count_c,
            marks@.len() == count_c,
            forall|w: int| 0 <= w < list@.len() ==> #[trigger] list@[w] < i,
            forall|x: int| #![trigger usize_has(list@, x)] usize_has(list@, x) <==> (0 <= x < i && marks@[x]),
        decreases count_c - i,
    {
        let ghost before = list@;
        if marks[i] {
            list.push(i);
            proof {
                assert forall|x: int| #![trigger usize_has(list@, x)] usize_has(list@, x) <==> (0 <= x < i + 1 && marks@[x]) by {
                    lemma_usize_has_push(before, i, x);
                }
            }
        }
        i = i + 1;
    }
    let c = CompactCompartments::from_indexes(list.as_slice(), count_c);
    proof {
        assert forall|x: int| #[trigger] c.has(x) <==> exists|k: int| 1 <= k < q.len()
            && #[trigger] label_has(labels, q[k] as int, x) by {
            if exists|k: int| 1 <= k < q.len() && #[trigger] label_has(labels, q[k] as int, x) {
                let k = choose|k: int| 1 <= k < q.len() && #[trigger] label_has(labels, q[k] as int, x);
                let l = labels[q[k] as int]->0;
                assert(l.compartments.has(x));
                lemma_index_bound(&l.compartments, x);
                assert(0 <= x < count_c);
                assert(marks@[x]);
                assert(usize_has(list@, x));
            }
            if c.has(x) {
                assert(usize_has(list@, x));
            }
        }
        assert forall|x: int| #[trigger] c.has(x) implies 0 <= x < count_c by {
            assert(usize_has(list@, x));
        }
    }
    c
}


impl CompactCompartments {
    /// A copy with the same form and the same indexes.
    pub fn duplicate(&self) -> (c: Self)
        ensures
            c is Bits <==> self is Bits,
            c.wf() == self.wf(),
            forall|i: int| #[trigger] c.has(i) <==> self.has(i),
    {
        match self {
            CompactCompartments::Bits(b) => CompactCompartments::Bits(*b),
            CompactCompartments::Many(v) => {
                let mut out: Vec<u32> = Vec::new();
                let mut k: usize = 0;
                while k < v.len()
                    invariant
                        k <= v@.len(),
                        out@ == v@.subrange(0, k as int),
                    decreases v@.len() - k,
                {
                    out.push(v[k]);
                    assert(out@ =~= v@.subrange(0, k + 1));
                    k = k + 1;
                }
                assert(out@ =~= v@);
                let c = CompactCompartments::Many(out);
                assert forall|i: int| #[trigger] c.has(i) <==> self.has(i) by {
                    if c.has(i) {
                        let k = choose|k: int| 0 <= k < out@.len() && (#[trigger] out@[k]) as int == i;
                        assert(v@[k] == out@[k]);
                    }
                    if self.has(i) {
                        let k = choose|k: int| 0 <= k < v@.len() && (#[trigger] v@[k]) as int == i;
                        assert(v@[k] == out@[k]);
                    }
                }
                c
            },
        }
    }
}

/// One object's access in compact form: its declared label, the floor its
/// dependencies require, the effective label and whether the declaration holds.
#[derive(Clone, Debug)]
pub struct StoredAccessReport {
    pub declared_level: AccessLevel,
    pub declared_compartments: CompactCompartments,
    pub required_level: AccessLevel,
    pub required_compartments: CompactCompartments,
    pub effective_level: AccessLevel,
    pub effective_compartments: CompactCompartments,
    pub valid: bool,
    pub dependency_count: usize,
}

/// The report follows from its declared label and required floor: the declaration is
/// valid exactly when it dominates the floor, and the effective label is the most
/// restrictive level of the two with the union of their compartments.
pub open spec fn assessed(r: StoredAccessReport) -> bool {
    &&& r.valid == (level_rank(r.declared_level) >= level_rank(r.required_level)
        && forall|i: int| #[trigger] r.required_compartments.has(i) ==> r.declared_compartments.has(i))
    &&& level_rank(r.effective_level) == level_rank(level_max(r.declared_level, r.required_level))
    &&& r.effective_level == level_max(r.required_level, r.declared_level)
    &&& forall|i: int| #[trigger] r.effective_compartments.has(i) <==> (r.declared_compartments.has(i)
        || r.required_compartments.has(i))
}

/// A valid declaration is its own effective access: the same level and the same
/// compartments.
pub proof fn law_valid_declaration_is_effective(r: StoredAccessReport)
    requires
        assessed(r),
        r.valid,
    ensures
        r.effective_level == r.declared_level,
        forall|i: int| #[trigger] r.effective_compartments.has(i) <==> r.declared_compartments.has(i),
{
}

/// The effective access dominates both the declaration and the dependency floor.
pub proof fn law_effective_dominates(r: StoredAccessReport)
    requires
        assessed(r),
    ensures
        level_rank(r.effective_level) >= level_rank(r.declared_level),
        level_rank(r.effective_level) >= level_rank(r.required_level),
        forall|i: int| #[trigger] r.declared_compartments.has(i) ==> r.effective_compartments.has(i),
        forall|i: int| #[trigger] r.required_compartments.has(i) ==> r.effective_compartments.has(i),
{
}

impl AccessGraph {
    /// The access report of object `ordinal`, or `None` where it declares no label.
    /// The flag is `false` where the budget stopped the dependency walk.
    pub fn assess(&self, ordinal: usize, execution: &ExecutionBudget) -> (r: Option<(StoredAccessReport, bool)>)
        requires
            self.wf(),
            ordinal < self.targets@.len(),
        ensures
            r is None <==> self.labels@[ordinal as int] is None,
            r matches Some(x) ==> {
                let rep = x.0;
                let declared = self.labels@[ordinal as int]->0;
                let deps = dependency_set(self.adj(), ordinal as int);
                &&& assessed(rep)
                &&& rep.declared_level == declared.level
                &&& forall|i: int| #[trigger] rep.declared_compartments.has(i) <==> declared.compartments.has(i)
                &&& label_fits(rep.declared_compartments, self.compartment_count as int)
                &&& label_fits(rep.required_compartments, self.compartment_count as int)
                &&& label_fits(rep.effective_compartments, self.compartment_count as int)
                &&& x.1 ==> {
                    &&& rep.dependency_count == deps.len()
                    &&& forall|t: int| #[trigger] deps.contains(t) ==> (self.labels@[t] matches Some(l)
                        ==> level_rank(l.level) <= level_rank(rep.required_level))
                    &&& (rep.required_level == AccessLevel::Public || exists|t: int| #[trigger] deps.contains(t)
                        && (self.labels@[t] matches Some(l) && l.level == rep.required_level))
                    &&& forall|i: int| #[trigger] rep.required_compartments.has(i) <==> exists|t: int|
                        #[trigger] deps.contains(t) && label_has(self.labels@, t, i)
                }
            },
    {
        let declared = match &self.labels[ordinal] {
            Some(l) => l,
            None => return None,
        };
        assert(label_fits(declared.compartments, self.compartment_count as int));
        let (dependency_count, required_level, required_compartments, complete) = self.summary(ordinal, execution);
        let level_valid = declared.level.dominates(required_level);
        let compartments_valid = required_compartments.is_subset(&declared.compartments);
        let valid = level_valid && compartments_valid;
        let effective_level = required_level.max(declared.level);
        let effective_compartments = declared.compartments.union(&required_compartments, self.compartment_count);
        let rep = StoredAccessReport {
            declared_level: declared.level,
            declared_compartments: declared.compartments.duplicate(),
            required_level,
            required_compartments,
            effective_level,
            effective_compartments,
            valid,
            dependency_count,
        };
        proof {
            assert(assessed(rep));
            assert forall|i: int| #[trigger] rep.effective_compartments.has(i) implies 0 <= i < self.compartment_count by {
                if declared.compartments.has(i) {
                } else {
                    assert(rep.required_compartments.has(i));
                }
            }
        }
        Some((rep, complete))
    }
}

/// Names in strictly ascending order of their UTF-8 bytes.
pub open spec fn names_ascending(v: Seq<String>) -> bool {
    forall|a: int, b: int| 0 <= a < b < v.len() ==> bytes_lt(encode_utf8(v[a]@), encode_utf8(v[b]@))
}

/// Access reports of a project, with the vocabulary their compartment indexes refer to.
#[derive(Clone, Debug)]
pub struct AccessStore {
    pub compartment_names: Vec<String>,
    pub reports: Vec<Option<StoredAccessReport>>,
}

impl AccessStore {
    /// Every report's compartments are indexes into the vocabulary.
    pub open spec fn wf(&self) -> bool {
        forall|o: int| 0 <= o < self.reports@.len() ==> (#[trigger] self.reports@[o] matches Some(r) ==> {
            &&& label_fits(r.declared_compartments, self.compartment_names@.len() as int)
            &&& label_fits(r.required_compartments, self.compartment_names@.len() as int)
            &&& label_fits(r.effective_compartments, self.compartment_names@.len() as int)
        })
    }

    /// The label with the named compartments of `compartments`, in vocabulary order.
    pub fn label(&self, level: AccessLevel, compartments: &CompactCompartments) -> (l: AccessLabel)
        requires
            label_fits(*compartments, self.compartment_names@.len() as int),
        ensures
            l.level == level,
            forall|n: Seq<char>| #[trigger] names(l.compartments@).contains(n) <==> exists|i: int|
                compartments.has(i) && (#[trigger] self.compartment_names@[i])@ == n,
            names_ascending(self.compartment_names@) ==> names_ascending(l.compartments@),
    {
        let idx = compartments.indexes();
        let mut out: Vec<String> = Vec::new();
        let mut k: usize = 0;
        while k < idx.len()
            invariant
                k <= idx@.len(),
                out@.len() == k,
                forall|a: int, b: int| 0 <= a < b < idx@.len() ==> idx@[a] < idx@[b],
                forall|i: int| #![trigger compartments.has(i)] #![trigger usize_has(idx@, i)] compartments.has(i) <==> usize_has(idx@, i),
                label_fits(*compartments, self.compartment_names@.len() as int),
                forall|a: int| 0 <= a < k ==> (#[trigger] out@[a])@ == self.compartment_names@[idx@[a] as int]@,
            decreases idx@.len() - k,
        {
            let i = idx[k];
            proof {
                assert(usize_has(idx@, i as int));
            }
            let name = self.compartment_names[i].clone();
            out.push(name);
            k = k + 1;
        }
        proof {
            assert forall|n: Seq<char>| #[trigger] names(out@).contains(n) <==> exists|i: int|
                compartments.has(i) && (#[trigger] self.compartment_names@[i])@ == n by {
                if names(out@).contains(n) {
                    let a = choose|a: int| 0 <= a < out@.len() && (#[trigger] out@[a])@ == n;
                    assert(usize_has(idx@, idx@[a] as int));
                    assert(compartments.has(idx@[a] as int));
                }
                if exists|i: int| compartments.has(i) && (#[trigger] self.compartment_names@[i])@ == n {
                    let i = choose|i: int| compartments.has(i) && (#[trigger] self.compartment_names@[i])@ == n;
                    assert(usize_has(idx@, i));
                    let a = choose|a: int| 0 <= a < idx@.len() && (#[trigger] idx@[a]) as int == i;
                    assert(out@[a]@ == n);
                }
            }
            if names_ascending(self.compartment_names@) {
                assert forall|a: int, b: int| 0 <= a < b < out@.len() implies bytes_lt(encode_utf8(out@[a]@), encode_utf8(out@[b]@)) by {
                    assert(usize_has(idx@, idx@[a] as int));
                    assert(usize_has(idx@, idx@[b] as int));
                    assert(compartments.has(idx@[a] as int));
                    assert(compartments.has(idx@[b] as int));
                }
            }
        }
        AccessLabel { level, compartments: out }
    }

    /// `a` presents the stored report of object `ordinal` with named compartments.
    pub open spec fn presents(&self, ordinal: int, a: AccessReport) -> bool {
        let s = self.reports@[ordinal]->0;
        &&& a.declared.level == s.declared_level
        &&& a.required_floor.level == s.required_level
        &&& a.effective.level == s.effective_level
        &&& a.valid == s.valid
        &&& a.dependency_count == s.dependency_count
        &&& forall|n: Seq<char>| #[trigger] names(a.declared.compartments@).contains(n) <==> exists|i: int|
            s.declared_compartments.has(i) && (#[trigger] self.compartment_names@[i])@ == n
        &&& forall|n: Seq<char>| #[trigger] names(a.required_floor.compartments@).contains(n) <==> exists|i: int|
            s.required_compartments.has(i) && (#[trigger] self.compartment_names@[i])@ == n
        &&& forall|n: Seq<char>| #[trigger] names(a.effective.compartments@).contains(n) <==> exists|i: int|
            s.effective_compartments.has(i) && (#[trigger] self.compartment_names@[i])@ == n
    }

    /// The access report of object `ordinal`, where one was computed.
    pub fn report(&self, ordinal: usize) -> (r: Option<AccessReport>)
        requires
            self.wf(),
        ensures
            r is Some <==> (ordinal < self.reports@.len() && self.reports@[ordinal as int] is Some),
            r matches Some(a) ==> self.presents(ordinal as int, a),
    {
        if ordinal >= self.reports.len() {
            return None;
        }
        match &self.reports[ordinal] {
            None => None,
            Some(s) => {
                proof {
                    assert(self.reports@[ordinal as int] matches Some(x) && x == *s);
                }
                Some(AccessReport {
                    declared: self.label(s.declared_level, &s.declared_compartments),
                    required_floor: self.label(s.required_level, &s.required_compartments),
                    effective: self.label(s.effective_level, &s.effective_compartments),
                    valid: s.valid,
                    dependency_count: s.dependency_count,
                })
            },
        }
    }
}

/// Access reports for every object of `graph` that declares a label, over the given
/// compartment vocabulary.
pub fn access_store(graph: &AccessGraph, compartment_names: Vec<String>, execution: &ExecutionBudget) -> (s: AccessStore)
    requires
        graph.wf(),
        graph.compartment_count == compartment_names@.len(),
    ensures
        s.wf(),
        s.compartment_names@ == compartment_names@,
        s.reports@.len() == graph.labels@.len(),
        forall|o: int| 0 <= o < s.reports@.len() ==> (#[trigger] s.reports@[o] is Some <==> graph.labels@[o] is Some),
        forall|o: int| 0 <= o < s.reports@.len() ==> (#[trigger] s.reports@[o] matches Some(r) ==> assessed(r)),
{
    let mut reports: Vec<Option<StoredAccessReport>> = Vec::new();
    let mut o: usize = 0;
    while o < graph.targets.len()
        invariant
            graph.wf(),
            graph.compartment_count == compartment_names@.len(),
            o <= graph.targets@.len(),
            reports@.len() == o,
            forall|k: int| 0 <= k < o ==> (#[trigger] reports@[k] is Some <==> graph.labels@[k] is Some),
            forall|k: int| 0 <= k < o ==> (#[trigger] reports@[k] matches Some(r) ==> {
                &&& assessed(r)
                &&& label_fits(r.declared_compartments, compartment_names@.len() as int)
                &&& label_fits(r.required_compartments, compartment_names@.len() as int)
                &&& label_fits(r.effective_compartments, compartment_names@.len() as int)
            }),
        decreases graph.targets@.len() - o,
    {
        let entry = match graph.assess(o, execution) {
            Some((rep, _complete)) => Some(rep),
            None => None,
        };
        reports.push(entry);
        o = o + 1;
    }
    AccessStore { compartment_names, reports }
}


/// The code and family of an access violation whose first deficient dependency was
/// reached through the edge labelled `edge` (`None`: no deficient dependency found).
pub open spec fn deficit_code(edge: Option<Seq<char>>, level_valid: bool) -> (Seq<char>, Seq<char>) {
    match edge {
        None => generic_code(level_valid),
        Some(e) => if e == "relation.from_revision"@ || e == "relation.to_revision"@ {
            ("RP_E_ACCESS_STRUCTURAL_ENDPOINT"@, "access_structural_endpoint"@)
        } else if e == "revision.parents"@ {
            ("RP_E_ACCESS_REVISION_PARENT"@, "access_revision_parent"@)
        } else if e == "relation.revision.parents"@ {
            ("RP_E_ACCESS_RELATION_PARENT"@, "access_relation_parent"@)
        } else if e == "assessment.target"@ {
            ("RP_E_ACCESS_ASSESSMENT_TARGET"@, "access_assessment_target"@)
        } else if e == "assessment.supersedes_assessments"@ {
            ("RP_E_ACCESS_ASSESSMENT_SUPERSESSION"@, "access_assessment_supersession"@)
        } else if e == "thread.root_question_revision"@ {
            ("RP_E_ACCESS_THREAD_ROOT"@, "access_thread_root"@)
        } else if e == "thread.parent_thread_id"@ || e == "thread.forked_from_thread_id"@ {
            ("RP_E_ACCESS_THREAD_PARENT"@, "access_thread_parent"@)
        } else if e == "binding.thread_id"@ || e == "binding.target"@ {
            ("RP_E_ACCESS_BINDING_TARGET"@, "access_binding_target"@)
        } else if has_prefix(e, "claim_chain."@) {
            ("RP_E_ACCESS_CLAIM_SELECTION"@, "access_claim_chain_selection"@)
        } else {
            generic_code(level_valid)
        },
    }
}

/// The code and family of an access violation, from the label of the edge through
/// which the first deficient dependency was reached.
pub fn deficit_access_code(edge: Option<&str>, level_valid: bool) -> (r: (&'static str, &'static str))
    ensures
        (r.0@, r.1@) == deficit_code(match edge { Some(e) => Some(e@), None => None }, level_valid),
{
    proof {
        reveal_strlit("relation.from_revision");
        reveal_strlit("relation.to_revision");
        reveal_strlit("revision.parents");
        reveal_strlit("relation.revision.parents");
        reveal_strlit("assessment.target");
        reveal_strlit("assessment.supersedes_assessments");
        reveal_strlit("thread.root_question_revision");
        reveal_strlit("thread.parent_thread_id");
        reveal_strlit("thread.forked_from_thread_id");
        reveal_strlit("binding.thread_id");
        reveal_strlit("binding.target");
        reveal_strlit("claim_chain.");
        reveal_strlit("RP_E_ACCESS_STRUCTURAL_ENDPOINT");
        reveal_strlit("access_structural_endpoint");
        reveal_strlit("RP_E_ACCESS_REVISION_PARENT");
        reveal_strlit("access_revision_parent");
        reveal_strlit("RP_E_ACCESS_RELATION_PARENT");
        reveal_strlit("access_relation_parent");
        reveal_strlit("RP_E_ACCESS_ASSESSMENT_TARGET");
        reveal_strlit("access_assessment_target");
        reveal_strlit("RP_E_ACCESS_ASSESSMENT_SUPERSESSION");
        reveal_strlit("access_assessment_supersession");
        reveal_strlit("RP_E_ACCESS_THREAD_ROOT");
        reveal_strlit("access_thread_root");
        reveal_strlit("RP_E_ACCESS_THREAD_PARENT");
        reveal_strlit("access_thread_parent");
        reveal_strlit("RP_E_ACCESS_BINDING_TARGET");
        reveal_strlit("access_binding_target");
        reveal_strlit("RP_E_ACCESS_CLAIM_SELECTION");
        reveal_strlit("access_claim_chain_selection");
    }
    let e = match edge {
        None => return generic_access_code(level_valid),
        Some(e) => e,
    };
    if str_eq(e, "relation.from_revision") || str_eq(e, "relation.to_revision") {
        ("RP_E_ACCESS_STRUCTURAL_ENDPOINT", "access_structural_endpoint")
    } else if str_eq(e, "revision.parents") {
        ("RP_E_ACCESS_REVISION_PARENT", "access_revision_parent")
    } else if str_eq(e, "relation.revision.parents") {
        ("RP_E_ACCESS_RELATION_PARENT", "access_relation_parent")
    } else if str_eq(e, "assessment.target") {
        ("RP_E_ACCESS_ASSESSMENT_TARGET", "access_assessment_target")
    } else if str_eq(e, "assessment.supersedes_assessments") {
        ("RP_E_ACCESS_ASSESSMENT_SUPERSESSION", "access_assessment_supersession")
    } else if str_eq(e, "thread.root_question_revision") {
        ("RP_E_ACCESS_THREAD_ROOT", "access_thread_root")
    } else if str_eq(e, "thread.parent_thread_id") || str_eq(e, "thread.forked_from_thread_id") {
        ("RP_E_ACCESS_THREAD_PARENT", "access_thread_parent")
    } else if str_eq(e, "binding.thread_id") || str_eq(e, "binding.target") {
        ("RP_E_ACCESS_BINDING_TARGET", "access_binding_target")
    } else if starts_with(e, "claim_chain.") {
        ("RP_E_ACCESS_CLAIM_SELECTION", "access_claim_chain_selection")
    } else {
        generic_access_code(level_valid)
    }
}

} // verus!
