//! Scoped diagnostic production budget. Never reconstruct validity from retained length.
use vstd::prelude::*;
use vstd::cell::invcell::InvCell;
use vstd::predicate::Predicate;
use vstd::string::StringSliceAdditionalSpecFns;
use vstd::utf8::encode_utf8;

use std::rc::Rc;

use crate::execution::{ExecutionBudget, ExecutionStop};
use crate::finding::{Finding, ProjectPath, Severity, severity_rank};
use crate::text::{bytes_lt, compare_bytes, str_eq};

verus! {

broadcast use vstd::seq_lib::group_to_multiset_ensures;

/// Ordinary validation and CLI diagnostic ceiling; raising is not exposed.
pub const DEFAULT_FINDINGS_LIMIT: usize = 1000;

/// The error code of the marker that records a truncated transcript.
pub open spec fn truncation_code() -> Seq<char> {
    "RP_W_FINDINGS_TRUNCATED"@
}

/// The production allowance shared by a transcript and every fork of it.
#[derive(Clone, Copy)]
pub struct ProductionAllowance {
    pub limit: usize,
    pub produced: usize,
    pub incomplete: bool,
    pub had_error: bool,
}

/// What any holder of the shared allowance may store in it: the limit it was made
/// with, and no more production than that.
pub struct AllowanceBounds {
    pub limit: usize,
}

impl Predicate<ProductionAllowance> for AllowanceBounds {
    open spec fn predicate(&self, b: ProductionAllowance) -> bool {
        b.limit == self.limit && 1 <= b.limit <= DEFAULT_FINDINGS_LIMIT && b.produced <= b.limit
    }
}

/// What one diagnostic does to the shared allowance, and whether it is admitted.
/// Nothing changes when the command has stopped (`running` false). Otherwise an error
/// marks the run as having had one; an exhausted allowance refuses; a full one refuses
/// and becomes exhausted; else one more diagnostic is produced and admitted.
pub open spec fn admission(b: ProductionAllowance, running: bool, severity: Severity) -> (ProductionAllowance, bool) {
    if !running {
        (b, false)
    } else {
        let marked = ProductionAllowance { had_error: b.had_error || severity == Severity::Error, ..b };
        if b.incomplete {
            (marked, false)
        } else if b.produced == b.limit {
            (ProductionAllowance { incomplete: true, ..marked }, false)
        } else {
            (ProductionAllowance { produced: (b.produced + 1) as usize, ..marked }, true)
        }
    }
}

/// The allowance after `k` error diagnostics offered while the command runs.
pub open spec fn after_errors(b: ProductionAllowance, k: nat) -> ProductionAllowance
    decreases k,
{
    if k == 0 {
        b
    } else {
        admission(after_errors(b, (k - 1) as nat), true, Severity::Error).0
    }
}

/// A fresh allowance of `limit` admits exactly the first `limit` of any number of
/// diagnostics; the first one beyond marks it exhausted, and it stays so.
pub proof fn law_allowance_cap(limit: usize, k: nat)
    requires
        1 <= limit,
    ensures
        ({
            let b = after_errors(ProductionAllowance { limit, produced: 0, incomplete: false, had_error: false }, k);
            &&& b.limit == limit
            &&& b.produced == if k < limit { k } else { limit as nat }
            &&& b.incomplete == (k > limit)
            &&& b.had_error == (k > 0)
        }),
    decreases k,
{
    if k > 0 {
        law_allowance_cap(limit, (k - 1) as nat);
    }
}

/// One diagnostic against the allowance `b` (see `admission`).
pub fn admission_step(b: ProductionAllowance, running: bool, severity: Severity) -> (r: (ProductionAllowance, bool))
    requires
        b.produced <= b.limit,
    ensures
        r == admission(b, running, severity),
{
    if !running {
        return (b, false);
    }
    let marked = ProductionAllowance { had_error: b.had_error || severity.is_error(), ..b };
    if b.incomplete {
        (marked, false)
    } else if b.produced == b.limit {
        (ProductionAllowance { incomplete: true, ..marked }, false)
    } else {
        (ProductionAllowance { produced: b.produced + 1, ..marked }, true)
    }
}

/// A limit request clamped to 1 ..= 1000.
pub open spec fn clamped_limit(limit: usize) -> usize {
    if limit < 1 {
        1
    } else if limit > DEFAULT_FINDINGS_LIMIT {
        DEFAULT_FINDINGS_LIMIT
    } else {
        limit
    }
}

pub open spec fn saturating_inc(n: usize, by: bool) -> usize {
    if by && n < usize::MAX {
        (n + 1) as usize
    } else {
        n
    }
}

pub open spec fn saturating_sum(a: usize, b: usize) -> usize {
    if a + b > usize::MAX {
        usize::MAX
    } else {
        (a + b) as usize
    }
}

/// The fields on which transcripts deduplicate.
pub open spec fn same_dedup_key(a: Finding, b: Finding) -> bool {
    a.error_code@ == b.error_code@ && a.json_pointer@ == b.json_pointer@ && a.message@
        == b.message@
}

/// Whether `s[i]` is the first admitted copy of its key.
pub open spec fn first_copy(s: Seq<Finding>, i: int) -> bool {
    forall|j: int| 0 <= j < i ==> !same_dedup_key(#[trigger] s[j], s[i])
}

/// The first `n` entries of `s`, keeping only first copies, in admission order.
pub open spec fn dedup_prefix(s: Seq<Finding>, n: int) -> Seq<Finding>
    decreases n,
{
    if n <= 0 {
        Seq::empty()
    } else if first_copy(s, n - 1) {
        dedup_prefix(s, n - 1).push(s[n - 1])
    } else {
        dedup_prefix(s, n - 1)
    }
}

/// The admission numbers that go with `dedup_prefix(s, n)`.
pub open spec fn dedup_admissions(s: Seq<Finding>, a: Seq<usize>, n: int) -> Seq<usize>
    decreases n,
{
    if n <= 0 {
        Seq::empty()
    } else if first_copy(s, n - 1) {
        dedup_admissions(s, a, n - 1).push(a[n - 1])
    } else {
        dedup_admissions(s, a, n - 1)
    }
}

/// `e + k`, held at `usize::MAX`.
pub open spec fn saturating_add_count(e: usize, k: int) -> usize {
    if e + k > usize::MAX {
        usize::MAX
    } else {
        (e + k) as usize
    }
}

/// `make` may be called on `t`.
pub open spec fn accepts<T, F: Fn(T) -> Finding>(make: F, t: T) -> bool {
    make.requires((t,))
}

/// `f` is a possible result of `make` on `t`.
pub open spec fn makes<T, F: Fn(T) -> Finding>(make: F, t: T, f: Finding) -> bool {
    make.ensures((t,), f)
}

/// `made[i]` came from `errors[idx[i]]`, the indices strictly increasing and below `k`.
pub open spec fn made_by<T, F: Fn(T) -> Finding>(
    make: F,
    errors: Seq<T>,
    idx: Seq<int>,
    made: Seq<Finding>,
    k: int,
) -> bool {
    &&& idx.len() == made.len()
    &&& forall|i: int, j: int| 0 <= i < j < idx.len() ==> idx[i] < idx[j]
    &&& forall|i: int|
        0 <= i < idx.len() ==> 0 <= #[trigger] idx[i] < k && make.ensures((errors[idx[i]],), made[i])
}

/// Each made diagnostic comes from a distinct error, in the errors' order.
pub open spec fn made_in_order<T, F: Fn(T) -> Finding>(
    make: F,
    errors: Seq<T>,
    made: Seq<Finding>,
) -> bool {
    exists|idx: Seq<int>| made_by(make, errors, idx, made, errors.len() as int)
}

/// Sharing an allowance is reflexive, symmetric and transitive.
pub proof fn lemma_shares_allowance(a: &Findings, b: &Findings, c: &Findings)
    ensures
        a.shares_allowance(a),
        a.shares_allowance(b) ==> b.shares_allowance(a),
        a.shares_allowance(b) && b.shares_allowance(c) ==> a.shares_allowance(c),
{
}

/// A live validation transcript. Its allowance is shared with every fork.
pub struct Findings {
    allowance: Rc<InvCell<ProductionAllowance, AllowanceBounds>>,
    execution: ExecutionBudget,
    retained: Vec<Finding>,
    admissions: Vec<usize>,
    errors: usize,
}

impl Findings {
    /// Each retained diagnostic has an admission number within the ceiling.
    pub closed spec fn wf(&self) -> bool {
        &&& self.retained@.len() == self.admissions@.len()
        &&& forall|i: int|
            0 <= i < self.admissions@.len() ==> 1 <= #[trigger] self.admissions@[i]
                <= DEFAULT_FINDINGS_LIMIT
    }

    /// The diagnostics retained by this transcript, in admission order.
    pub closed spec fn retained(&self) -> Seq<Finding> {
        self.retained@
    }

    /// The admission number of each retained diagnostic.
    pub closed spec fn admissions(&self) -> Seq<usize> {
        self.admissions@
    }

    /// Errors reported to this transcript, retained or not.
    pub closed spec fn errors(&self) -> usize {
        self.errors
    }

    /// The number of diagnostics the shared allowance admits, the marker included.
    pub closed spec fn limit(&self) -> usize {
        self.allowance.predicate().limit
    }

    /// Whether two transcripts draw on the same production allowance.
    pub closed spec fn shares_allowance(&self, other: &Findings) -> bool {
        self.allowance == other.allowance
    }

    pub fn new(limit: usize) -> (f: Self)
        ensures
            f.wf(),
            f.retained() == Seq::<Finding>::empty(),
            f.errors() == 0,
            f.limit() == clamped_limit(limit),
    {
        Self::with_execution(limit, ExecutionBudget::default())
    }

    pub fn with_execution(limit: usize, execution: ExecutionBudget) -> (f: Self)
        ensures
            f.wf(),
            f.retained() == Seq::<Finding>::empty(),
            f.errors() == 0,
            f.budget() == execution,
            f.limit() == clamped_limit(limit),
    {
        let limit = if limit < 1 {
            1
        } else if limit > DEFAULT_FINDINGS_LIMIT {
            DEFAULT_FINDINGS_LIMIT
        } else {
            limit
        };
        let start = ProductionAllowance { limit, produced: 0, incomplete: false, had_error: false };
        Findings {
            allowance: Rc::new(InvCell::new(start, Ghost(AllowanceBounds { limit }))),
            execution,
            retained: Vec::new(),
            admissions: Vec::new(),
            errors: 0,
        }
    }

    /// The command budget this transcript observes.
    pub closed spec fn budget(&self) -> ExecutionBudget {
        self.execution
    }

    /// The command budget this transcript observes.
    pub fn execution(&self) -> (r: &ExecutionBudget)
        ensures
            *r == self.budget(),
    {
        &self.execution
    }

    /// Isolated transcript, sharing the enclosing run's non-refundable allowance.
    pub fn fork(&self) -> (f: Self)
        requires
            self.wf(),
        ensures
            f.shares_allowance(self),
            f.retained() == Seq::<Finding>::empty(),
            f.errors() == 0,
    {
        Findings {
            allowance: Rc::clone(&self.allowance),
            execution: self.execution.clone(),
            retained: Vec::new(),
            admissions: Vec::new(),
            errors: 0,
        }
    }

    /// Stopped, or the shared allowance is exhausted. Both are shared state.
    pub fn cancelled(&self) -> bool {
        self.execution.checkpoint().is_err() || self.allowance.get().incomplete
    }

    pub fn had_error(&self) -> (r: bool)
        requires
            self.wf(),
        ensures
            r == (self.errors() != 0),
    {
        self.errors != 0
    }

    pub fn as_slice(&self) -> (s: &[Finding])
        requires
            self.wf(),
        ensures
            s@ == self.retained(),
    {
        self.retained.as_slice()
    }

    pub fn is_empty(&self) -> (r: bool)
        requires
            self.wf(),
        ensures
            r == (self.retained().len() == 0),
    {
        self.retained.len() == 0
    }

    pub fn len(&self) -> (n: usize)
        requires
            self.wf(),
        ensures
            n == self.retained().len(),
    {
        self.retained.len()
    }

    /// The retained diagnostics, in admission order.
    pub fn iter(&self) -> (it: std::slice::Iter<'_, Finding>)
        requires
            self.wf(),
        ensures
            vstd::std_specs::slice::into_iter_elts(it) == self.retained(),
    {
        let it = self.retained.as_slice().iter();
        proof {
            assert(vstd::std_specs::iter::IteratorSpec::remaining(&it).unref() =~= self.retained@);
        }
        it
    }

    /// Reports each error in order while the run is neither stopped nor out of
    /// allowance; consumes at most the remaining allowance plus one probe.
    pub fn collect_errors<T, F: Fn(T) -> Finding>(&mut self, errors: Vec<T>, make: F)
        requires
            old(self).wf(),
            forall|t: T| make.requires((t,)),
            forall|t: T, f: Finding| make.ensures((t,), f) ==> f.severity == Severity::Error,
        ensures
            final(self).wf(),
            final(self).shares_allowance(old(self)),
            final(self).retained().len() >= old(self).retained().len(),
            final(self).retained().take(old(self).retained().len() as int) == old(self).retained(),
            exists|k: int|
                0 <= k <= errors@.len() && final(self).errors() == saturating_add_count(
                    old(self).errors(),
                    k,
                ) && #[trigger] made_in_order(
                    make,
                    errors@.take(k),
                    final(self).retained().skip(old(self).retained().len() as int),
                ),
    {
        let ghost start = self.retained();
        let ghost start_errors = self.errors();
        let ghost all = errors@;
        let ghost mut idx: Seq<int> = Seq::empty();
        let mut pending = errors;
        let total: usize = pending.len();
        let mut k: usize = 0;
        while pending.len() > 0
            invariant
                self.wf(),
                self.shares_allowance(old(self)),
                forall|t: T| make.requires((t,)),
                forall|t: T, f: Finding| make.ensures((t,), f) ==> f.severity == Severity::Error,
                k + pending@.len() == all.len(),
                all.len() == total,
                pending@ == all.skip(k as int),
                self.retained().len() >= start.len(),
                self.retained().take(start.len() as int) == start,
                self.errors() == saturating_add_count(start_errors, k as int),
                made_by(make, all, idx, self.retained().skip(start.len() as int), k as int),
            decreases pending@.len(),
        {
            if self.cancelled() {
                break;
            }
            let error = pending.remove(0);
            let ghost before = self.retained();
            let one = || -> (f: Finding)
                requires
                    accepts(make, error),
                ensures
                    makes(make, error, f),
            { make(error) };
            let admitted = self.push_admitted(one);
            proof {
                if admitted {
                    let made = self.retained().skip(start.len() as int);
                    assert(made.drop_last() =~= before.skip(start.len() as int));
                    assert(all[k as int] == error);
                    idx = idx.push(k as int);
                    assert(self.retained().take(start.len() as int) =~= before.take(start.len() as int));
                } else {
                    assert(self.retained().skip(start.len() as int) =~= before.skip(start.len() as int));
                }
            }
            k = k + 1;
            proof {
                assert(pending@ =~= all.skip(k as int));
            }
        }
        proof {
            let tk = all.take(k as int);
            let made = self.retained().skip(start.len() as int);
            assert forall|i: int| 0 <= i < idx.len() implies 0 <= #[trigger] idx[i] < k
                && make.ensures((tk[idx[i]],), made[i]) by {
                assert(tk[idx[i]] == all[idx[i]]);
            }
            assert(made_by(make, tk, idx, made, tk.len() as int));
            assert(made_in_order(make, tk, made));
        }
    }

    /// Removes later copies of a diagnostic (same code, pointer and message),
    /// keeping the first admitted copy; the allowance is never refunded.
    pub fn sort_and_dedup(&mut self)
        requires
            old(self).wf(),
        ensures
            final(self).wf(),
            final(self).retained() == dedup_prefix(
                old(self).retained(),
                old(self).retained().len() as int,
            ),
            final(self).admissions() == dedup_admissions(
                old(self).retained(),
                old(self).admissions(),
                old(self).retained().len() as int,
            ),
            final(self).errors() == old(self).errors(),
            final(self).shares_allowance(old(self)),
    {
        let ghost s = self.retained@;
        let ghost a = self.admissions@;
        let mut kept: Vec<Finding> = Vec::new();
        let mut kept_admissions: Vec<usize> = Vec::new();
        let mut old_retained: Vec<Finding> = Vec::new();
        let mut old_admissions: Vec<usize> = Vec::new();
        std::mem::swap(&mut old_retained, &mut self.retained);
        std::mem::swap(&mut old_admissions, &mut self.admissions);
        let n = old_retained.len();
        let mut i: usize = 0;
        while i < n
            invariant
                n == s.len(),
                old_retained@ == s,
                old_admissions@ == a,
                a.len() == s.len(),
                forall|k: int| 0 <= k < a.len() ==> 1 <= #[trigger] a[k] <= DEFAULT_FINDINGS_LIMIT,
                i <= n,
                kept@ == dedup_prefix(s, i as int),
                kept_admissions@ == dedup_admissions(s, a, i as int),
                kept@.len() == kept_admissions@.len(),
                forall|k: int|
                    0 <= k < kept_admissions@.len() ==> 1 <= #[trigger] kept_admissions@[k]
                        <= DEFAULT_FINDINGS_LIMIT,
            decreases n - i,
        {
            let mut duplicate = false;
            let mut j: usize = 0;
            while j < i
                invariant
                    i < n,
                    n == s.len(),
                    old_retained@ == s,
                    j <= i,
                    duplicate == exists|k: int| 0 <= k < j && same_dedup_key(s[k], s[i as int]),
                decreases i - j,
            {
                let a_f = &old_retained[j];
                let b_f = &old_retained[i];
                if str_eq(a_f.error_code, b_f.error_code) && str_eq(
                    a_f.json_pointer.as_str(),
                    b_f.json_pointer.as_str(),
                ) && str_eq(a_f.message.as_str(), b_f.message.as_str()) {
                    duplicate = true;
                }
                j = j + 1;
            }
            if !duplicate {
                let f = old_retained[i].clone_finding();
                kept.push(f);
                kept_admissions.push(old_admissions[i]);
            }
            i = i + 1;
        }
        self.retained = kept;
        self.admissions = kept_admissions;
    }

    /// Admits one diagnostic under the shared allowance; reports whether it was kept.
    fn emit_inner<F: FnOnce() -> Finding>(&mut self, severity: Severity, make: F) -> (admitted: bool)
        requires
            old(self).wf(),
            make.requires(()),
            forall|f: Finding| make.ensures((), f) ==> f.severity == severity,
        ensures
            final(self).wf(),
            final(self).errors() == saturating_inc(
                old(self).errors(),
                severity == Severity::Error,
            ),
            final(self).shares_allowance(old(self)),
            admitted ==> final(self).retained().len() == old(self).retained().len() + 1
                && final(self).retained().drop_last() == old(self).retained()
                && make.ensures((), final(self).retained().last())
                && final(self).admissions().drop_last() == old(self).admissions(),
            !admitted ==> final(self).retained() == old(self).retained() && final(self).admissions() == old(self).admissions(),
            exists|a: ProductionAllowance, running: bool| a.limit == old(self).limit() && a.produced <= a.limit
                && admitted == (#[trigger] admission(a, running, severity)).1
                && (admitted ==> final(self).admissions().last() == admission(a, running, severity).0.produced),
    {
        if severity.is_error() {
            self.errors = self.errors.saturating_add(1);
        }
        if self.execution.checkpoint().is_err() {
            let ghost a = ProductionAllowance { limit: self.limit(), produced: 0, incomplete: false, had_error: false };
            assert(!admission(a, false, severity).1);
            return false;
        }
        let b = self.allowance.get();
        let (next, admitted) = admission_step(b, true, severity);
        self.allowance.set(next);
        assert(b.limit == old(self).limit());
        assert(admitted == admission(b, true, severity).1);
        if !admitted {
            return false;
        }
        let admission = next.produced;
        let finding = make();
        self.retained.push(finding);
        self.admissions.push(admission);
        assert(self.retained@.drop_last() =~= old(self).retained@);
        assert(self.admissions@.drop_last() =~= old(self).admissions@);
        true
    }

    /// Severity is supplied before conversion so even an unretained error is sticky.
    /// The first excess diagnostic is a bounded probe; its message is never built.
    pub fn emit<F: FnOnce() -> Finding>(&mut self, severity: Severity, make: F)
        requires
            old(self).wf(),
            make.requires(()),
            forall|f: Finding| make.ensures((), f) ==> f.severity == severity,
        ensures
            final(self).wf(),
            final(self).errors() == saturating_inc(
                old(self).errors(),
                severity == Severity::Error,
            ),
            final(self).shares_allowance(old(self)),
            final(self).retained() == old(self).retained() || (final(self).retained().len()
                == old(self).retained().len() + 1 && final(self).retained().drop_last() == old(self).retained() && make.ensures((), final(self).retained().last())),
            exists|a: ProductionAllowance, running: bool| a.limit == old(self).limit() && a.produced <= a.limit
                && (final(self).retained().len() == old(self).retained().len() + 1) == (#[trigger] admission(a, running, severity)).1,
    {
        let _ = self.emit_inner(severity, make);
    }

    /// Reports an error diagnostic.
    pub fn push<F: FnOnce() -> Finding>(&mut self, make: F)
        requires
            old(self).wf(),
            make.requires(()),
            forall|f: Finding| make.ensures((), f) ==> f.severity == Severity::Error,
        ensures
            final(self).wf(),
            final(self).errors() == saturating_inc(old(self).errors(), true),
            final(self).shares_allowance(old(self)),
            final(self).retained() == old(self).retained() || (final(self).retained().len()
                == old(self).retained().len() + 1 && final(self).retained().drop_last() == old(self).retained() && make.ensures((), final(self).retained().last())),
            exists|a: ProductionAllowance, running: bool| a.limit == old(self).limit() && a.produced <= a.limit
                && (final(self).retained().len() == old(self).retained().len() + 1) == (#[trigger] admission(a, running, Severity::Error)).1,
    {
        let _ = self.emit_inner(Severity::Error, make);
    }

    /// Reports an error diagnostic; true when it was retained.
    pub fn push_admitted<F: FnOnce() -> Finding>(&mut self, make: F) -> (admitted: bool)
        requires
            old(self).wf(),
            make.requires(()),
            forall|f: Finding| make.ensures((), f) ==> f.severity == Severity::Error,
        ensures
            final(self).wf(),
            final(self).errors() == saturating_inc(old(self).errors(), true),
            final(self).shares_allowance(old(self)),
            admitted ==> final(self).retained().len() == old(self).retained().len() + 1
                && final(self).retained().drop_last() == old(self).retained()
                && make.ensures((), final(self).retained().last()),
            !admitted ==> final(self).retained() == old(self).retained(),
            exists|a: ProductionAllowance, running: bool| a.limit == old(self).limit() && a.produced <= a.limit
                && admitted == (#[trigger] admission(a, running, Severity::Error)).1,
    {
        self.emit_inner(Severity::Error, make)
    }

    /// The most recently retained diagnostic.
    pub fn last(&self) -> (f: &Finding)
        requires
            self.wf(),
            self.retained().len() > 0,
        ensures
            *f == self.retained().last(),
    {
        &self.retained[self.retained.len() - 1]
    }

    /// Move already charged findings, without granting or debiting a fresh budget.
    pub fn absorb(&mut self, other: Self)
        requires
            old(self).wf(),
            other.wf(),
            old(self).shares_allowance(&other),
        ensures
            final(self).wf(),
            final(self).retained() == old(self).retained() + other.retained(),
            final(self).admissions() == old(self).admissions() + other.admissions(),
            final(self).errors() == saturating_sum(old(self).errors(), other.errors()),
            final(self).shares_allowance(old(self)),
    {
        let Findings { allowance: _, execution: _, retained, admissions, errors } = other;
        self.errors = self.errors.saturating_add(errors);
        let mut retained = retained;
        let mut admissions = admissions;
        self.retained.append(&mut retained);
        self.admissions.append(&mut admissions);
    }

    /// The retained findings, whether an error was reported, and completeness.
    pub fn finish(self) -> (r: (Vec<Finding>, bool, bool))
        requires
            self.wf(),
        ensures
            exists|o: FindingOutput, f: FindingOutput|
                o.retained() == self.retained() && o.admissions() == self.admissions() && o.limit() == self.limit()
                    && #[trigger] o.settles_to(f)
                    && f.retained() == r.0@ && f.had_error() == r.1 && r.2 == (!f.incomplete()
                    && f.stop() is None),
    {
        let mut output = self.into_output();
        let ghost before = output;
        output.finalize_marker();
        assert(before.settles_to(output));
        let FindingOutput { stop, retained, admissions: _, limit: _, produced: _, incomplete, had_error } = output;
        (retained, had_error, !incomplete && stop.is_none())
    }

    /// Freeze the transcript with the allowance state and any stop observed now.
    pub fn into_output(self) -> (o: FindingOutput)
        requires
            self.wf(),
        ensures
            o.wf(),
            o.retained() == self.retained(),
            o.admissions() == self.admissions(),
            o.limit() == self.limit(),
    {
        let stop = match self.execution.checkpoint() {
            Result::Ok(()) => None,
            Result::Err(s) => Some(s),
        };
        let b = self.allowance.get();
        let Findings { allowance: _, execution: _, retained, admissions, errors: _ } = self;
        FindingOutput {
            stop,
            retained,
            admissions,
            limit: b.limit,
            produced: b.produced,
            incomplete: b.incomplete,
            had_error: b.had_error,
        }
    }
}

/// A finalized validation transcript with its original, non-refundable allowance.
pub struct FindingOutput {
    stop: Option<ExecutionStop>,
    retained: Vec<Finding>,
    admissions: Vec<usize>,
    limit: usize,
    produced: usize,
    incomplete: bool,
    had_error: bool,
}

/// The severity, then the source file, then the pointer, then the code.
pub open spec fn source_lt(a: Option<ProjectPath>, b: Option<ProjectPath>) -> bool {
    match (a, b) {
        (None, Some(_)) => true,
        (Some(p), Some(q)) => bytes_lt(encode_utf8(p@), encode_utf8(q@)),
        _ => false,
    }
}

/// Presentation order of findings.
pub open spec fn finding_lt(a: Finding, b: Finding) -> bool {
    let pa = encode_utf8(a.json_pointer@);
    let pb = encode_utf8(b.json_pointer@);
    let ca = a.error_code.spec_bytes();
    let cb = b.error_code.spec_bytes();
    if severity_rank(a.severity) != severity_rank(b.severity) {
        severity_rank(a.severity) < severity_rank(b.severity)
    } else if source_lt(a.source_file, b.source_file) {
        true
    } else if source_lt(b.source_file, a.source_file) {
        false
    } else if bytes_lt(pa, pb) {
        true
    } else if bytes_lt(pb, pa) {
        false
    } else {
        bytes_lt(ca, cb)
    }
}

/// Non-decreasing in presentation order.
pub open spec fn presentation_sorted(s: Seq<Finding>) -> bool {
    forall|i: int, j: int| 0 <= i < j < s.len() ==> !finding_lt(#[trigger] s[j], #[trigger] s[i])
}

/// Each finding paired with its admission number.
pub open spec fn paired(r: Seq<Finding>, a: Seq<usize>) -> Seq<(Finding, usize)> {
    Seq::new(r.len(), |i: int| (r[i], a[i]))
}

/// Index of the last maximal admission number.
pub open spec fn last_max_index(a: Seq<usize>) -> int
    decreases a.len(),
{
    if a.len() <= 1 {
        0
    } else {
        let k = last_max_index(a.drop_last());
        if a.last() >= a[k] {
            a.len() - 1
        } else {
            k
        }
    }
}

/// The marker appended to a truncated transcript.
pub open spec fn is_truncation_marker(f: Finding) -> bool {
    &&& f.error_code@ == truncation_code()
    &&& f.finding_family@ == "finding_truncation"@
    &&& f.severity == Severity::Warning
    &&& f.source_file is None
    &&& f.json_pointer@ == Seq::<char>::empty()
}

/// The terminal finding of a stop, as `ExecutionStop::finding` makes it.
pub open spec fn is_stop_finding(f: Finding, stop: ExecutionStop) -> bool {
    &&& f.schema@ == "rp/finding/v1"@
    &&& f.severity == Severity::Error
    &&& f.source_file is None
    &&& f.json_pointer@ == Seq::<char>::empty()
    &&& stop == ExecutionStop::Deadline ==> f.error_code@ == "RP_E_RESOURCE_DEADLINE_EXCEEDED"@
        && f.finding_family@ == "resource_limit"@
    &&& stop == ExecutionStop::Interrupted ==> f.error_code@ == "RP_E_INTERRUPTED"@
        && f.finding_family@ == "interrupted"@
    &&& f.message@ == crate::finding::sanitized(crate::execution::stop_message(stop))
}

pub open spec fn has_truncation_marker(s: Seq<Finding>) -> bool {
    exists|i: int| 0 <= i < s.len() && (#[trigger] s[i]).error_code@ == truncation_code()
}

impl FindingOutput {
    /// Each retained diagnostic has an admission number; production within the limit.
    pub closed spec fn wf(&self) -> bool {
        &&& self.retained@.len() == self.admissions@.len()
        &&& 1 <= self.limit
        &&& self.produced <= self.limit
    }

    pub closed spec fn retained(&self) -> Seq<Finding> {
        self.retained@
    }

    pub closed spec fn admissions(&self) -> Seq<usize> {
        self.admissions@
    }

    pub closed spec fn stop(&self) -> Option<ExecutionStop> {
        self.stop
    }

    pub closed spec fn limit(&self) -> usize {
        self.limit
    }

    pub closed spec fn produced(&self) -> usize {
        self.produced
    }

    pub closed spec fn incomplete(&self) -> bool {
        self.incomplete
    }

    pub closed spec fn had_error(&self) -> bool {
        self.had_error
    }

    /// `new` is this transcript with its stop or truncation marker settled: a stop
    /// replaces everything with its terminal finding; an exhausted allowance adds
    /// one marker, evicting the latest admission when the transcript is full.
    pub open spec fn settles_to(self, new: FindingOutput) -> bool {
        let old = self;
        &&& new.limit() == old.limit()
        &&& new.produced() == old.produced()
        &&& new.incomplete() == old.incomplete()
        &&& new.stop() == old.stop()
        &&& if let Some(s) = old.stop() {
            &&& new.retained().len() == 1
            &&& is_stop_finding(new.retained()[0], s)
            &&& new.admissions() == seq![usize::MAX]
            &&& new.had_error()
        } else if !old.incomplete() || has_truncation_marker(old.retained()) {
            &&& new.retained() == old.retained()
            &&& new.admissions() == old.admissions()
            &&& new.had_error() == old.had_error()
        } else {
            let full = old.retained().len() == old.limit();
            let k = last_max_index(old.admissions());
            let base_r = if full {
                old.retained().remove(k)
            } else {
                old.retained()
            };
            let base_a = if full {
                old.admissions().remove(k)
            } else {
                old.admissions()
            };
            &&& new.retained().len() == base_r.len() + 1
            &&& new.retained().drop_last() == base_r
            &&& is_truncation_marker(new.retained().last())
            &&& new.admissions() == base_a.push(usize::MAX)
            &&& new.had_error() == old.had_error()
        }
    }
}


/// Index of the last maximal admission number.
fn last_max_position(a: &Vec<usize>) -> (k: usize)
    requires
        a@.len() > 0,
    ensures
        k == last_max_index(a@),
        k < a@.len(),
{
    let mut k: usize = 0;
    let mut i: usize = 1;
    while i < a.len()
        invariant
            1 <= i <= a@.len(),
            k == last_max_index(a@.take(i as int)),
            k < i,
        decreases a.len() - i,
    {
        assert(a@.take(i + 1).drop_last() =~= a@.take(i as int));
        if a[i] >= a[k] {
            k = i;
        }
        i = i + 1;
    }
    assert(a@.take(i as int) =~= a@);
    k
}

proof fn lemma_source_lt_irreflexive(a: Option<ProjectPath>)
    ensures
        !source_lt(a, a),
{
    if let Some(p) = a {
        crate::text::lemma_bytes_lt_irreflexive(encode_utf8(p@));
    }
}

proof fn lemma_source_lt_transitive(a: Option<ProjectPath>, b: Option<ProjectPath>, c: Option<ProjectPath>)
    requires
        source_lt(a, b),
        source_lt(b, c),
    ensures
        source_lt(a, c),
{
    if let (Some(p), Some(q), Some(r)) = (a, b, c) {
        crate::text::lemma_bytes_lt_transitive(encode_utf8(p@), encode_utf8(q@), encode_utf8(r@));
    }
}

/// The text of a source file, if any.
pub open spec fn source_key(a: Option<ProjectPath>) -> Option<Seq<char>> {
    match a {
        Some(p) => Some(p@),
        None => None,
    }
}

/// Neither precedes the other: the two sources have the same text.
proof fn lemma_source_lt_total(a: Option<ProjectPath>, b: Option<ProjectPath>)
    ensures
        source_lt(a, b) || source_lt(b, a) || source_key(a) == source_key(b),
{
    if let (Some(p), Some(q)) = (a, b) {
        crate::text::lemma_bytes_lt_total(encode_utf8(p@), encode_utf8(q@));
        crate::text::lemma_utf8_injective(p@, q@);
    }
}

proof fn lemma_finding_lt_irreflexive(a: Finding)
    ensures
        !finding_lt(a, a),
{
    lemma_source_lt_irreflexive(a.source_file);
    crate::text::lemma_bytes_lt_irreflexive(encode_utf8(a.json_pointer@));
    crate::text::lemma_bytes_lt_irreflexive(a.error_code.spec_bytes());
}

proof fn lemma_finding_lt_transitive(a: Finding, b: Finding, c: Finding)
    requires
        finding_lt(a, b),
        finding_lt(b, c),
    ensures
        finding_lt(a, c),
{
    let (sa, sb, sc) = (a.source_file, b.source_file, c.source_file);
    let (pa, pb, pc) = (encode_utf8(a.json_pointer@), encode_utf8(b.json_pointer@), encode_utf8(c.json_pointer@));
    let (ca, cb, cc) = (a.error_code.spec_bytes(), b.error_code.spec_bytes(), c.error_code.spec_bytes());
    lemma_source_lt_total(sa, sb);
    lemma_source_lt_total(sb, sc);
    lemma_source_lt_total(sa, sc);
    crate::text::lemma_bytes_lt_total(pa, pb);
    crate::text::lemma_bytes_lt_total(pb, pc);
    crate::text::lemma_bytes_lt_total(pa, pc);
    lemma_source_lt_irreflexive(sa);
    crate::text::lemma_bytes_lt_irreflexive(pa);
    if source_lt(sa, sb) && source_lt(sb, sc) {
        lemma_source_lt_transitive(sa, sb, sc);
    }
    if bytes_lt(pa, pb) && bytes_lt(pb, pc) {
        crate::text::lemma_bytes_lt_transitive(pa, pb, pc);
    }
    if bytes_lt(ca, cb) && bytes_lt(cb, cc) {
        crate::text::lemma_bytes_lt_transitive(ca, cb, cc);
    }
    if source_lt(sb, sa) && source_lt(sa, sc) {
        lemma_source_lt_transitive(sb, sa, sc);
    }
    if source_lt(sa, sc) && source_lt(sc, sb) {
        lemma_source_lt_transitive(sa, sc, sb);
    }
    if bytes_lt(pb, pa) && bytes_lt(pa, pc) {
        crate::text::lemma_bytes_lt_transitive(pb, pa, pc);
    }
    if bytes_lt(pa, pc) && bytes_lt(pc, pb) {
        crate::text::lemma_bytes_lt_transitive(pa, pc, pb);
    }
}

fn source_order(a: &Option<ProjectPath>, b: &Option<ProjectPath>) -> (r: i8)
    ensures
        r < 0 <==> source_lt(*a, *b),
        r > 0 <==> source_lt(*b, *a),
{
    match (a, b) {
        (None, None) => 0,
        (None, Some(_)) => -1,
        (Some(_), None) => 1,
        (Some(p), Some(q)) => compare_bytes(p.as_str().as_bytes(), q.as_str().as_bytes()),
    }
}

/// Whether `a` precedes `b` in presentation order.
pub fn finding_precedes(a: &Finding, b: &Finding) -> (r: bool)
    ensures
        r == finding_lt(*a, *b),
{
    let ra = a.severity.rank();
    let rb = b.severity.rank();
    if ra != rb {
        return ra < rb;
    }
    let s = source_order(&a.source_file, &b.source_file);
    if s != 0 {
        return s < 0;
    }
    let p = compare_bytes(a.json_pointer.as_str().as_bytes(), b.json_pointer.as_str().as_bytes());
    if p != 0 {
        return p < 0;
    }
    compare_bytes(a.error_code.as_bytes(), b.error_code.as_bytes()) < 0
}

/// Stable insertion of `x` after every entry that does not follow it.
fn insert_sorted(sorted: &mut Vec<(Finding, usize)>, x: (Finding, usize))
    requires
        presentation_sorted(old(sorted)@.map_values(|p: (Finding, usize)| p.0)),
    ensures
        presentation_sorted(final(sorted)@.map_values(|p: (Finding, usize)| p.0)),
        final(sorted)@.to_multiset() == old(sorted)@.to_multiset().insert(x),
{
    let ghost keys = sorted@.map_values(|p: (Finding, usize)| p.0);
    let mut p: usize = 0;
    while p < sorted.len() && !finding_precedes(&x.0, &sorted[p].0)
        invariant
            p <= sorted@.len(),
            keys == sorted@.map_values(|p: (Finding, usize)| p.0),
            forall|k: int| 0 <= k < p ==> !finding_lt(x.0, #[trigger] keys[k]),
        decreases sorted.len() - p,
    {
        p = p + 1;
    }
    proof {
        vstd::seq_lib::to_multiset_insert(sorted@, p as int, x);
    }
    sorted.insert(p, x);
    let ghost new_keys = sorted@.map_values(|q: (Finding, usize)| q.0);
    assert(new_keys =~= keys.insert(p as int, x.0));
    assert forall|i: int, j: int| 0 <= i < j < new_keys.len() implies !finding_lt(
        #[trigger] new_keys[j],
        #[trigger] new_keys[i],
    ) by {
        lemma_finding_lt_irreflexive(x.0);
        if i < p && j == p {
        } else if i == p && j > p {
            if finding_lt(new_keys[j], x.0) {
                assert(new_keys[j] == keys[j - 1]);
                assert(p < keys.len());
                assert(finding_lt(x.0, keys[p as int]));
                if j - 1 > p {
                    assert(!finding_lt(keys[j - 1], keys[p as int]));
                }
                lemma_finding_lt_transitive(keys[j - 1], x.0, keys[p as int]);
                lemma_finding_lt_irreflexive(keys[p as int]);
            }
        } else if i < p && j < p {
        } else if i < p && j > p {
            assert(new_keys[j] == keys[j - 1]);
        } else {
            assert(new_keys[j] == keys[j - 1]);
            assert(new_keys[i] == keys[i - 1]);
        }
    }
}

impl FindingOutput {
    fn truncation_marker() -> (f: Finding)
        ensures
            is_truncation_marker(f),
    {
        proof {
            reveal_strlit("");
            reveal_strlit("RP_W_FINDINGS_TRUNCATED");
            reveal_strlit("finding_truncation");
        }
        let f = Finding::new(
            "RP_W_FINDINGS_TRUNCATED",
            "finding_truncation",
            Severity::Warning,
            "findings production limit exceeded; validation is incomplete",
            None,
            "",
        );
        assert(f.error_code@ == truncation_code());
        assert(f.finding_family@ == "finding_truncation"@);
        assert(f.json_pointer@ == Seq::<char>::empty());
        f
    }

    fn has_marker(&self) -> (r: bool)
        requires
            self.wf(),
        ensures
            r == has_truncation_marker(self.retained@),
    {
        let mut i: usize = 0;
        while i < self.retained.len()
            invariant
                i <= self.retained@.len(),
                forall|k: int| 0 <= k < i ==> (#[trigger] self.retained@[k]).error_code@ != truncation_code(),
            decreases self.retained.len() - i,
        {
            if str_eq(self.retained[i].error_code, "RP_W_FINDINGS_TRUNCATED") {
                proof { reveal_strlit("RP_W_FINDINGS_TRUNCATED"); }
                return true;
            }
            i = i + 1;
        }
        false
    }

    /// Settles the stop or truncation marker (see `settles_to`).
    pub fn finalize_marker(&mut self)
        requires
            old(self).wf(),
        ensures
            final(self).wf(),
            old(self).settles_to(*final(self)),
    {
        let ghost before = *self;
        if let Some(stop) = self.stop {
            let f = stop.finding();
            let mut r: Vec<Finding> = Vec::new();
            r.push(f);
            let mut a: Vec<usize> = Vec::new();
            a.push(usize::MAX);
            self.retained = r;
            self.admissions = a;
            self.had_error = true;
            assert(self.admissions@ =~= seq![usize::MAX]);
            return;
        }
        if !self.incomplete || self.has_marker() {
            return;
        }
        if self.retained.len() == self.limit {
            let position = last_max_position(&self.admissions);
            self.retained.remove(position);
            self.admissions.remove(position);
        }
        let ghost base_r = self.retained@;
        let ghost base_a = self.admissions@;
        self.retained.push(Self::truncation_marker());
        assert(self.retained@.drop_last() =~= base_r);
        self.admissions.push(usize::MAX);
    }

    /// Append a command-local error using the enclosing validation allowance.
    pub fn push_error<F: FnOnce() -> Finding>(&mut self, make: F)
        requires
            old(self).wf(),
            make.requires(()),
            forall|f: Finding| make.ensures((), f) ==> f.severity == Severity::Error,
        ensures
            final(self).wf(),
            final(self).had_error(),
            final(self).stop() == old(self).stop(),
            final(self).limit() == old(self).limit(),
            if old(self).incomplete() || old(self).stop() is Some {
                final(self).retained() == old(self).retained() && final(self).admissions() == old(self).admissions()
                    && final(self).incomplete() == old(self).incomplete()
                    && final(self).produced() == old(self).produced()
            } else if old(self).produced() == old(self).limit() {
                final(self).retained() == old(self).retained() && final(self).admissions() == old(self).admissions()
                    && final(self).incomplete()
                    && final(self).produced() == old(self).produced()
            } else {
                final(self).retained().len() == old(self).retained().len() + 1
                    && final(self).retained().drop_last() == old(self).retained()
                    && make.ensures((), final(self).retained().last())
                    && final(self).admissions() == old(self).admissions().push((old(self).produced() + 1) as usize)
                    && final(self).produced() == old(self).produced() + 1
                    && final(self).incomplete() == old(self).incomplete()
            },
    {
        self.had_error = true;
        if self.incomplete || self.stop.is_some() {
            return;
        }
        if self.produced == self.limit {
            self.incomplete = true;
            return;
        }
        self.produced = self.produced + 1;
        let finding = make();
        self.retained.push(finding);
        self.admissions.push(self.produced);
        assert(self.retained@.drop_last() =~= old(self).retained@);
    }

    /// Nothing was reported and nothing stopped or truncated the transcript.
    pub fn is_empty(&self) -> (r: bool)
        requires
            self.wf(),
        ensures
            r == (self.stop() is None && !self.incomplete() && !self.had_error()
                && self.retained().len() == 0),
    {
        self.stop.is_none() && !self.incomplete && !self.had_error && self.retained.len() == 0
    }

    /// Stable presentation sort, keeping each finding with its admission number.
    pub fn sort(&mut self)
        requires
            old(self).wf(),
        ensures
            final(self).wf(),
            presentation_sorted(final(self).retained()),
            paired(final(self).retained(), final(self).admissions()).to_multiset() == paired(
                old(self).retained(),
                old(self).admissions(),
            ).to_multiset(),
            final(self).stop() == old(self).stop(),
            final(self).limit() == old(self).limit(),
            final(self).produced() == old(self).produced(),
            final(self).incomplete() == old(self).incomplete(),
            final(self).had_error() == old(self).had_error(),
    {
        let ghost original = paired(self.retained@, self.admissions@);
        // Take the pairs out in reverse, so popping again yields admission order.
        let mut reversed: Vec<(Finding, usize)> = Vec::new();
        let mut retained: Vec<Finding> = Vec::new();
        let mut admissions: Vec<usize> = Vec::new();
        std::mem::swap(&mut retained, &mut self.retained);
        std::mem::swap(&mut admissions, &mut self.admissions);
        while retained.len() > 0
            invariant
                retained@.len() == admissions@.len(),
                reversed@.to_multiset().add(paired(retained@, admissions@).to_multiset())
                    == original.to_multiset(),
            decreases retained.len(),
        {
            let ghost before = paired(retained@, admissions@);
            let f = retained.pop().unwrap();
            let a = admissions.pop().unwrap();
            proof {
                assert(before =~= paired(retained@, admissions@).push((f, a)));
            }
            reversed.push((f, a));
        }
        let mut sorted: Vec<(Finding, usize)> = Vec::new();
        while reversed.len() > 0
            invariant
                presentation_sorted(sorted@.map_values(|p: (Finding, usize)| p.0)),
                sorted@.to_multiset().add(reversed@.to_multiset()) == original.to_multiset(),
            decreases reversed.len(),
        {
            let ghost before = reversed@;
            let x = reversed.pop().unwrap();
            assert(before =~= reversed@.push(x));
            insert_sorted(&mut sorted, x);
        }
        // Unzip, preserving order.
        let mut out_r: Vec<Finding> = Vec::new();
        let mut out_a: Vec<usize> = Vec::new();
        let ghost s = sorted@;
        let mut rest = sorted;
        assert(paired(out_r@, out_a@) + rest@ =~= s);
        while rest.len() > 0
            invariant
                out_r@.len() == out_a@.len(),
                paired(out_r@, out_a@) + rest@ == s,
            decreases rest.len(),
        {
            let ghost prev_r = out_r@;
            let ghost prev_a = out_a@;
            let ghost rest_before = rest@;
            let (f, a) = rest.remove(0);
            out_r.push(f);
            out_a.push(a);
            assert(paired(out_r@, out_a@) =~= paired(prev_r, prev_a).push((f, a)));
            assert(rest_before =~= seq![(f, a)] + rest@);
            assert(paired(out_r@, out_a@) + rest@ =~= paired(prev_r, prev_a) + rest_before);
        }
        assert(paired(out_r@, out_a@) =~= s);
        assert(out_r@ =~= s.map_values(|p: (Finding, usize)| p.0));
        self.retained = out_r;
        self.admissions = out_a;
    }
}

impl FindingOutput {
    /// The displayed transcript: marker settled, then presentation-sorted.
    pub fn into_findings(self) -> (r: Vec<Finding>)
        requires
            self.wf(),
        ensures
            exists|f: FindingOutput|
                #[trigger] self.settles_to(f) && presentation_sorted(r@) && r@.to_multiset()
                    == f.retained().to_multiset(),
    {
        let mut out = self;
        let ghost before = out;
        out.finalize_marker();
        let ghost settled = out;
        out.sort();
        proof {
            lemma_paired_keys(out.retained(), out.admissions(), settled.retained(), settled.admissions());
        }
        let FindingOutput { stop: _, retained, admissions: _, limit: _, produced: _, incomplete: _, had_error: _ } = out;
        retained
    }

    /// Displayed findings and the retained allowance state, with error and completeness.
    pub fn report_parts(self) -> (r: (Vec<Finding>, FindingOutput, bool, bool))
        requires
            self.wf(),
        ensures
            1 <= r.1.limit(),
            r.1.produced() <= r.1.limit(),
            r.1.retained().len() == 0,
            r.0@.len() == r.1.admissions().len(),
            presentation_sorted(r.0@),
            r.2 == r.1.had_error(),
            r.3 == (!r.1.incomplete() && r.1.stop() is None),
            exists|f: FindingOutput|
                #[trigger] self.settles_to(f) && paired(r.0@, r.1.admissions()).to_multiset()
                    == paired(f.retained(), f.admissions()).to_multiset() && r.1.had_error()
                    == f.had_error() && r.1.incomplete() == f.incomplete() && r.1.stop() == f.stop()
                    && r.1.produced() == f.produced() && r.1.limit() == f.limit(),
    {
        let mut out = self;
        out.finalize_marker();
        out.sort();
        let mut findings: Vec<Finding> = Vec::new();
        std::mem::swap(&mut findings, &mut out.retained);
        let error = out.had_error;
        let complete = !out.incomplete && out.stop.is_none();
        (findings, out, error, complete)
    }

    /// Reattach displayed findings to their allowance state, without a fresh budget.
    pub fn restore(self, findings: Vec<Finding>) -> (r: FindingOutput)
        requires
            findings@.len() == self.admissions().len(),
            1 <= self.limit(),
            self.produced() <= self.limit(),
        ensures
            r.wf(),
            r.retained() == findings@,
            r.admissions() == self.admissions(),
            r.stop() == self.stop(),
            r.limit() == self.limit(),
            r.produced() == self.produced(),
            r.incomplete() == self.incomplete(),
            r.had_error() == self.had_error(),
    {
        let mut out = self;
        out.retained = findings;
        out
    }
}

/// Equal multisets stay equal under a projection of their elements.
proof fn lemma_first_multiset(s1: Seq<(Finding, usize)>, s2: Seq<(Finding, usize)>)
    requires
        s1.to_multiset() == s2.to_multiset(),
    ensures
        s1.map_values(|p: (Finding, usize)| p.0).to_multiset() == s2.map_values(
            |p: (Finding, usize)| p.0,
        ).to_multiset(),
    decreases s1.len(),
{
    let f = |p: (Finding, usize)| p.0;
    if s1.len() == 0 {
        vstd::seq_lib::to_multiset_len(s1);
        vstd::seq_lib::to_multiset_len(s2);
        assert(s2.len() == 0);
        assert(s1.map_values(f) =~= s2.map_values(f));
    } else {
        let x = s1.last();
        assert(s1.to_multiset().count(x) > 0) by {
            assert(s1.contains(x)) by {
                assert(s1[s1.len() - 1] == x);
            }
        }
        assert(s2.contains(x));
        let i = choose|i: int| 0 <= i < s2.len() && s2[i] == x;
        let t1 = s1.drop_last();
        let t2 = s2.remove(i);
        assert(s1 =~= t1.push(x));
        assert(t1.to_multiset() =~= s1.to_multiset().remove(x));
        assert(t2.to_multiset() =~= s2.to_multiset().remove(x));
        lemma_first_multiset(t1, t2);
        assert(s1.map_values(f) =~= t1.map_values(f).push(x.0));
        assert(t2.map_values(f) =~= s2.map_values(f).remove(i));
        assert(s2.map_values(f)[i] == x.0);
        assert(t2.map_values(f).to_multiset() =~= s2.map_values(f).to_multiset().remove(x.0));
        assert(s2.map_values(f).to_multiset().count(x.0) > 0) by {
            assert(s2.map_values(f).contains(x.0));
        }
    }
}

proof fn lemma_paired_keys(r: Seq<Finding>, a: Seq<usize>, r0: Seq<Finding>, a0: Seq<usize>)
    requires
        r.len() == a.len(),
        r0.len() == a0.len(),
        paired(r, a).to_multiset() == paired(r0, a0).to_multiset(),
    ensures
        r.to_multiset() == r0.to_multiset(),
{
    lemma_first_multiset(paired(r, a), paired(r0, a0));
    assert(paired(r, a).map_values(|p: (Finding, usize)| p.0) =~= r);
    assert(paired(r0, a0).map_values(|p: (Finding, usize)| p.0) =~= r0);
}

impl Default for Findings {
    fn default() -> (f: Self)
        ensures
            f.wf(),
            f.retained().len() == 0,
            f.errors() == 0,
    {
        Findings::new(DEFAULT_FINDINGS_LIMIT)
    }
}


/// What presentation order compares: severity rank, source file bytes (none first),
/// pointer bytes and code bytes.
pub open spec fn presentation_key(f: Finding) -> (int, Option<Seq<u8>>, Seq<u8>, Seq<u8>) {
    (
        severity_rank(f.severity),
        match f.source_file {
            Some(p) => Some(encode_utf8(p@)),
            None => None,
        },
        encode_utf8(f.json_pointer@),
        f.error_code.spec_bytes(),
    )
}

/// The findings of `s` whose presentation key is `k`, in their order in `s`.
pub open spec fn keyed(s: Seq<Finding>, k: (int, Option<Seq<u8>>, Seq<u8>, Seq<u8>)) -> Seq<Finding>
    decreases s.len(),
{
    if s.len() == 0 {
        Seq::empty()
    } else if presentation_key(s.last()) == k {
        keyed(s.drop_last(), k).push(s.last())
    } else {
        keyed(s.drop_last(), k)
    }
}

/// Findings with one presentation key compare alike with every finding.
proof fn lemma_key_congruent(a: Finding, b: Finding, c: Finding)
    requires
        presentation_key(a) == presentation_key(b),
    ensures
        finding_lt(a, c) == finding_lt(b, c),
        finding_lt(c, a) == finding_lt(c, b),
{
    assert(a.source_file is None <==> b.source_file is None);
}

proof fn lemma_keyed_add(a: Seq<Finding>, b: Seq<Finding>, k: (int, Option<Seq<u8>>, Seq<u8>, Seq<u8>))
    ensures
        keyed(a + b, k) == keyed(a, k) + keyed(b, k),
    decreases b.len(),
{
    if b.len() == 0 {
        assert(a + b =~= a);
        assert(keyed(a, k) + keyed(b, k) =~= keyed(a, k));
    } else {
        lemma_keyed_add(a, b.drop_last(), k);
        assert((a + b).drop_last() =~= a + b.drop_last());
        assert((a + b).last() == b.last());
        if presentation_key(b.last()) == k {
            assert(keyed(a, k) + keyed(b, k) =~= (keyed(a, k) + keyed(b.drop_last(), k)).push(b.last()));
        }
    }
}

proof fn lemma_keyed_none(s: Seq<Finding>, k: (int, Option<Seq<u8>>, Seq<u8>, Seq<u8>))
    requires
        forall|i: int| 0 <= i < s.len() ==> presentation_key(#[trigger] s[i]) != k,
    ensures
        keyed(s, k) == Seq::<Finding>::empty(),
    decreases s.len(),
{
    if s.len() > 0 {
        lemma_keyed_none(s.drop_last(), k);
    }
}

/// Inserts `x` after every finding it does not precede: the list stays sorted, and
/// among findings of one key `x` comes last.
fn insert_stable(sorted: &mut Vec<Finding>, x: Finding)
    requires
        presentation_sorted(old(sorted)@),
    ensures
        presentation_sorted(final(sorted)@),
        final(sorted)@.to_multiset() == old(sorted)@.to_multiset().insert(x),
        forall|k: (int, Option<Seq<u8>>, Seq<u8>, Seq<u8>)| #[trigger] keyed(final(sorted)@, k)
            == if presentation_key(x) == k { keyed(old(sorted)@, k).push(x) } else { keyed(old(sorted)@, k) },
{
    let ghost s = sorted@;
    let mut p: usize = 0;
    while p < sorted.len() && !finding_precedes(&x, &sorted[p])
        invariant
            p <= sorted@.len(),
            s == sorted@,
            forall|k: int| 0 <= k < p ==> !finding_lt(x, #[trigger] s[k]),
        decreases sorted.len() - p,
    {
        p = p + 1;
    }
    proof {
        vstd::seq_lib::to_multiset_insert(s, p as int, x);
    }
    sorted.insert(p, x);
    let ghost t2 = sorted@;
    assert(t2 =~= s.insert(p as int, x));
    assert forall|i: int, j: int| 0 <= i < j < t2.len() implies !finding_lt(#[trigger] t2[j], #[trigger] t2[i]) by {
        lemma_finding_lt_irreflexive(x);
        if i < p && j == p {
        } else if i == p && j > p {
            if finding_lt(t2[j], x) {
                assert(t2[j] == s[j - 1]);
                assert(finding_lt(x, s[p as int]));
                if j - 1 > p {
                    assert(!finding_lt(s[j - 1], s[p as int]));
                }
                lemma_finding_lt_transitive(s[j - 1], x, s[p as int]);
                lemma_finding_lt_irreflexive(s[p as int]);
            }
        } else if i < p && j < p {
        } else if i < p && j > p {
            assert(t2[j] == s[j - 1]);
        } else {
            assert(t2[j] == s[j - 1]);
            assert(t2[i] == s[i - 1]);
        }
    }
    assert forall|k: (int, Option<Seq<u8>>, Seq<u8>, Seq<u8>)| #[trigger] keyed(t2, k)
        == if presentation_key(x) == k { keyed(s, k).push(x) } else { keyed(s, k) } by {
        let front = s.subrange(0, p as int);
        let back = s.subrange(p as int, s.len() as int);
        assert(s =~= front + back);
        assert(t2 =~= front.push(x) + back);
        lemma_keyed_add(front, back, k);
        lemma_keyed_add(front.push(x), back, k);
        assert(front.push(x).drop_last() =~= front);
        if presentation_key(x) == k {
            assert forall|i: int| 0 <= i < back.len() implies presentation_key(#[trigger] back[i]) != k by {
                if presentation_key(back[i]) == k {
                    assert(back[i] == s[p + i]);
                    assert(finding_lt(x, s[p as int]));
                    if i > 0 {
                        assert(!finding_lt(s[p + i], s[p as int]));
                    }
                    lemma_key_congruent(x, back[i], s[p as int]);
                    lemma_finding_lt_irreflexive(s[p as int]);
                }
            }
            lemma_keyed_none(back, k);
            assert(keyed(front.push(x), k) + keyed(back, k) =~= keyed(front.push(x), k));
            assert(keyed(front, k) + keyed(back, k) =~= keyed(front, k));
        }
    }
}

/// Findings in presentation order: by severity, source file (none first), pointer and
/// code. The sort is stable: findings of one key keep their order.
pub fn sort_findings(findings: Vec<Finding>) -> (r: Vec<Finding>)
    ensures
        presentation_sorted(r@),
        r@.to_multiset() == findings@.to_multiset(),
        forall|k: (int, Option<Seq<u8>>, Seq<u8>, Seq<u8>)| #[trigger] keyed(r@, k) == keyed(findings@, k),
{
    let mut sorted: Vec<Finding> = Vec::new();
    let mut i: usize = 0;
    proof {
        assert(findings@.take(0) =~= Seq::<Finding>::empty());
    }
    while i < findings.len()
        invariant
            i <= findings@.len(),
            presentation_sorted(sorted@),
            sorted@.to_multiset() == findings@.take(i as int).to_multiset(),
            forall|k: (int, Option<Seq<u8>>, Seq<u8>, Seq<u8>)| #[trigger] keyed(sorted@, k) == keyed(findings@.take(i as int), k),
        decreases findings@.len() - i,
    {
        let x = findings[i].clone_finding();
        insert_stable(&mut sorted, x);
        proof {
            let next = findings@.take(i + 1);
            assert(next.drop_last() =~= findings@.take(i as int));
            assert(next =~= findings@.take(i as int).push(x));
            vstd::seq_lib::lemma_multiset_commutative(findings@.take(i as int), seq![x]);
            assert(findings@.take(i as int) + seq![x] =~= next);
            assert(seq![x].to_multiset() =~= vstd::multiset::Multiset::empty().insert(x)) by {
                assert(seq![x] =~= Seq::<Finding>::empty().push(x));
            }
        }
        i = i + 1;
    }
    proof {
        assert(findings@.take(findings@.len() as int) =~= findings@);
    }
    sorted
}

/// The terminal result of one command: its status and exit code and its findings in
/// presentation order, and the command's data.
#[derive(Debug, PartialEq, Eq)]
pub struct CommandResult {
    pub schema: &'static str,
    pub command: String,
    pub status: crate::finding::Status,
    pub exit_code: u8,
    pub as_of: Option<String>,
    pub findings: Vec<Finding>,
    pub data: Option<crate::report_json::JsonValue>,
}

impl CommandResult {
    pub fn new(
        command: &str,
        status: crate::finding::Status,
        as_of: Option<String>,
        findings: Vec<Finding>,
        data: Option<crate::report_json::JsonValue>,
    ) -> (r: Self)
        ensures
            r.data == data,
            r.schema@ == "rp/cli-result/v1"@,
            r.command@ == command@,
            r.status == status,
            r.exit_code == crate::finding::status_exit_code(status),
            r.as_of == as_of,
            presentation_sorted(r.findings@),
            r.findings@.to_multiset() == findings@.to_multiset(),
            forall|k: (int, Option<Seq<u8>>, Seq<u8>, Seq<u8>)| #[trigger] keyed(r.findings@, k) == keyed(findings@, k),
    {
        proof {
            reveal_strlit("rp/cli-result/v1");
        }
        let exit_code = status.exit_code();
        CommandResult {
            schema: "rp/cli-result/v1",
            command: command.to_owned(),
            status,
            exit_code,
            as_of,
            findings: sort_findings(findings),
            data,
        }
    }
}

} // verus!
