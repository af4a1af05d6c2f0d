//! Reading an indexed project: record freshness under the project's policy.
use vstd::prelude::*;

use crate::execution::ExecutionStop;
use crate::index::{object_with, ObjectRecord, ProjectIndex};
use crate::json::{as_items, as_text, json_equal, json_get, json_pointer, opt_json_eq};
use crate::model::ObjectType;
use crate::navigation::{count_key, FreshnessEvaluation, FreshnessStatus, NavigationError};
use crate::project_access::texts_of;
use crate::report_json::JsonValue;
use crate::text::{bytes_lt, compare_bytes, lemma_bytes_lt_irreflexive, lemma_bytes_lt_transitive, str_eq};
use vstd::utf8::encode_utf8;

verus! {

broadcast use vstd::seq_lib::group_to_multiset_ensures;

/// The instant an RFC 3339 timestamp names, in nanoseconds since the Unix epoch, as
/// jiff reads it; nothing where jiff refuses the text.
pub uninterp spec fn jiff_instant(text: Seq<char>) -> Option<int>;

/// `str::parse::<jiff::Timestamp>`, then `Timestamp::as_nanosecond`, which jiff
/// documents as lossless: the instant as nanoseconds since the Unix epoch, or nothing
/// where jiff refuses the text. The reading depends on the text alone.
#[verifier::external_body]
fn parse_instant(text: &str) -> (r: Option<i128>)
    ensures
        match r {
            Some(x) => jiff_instant(text@) == Some(x as int),
            None => jiff_instant(text@) is None,
        },
{
    text.parse::<jiff::Timestamp>().ok().map(|t| t.as_nanosecond())
}

/// The strings of an array value, in order; none for any other value.
pub open spec fn strings_at(v: Option<JsonValue>) -> Seq<Seq<char>> {
    match as_items(v) {
        Some(items) => texts_of(items),
        None => Seq::empty(),
    }
}

/// The flag of a boolean value.
pub open spec fn as_flag(v: Option<JsonValue>) -> Option<bool> {
    match v {
        Some(JsonValue::Bool(b)) => Some(b),
        _ => None,
    }
}

/// A rule applies to a record carrying one of the tags its selector names.
pub open spec fn rule_applies(rule: JsonValue, tags: Seq<Seq<char>>) -> bool {
    exists|i: int| 0 <= i < strings_at(json_pointer(rule, "/selector/tags_any"@)).len()
        && tags.contains(#[trigger] strings_at(json_pointer(rule, "/selector/tags_any"@))[i])
}

/// The rules among the first `n` that apply, in order.
pub open spec fn applicable_upto(rules: Seq<JsonValue>, tags: Seq<Seq<char>>, n: int) -> Seq<JsonValue>
    decreases n,
{
    if n <= 0 {
        Seq::empty()
    } else {
        let prev = applicable_upto(rules, tags, n - 1);
        if rule_applies(rules[n - 1], tags) {
            prev.push(rules[n - 1])
        } else {
            prev
        }
    }
}

/// The ids of the first `n` rules that name one.
pub open spec fn rule_ids(rules: Seq<JsonValue>, n: int) -> Seq<Seq<char>>
    decreases n,
{
    if n <= 0 {
        Seq::empty()
    } else {
        let prev = rule_ids(rules, n - 1);
        match as_text(json_get(rules[n - 1], "id"@)) {
            Some(t) => prev.push(t),
            None => prev,
        }
    }
}

/// A timestamp text names an instant at or before `as_of`.
pub open spec fn at_or_before(t: Option<Seq<char>>, as_of: int) -> bool {
    match t {
        Some(x) => match jiff_instant(x) {
            Some(v) => v <= as_of,
            None => false,
        },
        None => false,
    }
}

/// When a source version was released.
pub open spec fn release_of(o: ObjectRecord) -> Option<int> {
    match as_text(json_pointer(o.value, "/source_version/released_at"@)) {
        Some(t) => jiff_instant(t),
        None => None,
    }
}

/// `c` is another version of the external source `r`: same type and canonical URI,
/// a different version identifier.
pub open spec fn other_version(c: ObjectRecord, r: ObjectRecord) -> bool {
    &&& c.object_type is ExternalReference
    &&& opt_json_eq(json_get(c.value, "type"@), json_get(r.value, "type"@))
    &&& opt_json_eq(json_get(c.value, "canonical_uri"@), json_get(r.value, "canonical_uri"@))
    &&& !opt_json_eq(json_pointer(c.value, "/source_version/identifier"@), json_pointer(r.value, "/source_version/identifier"@))
}

/// Over the first `m` objects, as (all versions dated, a newer one released by `as_of`).
pub open spec fn versions_fold(s: Seq<ObjectRecord>, r: ObjectRecord, released: int, as_of: int, m: int, acc: (bool, bool)) -> (bool, bool)
    decreases m,
{
    if m <= 0 {
        acc
    } else {
        let prev = versions_fold(s, r, released, as_of, m - 1, acc);
        if other_version(s[m - 1], r) {
            match release_of(s[m - 1]) {
                Some(t) => (prev.0, prev.1 || (t > released && t <= as_of)),
                None => (false, prev.1),
            }
        } else {
            prev
        }
    }
}

/// Over the first `m` pinned sources, as (every check possible, a newer version exists).
pub open spec fn pinned_fold(s: Seq<ObjectRecord>, pinned: Seq<Seq<char>>, as_of: int, m: int, acc: (bool, bool)) -> (bool, bool)
    decreases m,
{
    if m <= 0 {
        acc
    } else {
        let prev = pinned_fold(s, pinned, as_of, m - 1, acc);
        match object_with(s, pinned[m - 1]) {
            Some(r) => if r.object_type is ExternalReference {
                match release_of(r) {
                    Some(released) => versions_fold(s, r, released, as_of, s.len() as int, prev),
                    None => (false, prev.1),
                }
            } else {
                (false, prev.1)
            },
            None => (false, prev.1),
        }
    }
}

/// Whether the external sources a record pins can be checked, and whether a newer
/// version of one was released by `as_of`.
pub open spec fn source_outcome(s: Seq<ObjectRecord>, o: ObjectRecord, as_of: int) -> (bool, bool) {
    let pinned = strings_at(json_pointer(o.value, "/source/external_references"@));
    pinned_fold(s, pinned, as_of, pinned.len() as int, (pinned.len() > 0, false))
}

/// One required check: (every check possible so far, invalidated so far).
pub open spec fn check_step(
    s: Seq<ObjectRecord>,
    verified: Set<Seq<char>>,
    o: ObjectRecord,
    as_of: int,
    has_review: bool,
    invalidates: bool,
    check: Seq<char>,
    acc: (bool, bool),
) -> (bool, bool) {
    if check == "review-deadline"@ {
        (acc.0 && has_review, acc.1)
    } else if check == "external-source-version"@ {
        let out = source_outcome(s, o, as_of);
        (acc.0 && out.0, acc.1 || (invalidates && out.1))
    } else if check == "artifact-digest"@ {
        let arts = strings_at(json_pointer(o.value, "/source/artifacts"@));
        (acc.0 && arts.len() > 0 && forall|i: int| 0 <= i < arts.len() ==> verified.contains(#[trigger] arts[i]), acc.1)
    } else {
        (false, acc.1)
    }
}

/// The first `m` checks of a rule.
pub open spec fn checks_fold(
    s: Seq<ObjectRecord>,
    verified: Set<Seq<char>>,
    o: ObjectRecord,
    as_of: int,
    has_review: bool,
    invalidates: bool,
    checks: Seq<Seq<char>>,
    m: int,
    acc: (bool, bool),
) -> (bool, bool)
    decreases m,
{
    if m <= 0 {
        acc
    } else {
        check_step(s, verified, o, as_of, has_review, invalidates, checks[m - 1],
            checks_fold(s, verified, o, as_of, has_review, invalidates, checks, m - 1, acc))
    }
}

/// The checks a rule requires.
pub open spec fn rule_checks(rule: JsonValue) -> Seq<Seq<char>> {
    strings_at(json_get(rule, "required_checks"@))
}

/// A rule invalidates the record when its source changes.
pub open spec fn rule_invalidates(rule: JsonValue) -> bool {
    as_flag(json_get(rule, "invalidates_on_change"@)) == Some(true)
}

/// The first `m` applicable rules, check by check.
pub open spec fn rules_fold(
    s: Seq<ObjectRecord>,
    verified: Set<Seq<char>>,
    o: ObjectRecord,
    as_of: int,
    has_review: bool,
    rules: Seq<JsonValue>,
    m: int,
    acc: (bool, bool),
) -> (bool, bool)
    decreases m,
{
    if m <= 0 {
        acc
    } else {
        let rule = rules[m - 1];
        checks_fold(s, verified, o, as_of, has_review, rule_invalidates(rule), rule_checks(rule), rule_checks(rule).len() as int,
            rules_fold(s, verified, o, as_of, has_review, rules, m - 1, acc))
    }
}

/// The review deadline of a record.
pub open spec fn review_of(o: ObjectRecord) -> Option<int> {
    match as_text(json_pointer(o.value, "/temporal/review_due_at"@)) {
        Some(t) => jiff_instant(t),
        None => None,
    }
}

/// The rules of a policy.
pub open spec fn policy_rules(policy: JsonValue) -> Seq<JsonValue> {
    match as_items(json_get(policy, "rules"@)) {
        Some(r) => r,
        None => Seq::empty(),
    }
}

/// The freshness of record `o` at instant `as_of` and the ids of the rules that apply.
/// Without a policy, or without an applicable rule, it is unknown. Past its
/// `effective_until` it is stale; then a newer source version that invalidates it makes
/// it stale, a required check that cannot be made leaves it unknown, a review deadline
/// reached makes it due for review, and otherwise it is fresh.
pub open spec fn freshness_of(
    s: Seq<ObjectRecord>,
    policy: Option<JsonValue>,
    verified: Set<Seq<char>>,
    o: ObjectRecord,
    as_of: int,
) -> (FreshnessStatus, Seq<Seq<char>>) {
    match policy {
        None => (FreshnessStatus::Unknown, Seq::empty()),
        Some(pol) => {
            let tags = strings_at(json_get(o.value, "tags"@));
            let rules = policy_rules(pol);
            let app = applicable_upto(rules, tags, rules.len() as int);
            if app.len() == 0 {
                (FreshnessStatus::Unknown, Seq::empty())
            } else {
                let ids = rule_ids(app, app.len() as int);
                if at_or_before(as_text(json_pointer(o.value, "/temporal/effective_until"@)), as_of) {
                    (FreshnessStatus::Stale, ids)
                } else {
                    let review = review_of(o);
                    let folded = rules_fold(s, verified, o, as_of, review is Some, app, app.len() as int, (true, false));
                    if folded.1 {
                        (FreshnessStatus::Stale, ids)
                    } else if !folded.0 {
                        (FreshnessStatus::Unknown, ids)
                    } else if review matches Some(d) && d <= as_of {
                        (FreshnessStatus::ReviewDue, ids)
                    } else {
                        (FreshnessStatus::Fresh, ids)
                    }
                }
            }
        },
    }
}

/// The freshness of `o` is settled before any rule's checks: there is no policy, no
/// rule of it applies to `o`, or `o` stopped being effective by `as_of`.
pub open spec fn freshness_settled(policy: Option<JsonValue>, o: ObjectRecord, as_of: int) -> bool {
    match policy {
        None => true,
        Some(pol) => {
            let tags = strings_at(json_get(o.value, "tags"@));
            let rules = policy_rules(pol);
            applicable_upto(rules, tags, rules.len() as int).len() == 0
                || at_or_before(as_text(json_pointer(o.value, "/temporal/effective_until"@)), as_of)
        },
    }
}

/// The literals that name the checks, as sequences of characters.
proof fn lemma_check_names()
    ensures
        "external-source-version"@ != "review-deadline"@,
        "external-source-version"@ != "artifact-digest"@,
{
    reveal_strlit("external-source-version");
    reveal_strlit("review-deadline");
    reveal_strlit("artifact-digest");
    assert("external-source-version"@.len() == 23);
    assert("review-deadline"@.len() == 15);
    assert("artifact-digest"@.len() == 15);
}

/// A rule's checks invalidate the record exactly when the rule invalidates on change,
/// one of its checks is the external source version, and a newer version was released.
proof fn lemma_checks_invalidate(
    s: Seq<ObjectRecord>,
    verified: Set<Seq<char>>,
    o: ObjectRecord,
    as_of: int,
    has_review: bool,
    invalidates: bool,
    checks: Seq<Seq<char>>,
    m: int,
    acc: (bool, bool),
)
    requires
        0 <= m <= checks.len(),
    ensures
        checks_fold(s, verified, o, as_of, has_review, invalidates, checks, m, acc).1 == (acc.1 || (invalidates
            && source_outcome(s, o, as_of).1 && exists|j: int| 0 <= j < m && checks[j] == "external-source-version"@)),
    decreases m,
{
    lemma_check_names();
    if m > 0 {
        lemma_checks_invalidate(s, verified, o, as_of, has_review, invalidates, checks, m - 1, acc);
        if checks[m - 1] == "external-source-version"@ {
            assert(exists|j: int| 0 <= j < m && checks[j] == "external-source-version"@);
        } else {
            if exists|j: int| 0 <= j < m && checks[j] == "external-source-version"@ {
                let j = choose|j: int| 0 <= j < m && checks[j] == "external-source-version"@;
                assert(j < m - 1);
            }
        }
    }
}

/// Rules invalidate the record exactly when one of them invalidates on change and
/// requires the external source version, and a newer version was released.
proof fn lemma_rules_invalidate(
    s: Seq<ObjectRecord>,
    verified: Set<Seq<char>>,
    o: ObjectRecord,
    as_of: int,
    has_review: bool,
    rules: Seq<JsonValue>,
    m: int,
    acc: (bool, bool),
)
    requires
        0 <= m <= rules.len(),
    ensures
        rules_fold(s, verified, o, as_of, has_review, rules, m, acc).1 == (acc.1 || (source_outcome(s, o, as_of).1
            && exists|i: int| 0 <= i < m && rule_invalidates(#[trigger] rules[i])
                && rule_checks(rules[i]).contains("external-source-version"@))),
    decreases m,
{
    if m > 0 {
        lemma_rules_invalidate(s, verified, o, as_of, has_review, rules, m - 1, acc);
        let rule = rules[m - 1];
        let prev = rules_fold(s, verified, o, as_of, has_review, rules, m - 1, acc);
        lemma_checks_invalidate(s, verified, o, as_of, has_review, rule_invalidates(rule), rule_checks(rule),
            rule_checks(rule).len() as int, prev);
        if rule_checks(rule).contains("external-source-version"@) {
            let j = choose|j: int| 0 <= j < rule_checks(rule).len() && rule_checks(rule)[j] == "external-source-version"@;
        }
        if exists|j: int| 0 <= j < rule_checks(rule).len() && rule_checks(rule)[j] == "external-source-version"@ {
            let j = choose|j: int| 0 <= j < rule_checks(rule).len() && rule_checks(rule)[j] == "external-source-version"@;
            assert(rule_checks(rule).contains("external-source-version"@));
        }
        if exists|i: int| 0 <= i < m && rule_invalidates(#[trigger] rules[i]) && rule_checks(rules[i]).contains("external-source-version"@) {
            let i = choose|i: int| 0 <= i < m && rule_invalidates(#[trigger] rules[i]) && rule_checks(rules[i]).contains("external-source-version"@);
            if i < m - 1 {
                assert(exists|i2: int| 0 <= i2 < m - 1 && rule_invalidates(#[trigger] rules[i2]) && rule_checks(rules[i2]).contains("external-source-version"@));
            }
        }
    }
}

/// A required check can be made for a record: a review deadline needs one; the external
/// source version needs every pinned source to be checkable; an artifact digest needs at
/// least one artifact, each of them verified; no other check can be made.
pub open spec fn check_possible(s: Seq<ObjectRecord>, verified: Set<Seq<char>>, o: ObjectRecord, as_of: int, check: Seq<char>) -> bool {
    ||| check == "review-deadline"@ && review_of(o) is Some
    ||| check == "external-source-version"@ && source_outcome(s, o, as_of).0
    ||| check == "artifact-digest"@ && {
        let arts = strings_at(json_pointer(o.value, "/source/artifacts"@));
        arts.len() > 0 && forall|i: int| 0 <= i < arts.len() ==> verified.contains(#[trigger] arts[i])
    }
}

proof fn lemma_check_names_apart()
    ensures
        "review-deadline"@ != "artifact-digest"@,
{
    reveal_strlit("review-deadline");
    reveal_strlit("artifact-digest");
    assert("review-deadline"@[0] == 'r');
    assert("artifact-digest"@[0] == 'a');
}

/// A rule's checks can all be made exactly when each of them is possible.
proof fn lemma_checks_possible(
    s: Seq<ObjectRecord>,
    verified: Set<Seq<char>>,
    o: ObjectRecord,
    as_of: int,
    invalidates: bool,
    checks: Seq<Seq<char>>,
    m: int,
    acc: (bool, bool),
)
    requires
        0 <= m <= checks.len(),
    ensures
        checks_fold(s, verified, o, as_of, review_of(o) is Some, invalidates, checks, m, acc).0 == (acc.0
            && forall|j: int| 0 <= j < m ==> check_possible(s, verified, o, as_of, #[trigger] checks[j])),
    decreases m,
{
    lemma_check_names();
    lemma_check_names_apart();
    if m > 0 {
        lemma_checks_possible(s, verified, o, as_of, invalidates, checks, m - 1, acc);
        if !check_possible(s, verified, o, as_of, checks[m - 1]) {
            assert(!(forall|j: int| 0 <= j < m ==> check_possible(s, verified, o, as_of, #[trigger] checks[j])));
        }
    }
}

/// Rules' checks can all be made exactly when every check of every rule is possible.
proof fn lemma_rules_possible(
    s: Seq<ObjectRecord>,
    verified: Set<Seq<char>>,
    o: ObjectRecord,
    as_of: int,
    rules: Seq<JsonValue>,
    m: int,
    acc: (bool, bool),
)
    requires
        0 <= m <= rules.len(),
    ensures
        rules_fold(s, verified, o, as_of, review_of(o) is Some, rules, m, acc).0 == (acc.0
            && forall|i: int, j: int| 0 <= i < m && 0 <= j < rule_checks(rules[i]).len()
                ==> check_possible(s, verified, o, as_of, #[trigger] rule_checks(#[trigger] rules[i])[j])),
    decreases m,
{
    if m > 0 {
        lemma_rules_possible(s, verified, o, as_of, rules, m - 1, acc);
        let rule = rules[m - 1];
        let prev = rules_fold(s, verified, o, as_of, review_of(o) is Some, rules, m - 1, acc);
        lemma_checks_possible(s, verified, o, as_of, rule_invalidates(rule), rule_checks(rule), rule_checks(rule).len() as int, prev);
    }
}

/// A record to which a rule applies, that is still effective and not invalidated, has
/// an unknown freshness exactly when some check of an applicable rule cannot be made.
pub proof fn law_unknown_freshness(
    s: Seq<ObjectRecord>,
    policy: Option<JsonValue>,
    verified: Set<Seq<char>>,
    o: ObjectRecord,
    as_of: int,
)
    ensures
        freshness_of(s, policy, verified, o, as_of).0 != FreshnessStatus::Stale ==> (
            freshness_of(s, policy, verified, o, as_of).0 == FreshnessStatus::Unknown <==> (policy matches Some(pol) ==> {
                let rules = policy_rules(pol);
                let app = applicable_upto(rules, strings_at(json_get(o.value, "tags"@)), rules.len() as int);
                app.len() > 0 ==> exists|i: int, j: int| 0 <= i < app.len() && 0 <= j < rule_checks(app[i]).len()
                    && !check_possible(s, verified, o, as_of, #[trigger] rule_checks(#[trigger] app[i])[j])
            })),
{
    if let Some(pol) = policy {
        let rules = policy_rules(pol);
        let app = applicable_upto(rules, strings_at(json_get(o.value, "tags"@)), rules.len() as int);
        lemma_rules_possible(s, verified, o, as_of, app, app.len() as int, (true, false));
    }
}

/// A record is stale exactly when a policy rule applies to it and either it stopped
/// being effective by `as_of`, or a newer version of a source it pins was released by
/// then and an applicable rule that requires the external source version invalidates
/// on change. A rule without `invalidates_on_change` never makes a record stale.
pub proof fn law_stale_freshness(
    s: Seq<ObjectRecord>,
    policy: Option<JsonValue>,
    verified: Set<Seq<char>>,
    o: ObjectRecord,
    as_of: int,
)
    ensures
        freshness_of(s, policy, verified, o, as_of).0 == FreshnessStatus::Stale <==> (policy matches Some(pol) && {
            let rules = policy_rules(pol);
            let app = applicable_upto(rules, strings_at(json_get(o.value, "tags"@)), rules.len() as int);
            &&& app.len() > 0
            &&& at_or_before(as_text(json_pointer(o.value, "/temporal/effective_until"@)), as_of)
                || (source_outcome(s, o, as_of).1 && exists|i: int| 0 <= i < app.len()
                    && rule_invalidates(#[trigger] app[i]) && rule_checks(app[i]).contains("external-source-version"@))
        }),
{
    if let Some(pol) = policy {
        let rules = policy_rules(pol);
        let app = applicable_upto(rules, strings_at(json_get(o.value, "tags"@)), rules.len() as int);
        lemma_rules_invalidate(s, verified, o, as_of, review_of(o) is Some, app, app.len() as int, (true, false));
    }
}

/// Without a policy, or without a rule that applies, a record's freshness is unknown
/// and names no rule; it is due for review only with a review deadline at or before
/// `as_of`, and fresh only with no deadline reached, no invalidation and an applicable
/// rule.
pub proof fn law_freshness_statuses(
    s: Seq<ObjectRecord>,
    policy: Option<JsonValue>,
    verified: Set<Seq<char>>,
    o: ObjectRecord,
    as_of: int,
)
    ensures
        ({
            let f = freshness_of(s, policy, verified, o, as_of);
            let applies = policy matches Some(pol) && applicable_upto(policy_rules(pol),
                strings_at(json_get(o.value, "tags"@)), policy_rules(pol).len() as int).len() > 0;
            &&& !applies ==> f.0 == FreshnessStatus::Unknown && f.1.len() == 0
            &&& f.0 == FreshnessStatus::ReviewDue ==> applies && (review_of(o) matches Some(d) && d <= as_of)
            &&& f.0 == FreshnessStatus::Fresh ==> applies && !(review_of(o) matches Some(d) && d <= as_of)
                && !at_or_before(as_text(json_pointer(o.value, "/temporal/effective_until"@)), as_of)
        }),
{
}

/// The texts of a list as sequences.
pub open spec fn strs_view(v: Seq<&str>) -> Seq<Seq<char>> {
    v.map_values(|x: &str| x@)
}

/// The strings of an array value, in order.
fn strings(v: Option<&JsonValue>) -> (r: Vec<&str>)
    ensures
        strs_view(r@) == strings_at(match v {
            Some(x) => Some(*x),
            None => None,
        }),
{
    let mut out: Vec<&str> = Vec::new();
    let items = match v {
        Some(x) => match x.as_array() {
            Some(items) => items,
            None => return out,
        },
        None => return out,
    };
    let mut j: usize = 0;
    proof {
        assert(items@.subrange(0, 0) =~= Seq::<JsonValue>::empty());
    }
    while j < items.len()
        invariant
            j <= items@.len(),
            strs_view(out@) == texts_of(items@.subrange(0, j as int)),
        decreases items@.len() - j,
    {
        proof {
            let sub = items@.subrange(0, j + 1);
            assert(sub.drop_last() =~= items@.subrange(0, j as int));
            assert(sub.last() == items@[j as int]);
        }
        let ghost before = out@;
        match items[j].as_str() {
            Some(t) => {
                out.push(t);
                proof {
                    assert(strs_view(out@) =~= strs_view(before).push(t@));
                }
            },
            None => {},
        }
        j = j + 1;
    }
    proof {
        assert(items@.subrange(0, j as int) =~= items@);
    }
    out
}

/// Some entry of `v` is `t`.
fn has_str(v: &Vec<&str>, t: &str) -> (r: bool)
    ensures
        r == strs_view(v@).contains(t@),
{
    let mut i: usize = 0;
    while i < v.len()
        invariant
            i <= v@.len(),
            forall|k: int| 0 <= k < i ==> v@[k]@ != t@,
        decreases v@.len() - i,
    {
        if str_eq(v[i], t) {
            proof {
                assert(strs_view(v@)[i as int] == t@);
            }
            return true;
        }
        i = i + 1;
    }
    proof {
        if strs_view(v@).contains(t@) {
            let k = choose|k: int| 0 <= k < strs_view(v@).len() && strs_view(v@)[k] == t@;
            assert(v@[k]@ == t@);
        }
    }
    false
}

/// Whether an optional timestamp text names an instant at or before `as_of`.
fn instant_at_or_before(t: Option<&str>, as_of: i128) -> (r: bool)
    ensures
        r == at_or_before(match t {
            Some(x) => Some(x@),
            None => None,
        }, as_of as int),
{
    match t {
        Some(x) => match parse_instant(x) {
            Some(v) => v <= as_of,
            None => false,
        },
        None => false,
    }
}

fn text_at<'a>(v: &'a JsonValue, pointer: &str) -> (r: Option<&'a str>)
    ensures
        match r {
            Some(t) => as_text(json_pointer(*v, pointer@)) == Some(t@),
            None => as_text(json_pointer(*v, pointer@)) is None,
        },
{
    match v.at_pointer(pointer) {
        Some(x) => x.as_str(),
        None => None,
    }
}

fn release(o: &ObjectRecord) -> (r: Option<i128>)
    ensures
        match r {
            Some(x) => release_of(*o) == Some(x as int),
            None => release_of(*o) is None,
        },
{
    match text_at(&o.value, "/source_version/released_at") {
        Some(t) => parse_instant(t),
        None => None,
    }
}

fn opt_member_equal(a: Option<&JsonValue>, b: Option<&JsonValue>) -> (r: bool)
    ensures
        r == opt_json_eq(match a {
            Some(x) => Some(*x),
            None => None,
        }, match b {
            Some(x) => Some(*x),
            None => None,
        }),
{
    match (a, b) {
        (None, None) => true,
        (Some(x), Some(y)) => json_equal(x, y),
        _ => false,
    }
}

fn is_other_version(c: &ObjectRecord, r: &ObjectRecord) -> (b: bool)
    ensures
        b == other_version(*c, *r),
{
    let external = match c.object_type {
        ObjectType::ExternalReference => true,
        _ => false,
    };
    external && opt_member_equal(c.value.get("type"), r.value.get("type"))
        && opt_member_equal(c.value.get("canonical_uri"), r.value.get("canonical_uri"))
        && !opt_member_equal(c.value.at_pointer("/source_version/identifier"), r.value.at_pointer("/source_version/identifier"))
}

impl ProjectIndex {
    /// Whether the external sources `o` pins can be checked, and whether a newer version
    /// of one was released by `as_of`; the budget's stop where it ends the scan.
    fn source_version_outcome(&self, o: &ObjectRecord, as_of: i128) -> (r: Result<(bool, bool), ExecutionStop>)
        requires
            self.wf(),
        ensures
            r matches Ok(x) ==> x == source_outcome(self.entries(), *o, as_of as int),
            strings_at(json_pointer(o.value, "/source/external_references"@)).len() == 0 ==> r is Ok,
    {
        let objects = self.objects();
        let ghost s = self.entries();
        let pinned = strings(o.value.at_pointer("/source/external_references"));
        let ghost pv = strs_view(pinned@);
        let mut available = pinned.len() > 0;
        let mut newer = false;
        let mut k: usize = 0;
        while k < pinned.len()
            invariant
                self.wf(),
                objects@ == s,
                s == self.entries(),
                pv == strs_view(pinned@),
                pv == strings_at(json_pointer(o.value, "/source/external_references"@)),
                pv.len() == pinned@.len(),
                k <= pinned@.len(),
                (available, newer) == pinned_fold(s, pv, as_of as int, k as int, (pv.len() > 0, false)),
            decreases pinned@.len() - k,
        {
            match self.execution_budget().checkpoint() {
                Err(stop) => return Err(stop),
                Ok(()) => {},
            }
            let ghost acc = (available, newer);
            proof {
                assert(pv[k as int] == pinned@[k as int]@);
            }
            let reference = match self.get(pinned[k]) {
                Some(r) => match r.object_type {
                    ObjectType::ExternalReference => Some(r),
                    _ => None,
                },
                None => None,
            };
            match reference {
                None => {
                    available = false;
                },
                Some(r) => match release(r) {
                    None => {
                        available = false;
                    },
                    Some(released) => {
                        let mut c: usize = 0;
                        while c < objects.len()
                            invariant
                                objects@ == s,
                                c <= s.len(),
                                (available, newer) == versions_fold(s, *r, released as int, as_of as int, c as int, acc),
                                pv.len() > 0,
                                pv == strings_at(json_pointer(o.value, "/source/external_references"@)),
                            decreases s.len() - c,
                        {
                            match self.execution_budget().checkpoint() {
                                Err(stop) => return Err(stop),
                                Ok(()) => {},
                            }
                            let candidate = &objects[c];
                            if is_other_version(candidate, r) {
                                match release(candidate) {
                                    Some(t) => {
                                        newer = newer || (t > released && t <= as_of);
                                    },
                                    None => {
                                        available = false;
                                    },
                                }
                            }
                            c = c + 1;
                        }
                    },
                },
            }
            k = k + 1;
        }
        Ok((available, newer))
    }
}

/// The evaluation as a status and rule ids.
pub open spec fn evaluation_view(e: FreshnessEvaluation) -> (FreshnessStatus, Seq<Seq<char>>) {
    (e.status, e.applicable_rules@.map_values(|x: String| x@))
}

/// The rules as values.
pub open spec fn rules_view(v: Seq<&JsonValue>) -> Seq<JsonValue> {
    v.map_values(|r: &JsonValue| *r)
}

/// Whether `rule` applies to a record with tags `tags`.
fn applies(rule: &JsonValue, tags: &Vec<&str>) -> (r: bool)
    ensures
        r == rule_applies(*rule, strs_view(tags@)),
{
    let selector = strings(rule.at_pointer("/selector/tags_any"));
    let ghost sv = strs_view(selector@);
    let mut i: usize = 0;
    while i < selector.len()
        invariant
            i <= selector@.len(),
            sv == strs_view(selector@),
            sv == strings_at(json_pointer(*rule, "/selector/tags_any"@)),
            forall|k: int| 0 <= k < i ==> !strs_view(tags@).contains(#[trigger] sv[k]),
        decreases selector@.len() - i,
    {
        if has_str(tags, selector[i]) {
            proof {
                assert(sv[i as int] == selector@[i as int]@);
                assert(strs_view(tags@).contains(sv[i as int]));
            }
            return true;
        }
        proof {
            assert(sv[i as int] == selector@[i as int]@);
        }
        i = i + 1;
    }
    false
}

impl ProjectIndex {
    /// The freshness of record `o` at instant `as_of` (see `freshness_of`); the budget's
    /// stop where it ends the evaluation.
    pub fn freshness_at(&self, o: &ObjectRecord, as_of: i128) -> (r: Result<FreshnessEvaluation, ExecutionStop>)
        requires
            self.wf(),
        ensures
            r matches Ok(e) ==> evaluation_view(e) == freshness_of(self.entries(), self.freshness_policy(), self.verified(), *o, as_of as int),
            freshness_settled(self.freshness_policy(), *o, as_of as int) ==> r is Ok,
    {
        proof {
            reveal_strlit("review-deadline");
            reveal_strlit("external-source-version");
            reveal_strlit("artifact-digest");
        }
        let ghost s = self.entries();
        let unknown = FreshnessEvaluation { status: FreshnessStatus::Unknown, applicable_rules: Vec::new() };
        proof {
            assert(evaluation_view(unknown) =~= (FreshnessStatus::Unknown, Seq::<Seq<char>>::empty()));
        }
        let policy = match self.policy() {
            Some(p) => p,
            None => return Ok(unknown),
        };
        let tags = strings(o.value.get("tags"));
        let ghost tv = strs_view(tags@);
        let rules = match policy.get("rules") {
            Some(v) => match v.as_array() {
                Some(items) => items,
                None => {
                    proof {
                        assert(applicable_upto(Seq::<JsonValue>::empty(), tv, 0).len() == 0);
                    }
                    return Ok(unknown);
                },
            },
            None => {
                proof {
                    assert(applicable_upto(Seq::<JsonValue>::empty(), tv, 0).len() == 0);
                }
                return Ok(unknown);
            },
        };
        let mut applicable: Vec<&JsonValue> = Vec::new();
        let mut i: usize = 0;
        while i < rules.len()
            invariant
                i <= rules@.len(),
                tv == strs_view(tags@),
                rules_view(applicable@) == applicable_upto(rules@, tv, i as int),
            decreases rules@.len() - i,
        {
            let ghost before = applicable@;
            if applies(&rules[i], &tags) {
                applicable.push(&rules[i]);
                proof {
                    assert(rules_view(applicable@) =~= rules_view(before).push(rules@[i as int]));
                }
            }
            i = i + 1;
        }
        let ghost app = rules_view(applicable@);
        if applicable.len() == 0 {
            return Ok(unknown);
        }
        let mut ids: Vec<String> = Vec::new();
        let mut j: usize = 0;
        while j < applicable.len()
            invariant
                j <= applicable@.len(),
                app == rules_view(applicable@),
                ids@.map_values(|x: String| x@) == rule_ids(app, j as int),
            decreases applicable@.len() - j,
        {
            let ghost before = ids@;
            match applicable[j].get("id") {
                Some(v) => match v.as_str() {
                    Some(t) => {
                        ids.push(t.to_string());
                        proof {
                            assert(ids@.map_values(|x: String| x@) =~= before.map_values(|x: String| x@).push(t@));
                        }
                    },
                    None => {},
                },
                None => {},
            }
            j = j + 1;
        }
        if instant_at_or_before(text_at(&o.value, "/temporal/effective_until"), as_of) {
            return Ok(FreshnessEvaluation { status: FreshnessStatus::Stale, applicable_rules: ids });
        }
        let review = match text_at(&o.value, "/temporal/review_due_at") {
            Some(t) => parse_instant(t),
            None => None,
        };
        let ghost verified = self.verified();
        let mut available = true;
        let mut invalidated = false;
        let mut q: usize = 0;
        while q < applicable.len()
            invariant
                self.wf(),
                s == self.entries(),
                verified == self.verified(),
                q <= applicable@.len(),
                app == rules_view(applicable@),
                match review {
                    Some(x) => review_of(*o) == Some(x as int),
                    None => review_of(*o) is None,
                },
                (available, invalidated) == rules_fold(s, verified, *o, as_of as int, review is Some, app, q as int, (true, false)),
                !freshness_settled(self.freshness_policy(), *o, as_of as int),
            decreases applicable@.len() - q,
        {
            match self.execution_budget().checkpoint() {
                Err(stop) => return Err(stop),
                Ok(()) => {},
            }
            let rule = applicable[q];
            proof {
                assert(app[q as int] == *rule);
            }
            let invalidates = match rule.get("invalidates_on_change") {
                Some(JsonValue::Bool(b)) => *b,
                _ => false,
            };
            let checks = strings(rule.get("required_checks"));
            let ghost cv = strs_view(checks@);
            let ghost acc0 = (available, invalidated);
            let mut c: usize = 0;
            while c < checks.len()
                invariant
                    self.wf(),
                    s == self.entries(),
                    verified == self.verified(),
                    c <= checks@.len(),
                    cv == strs_view(checks@),
                    cv == rule_checks(*rule),
                    invalidates == rule_invalidates(*rule),
                    match review {
                        Some(x) => review_of(*o) == Some(x as int),
                        None => review_of(*o) is None,
                    },
                    (available, invalidated) == checks_fold(s, verified, *o, as_of as int, review is Some, invalidates, cv, c as int, acc0),
                    !freshness_settled(self.freshness_policy(), *o, as_of as int),
                decreases checks@.len() - c,
            {
                let check = checks[c];
                proof {
                    assert(cv[c as int] == check@);
                }
                if str_eq(check, "review-deadline") {
                    available = available && review.is_some();
                } else if str_eq(check, "external-source-version") {
                    let outcome = match self.source_version_outcome(o, as_of) {
                        Err(stop) => return Err(stop),
                        Ok(x) => x,
                    };
                    available = available && outcome.0;
                    invalidated = invalidated || (invalidates && outcome.1);
                } else if str_eq(check, "artifact-digest") {
                    let arts = strings(o.value.at_pointer("/source/artifacts"));
                    let ghost av = strs_view(arts@);
                    let mut all = arts.len() > 0;
                    let mut a: usize = 0;
                    while a < arts.len()
                        invariant
                            a <= arts@.len(),
                            av == strs_view(arts@),
                            verified == self.verified(),
                            all == (arts@.len() > 0 && forall|k: int| 0 <= k < a ==> verified.contains(#[trigger] av[k])),
                        decreases arts@.len() - a,
                    {
                        let ok = self.artifact_verified(arts[a]);
                        proof {
                            assert(av[a as int] == arts@[a as int]@);
                        }
                        all = all && ok;
                        a = a + 1;
                    }
                    available = available && all;
                } else {
                    available = false;
                }
                c = c + 1;
            }
            q = q + 1;
        }
        let status = if invalidated {
            FreshnessStatus::Stale
        } else if !available {
            FreshnessStatus::Unknown
        } else {
            match review {
                Some(d) => if d <= as_of {
                    FreshnessStatus::ReviewDue
                } else {
                    FreshnessStatus::Fresh
                },
                None => FreshnessStatus::Fresh,
            }
        };
        Ok(FreshnessEvaluation { status, applicable_rules: ids })
    }

    /// The freshness of object `id` at the instant `as_of` names (see `freshness_of`):
    /// `InvalidAsOf` where jiff refuses the instant, else `NotFound` where there is no
    /// such object; the budget's stop where it ends the request.
    pub fn freshness(&self, id: &str, as_of: &str) -> (r: Result<FreshnessEvaluation, NavigationError>)
        requires
            self.wf(),
        ensures
            r matches Err(NavigationError::InvalidAsOf) ==> jiff_instant(as_of@) is None,
            r matches Err(NavigationError::NotFound) ==> jiff_instant(as_of@) is Some && object_with(self.entries(), id@) is None,
            r matches Ok(e) ==> jiff_instant(as_of@) matches Some(t) && object_with(self.entries(), id@) matches Some(o)
                && evaluation_view(e) == freshness_of(self.entries(), self.freshness_policy(), self.verified(), o, t),
            r matches Err(e) ==> e is InvalidAsOf || e is NotFound || e is Stopped,
            jiff_instant(as_of@) is None ==> !(r is Ok) && !(r matches Err(NavigationError::NotFound)),
            jiff_instant(as_of@) is Some && object_with(self.entries(), id@) is Some ==> r is Ok || r matches Err(NavigationError::Stopped(_)),
    {
        match self.execution_budget().checkpoint() {
            Err(stop) => return Err(NavigationError::Stopped(stop)),
            Ok(()) => {},
        }
        let t = match parse_instant(as_of) {
            Some(t) => t,
            None => return Err(NavigationError::InvalidAsOf),
        };
        let o = match self.get(id) {
            Some(o) => o,
            None => return Err(NavigationError::NotFound),
        };
        let result = match self.freshness_at(o, t) {
            Err(stop) => return Err(NavigationError::Stopped(stop)),
            Ok(e) => e,
        };
        match self.execution_budget().checkpoint() {
            Err(stop) => return Err(NavigationError::Stopped(stop)),
            Ok(()) => {},
        }
        Ok(result)
    }
}

/// One research thread as a list shows it.
pub struct ThreadSummary<'a> {
    pub id: &'a str,
    pub title: Option<&'a JsonValue>,
    pub status: Option<&'a JsonValue>,
    pub binding_count: usize,
    pub child_count: usize,
}

/// The research threads of a project, in id order.
pub struct ThreadListDto<'a> {
    pub threads: Vec<ThreadSummary<'a>>,
    pub returned_count: usize,
}

/// The member `key` of `v` names the text `id`.
pub open spec fn names_text(v: JsonValue, key: Seq<char>, id: Seq<char>) -> bool {
    as_text(json_get(v, key)) == Some(id)
}

/// How many of the first `n` objects are of kind `t`-class `want` and name `id` under `key`.
pub open spec fn count_naming(s: Seq<ObjectRecord>, thread_kind: bool, key: Seq<char>, id: Seq<char>, n: int) -> nat
    decreases n,
{
    if n <= 0 {
        0
    } else {
        count_naming(s, thread_kind, key, id, n - 1) + if (if thread_kind { s[n - 1].object_type is Thread } else {
            s[n - 1].object_type is ThreadBinding
        }) && names_text(s[n - 1].value, key, id) {
            1nat
        } else {
            0nat
        }
    }
}

/// The positions of the threads among the first `n` objects.
pub open spec fn thread_positions(s: Seq<ObjectRecord>, n: int) -> Seq<int>
    decreases n,
{
    if n <= 0 {
        Seq::empty()
    } else if s[n - 1].object_type is Thread {
        thread_positions(s, n - 1).push(n - 1)
    } else {
        thread_positions(s, n - 1)
    }
}

/// A thread summary as plain values.
pub open spec fn summary_view(t: ThreadSummary) -> (Seq<char>, Option<JsonValue>, Option<JsonValue>, int, int) {
    (
        t.id@,
        match t.title {
            Some(x) => Some(*x),
            None => None,
        },
        match t.status {
            Some(x) => Some(*x),
            None => None,
        },
        t.binding_count as int,
        t.child_count as int,
    )
}

/// The summary owed for the thread at position `p`.
pub open spec fn thread_summary_of(s: Seq<ObjectRecord>, p: int) -> (Seq<char>, Option<JsonValue>, Option<JsonValue>, int, int) {
    (
        s[p].id@,
        json_get(s[p].value, "title"@),
        json_get(s[p].value, "status"@),
        count_naming(s, false, "thread_id"@, s[p].id@, s.len() as int) as int,
        count_naming(s, true, "parent_thread_id"@, s[p].id@, s.len() as int) as int,
    )
}

fn member_text_is(v: &JsonValue, key: &str, id: &str) -> (r: bool)
    ensures
        r == names_text(*v, key@, id@),
{
    match v.get(key) {
        Some(x) => match x.as_str() {
            Some(t) => str_eq(t, id),
            None => false,
        },
        None => false,
    }
}

impl ProjectIndex {
    /// How many objects are bindings (or threads, where `thread_kind`) naming `id` under `key`.
    fn count_naming_exec(&self, thread_kind: bool, key: &str, id: &str) -> (r: Result<usize, ExecutionStop>)
        requires
            self.wf(),
        ensures
            r matches Ok(c) ==> c == count_naming(self.entries(), thread_kind, key@, id@, self.entries().len() as int),
            self.entries().len() == 0 ==> r is Ok,
    {
        let objects = self.objects();
        let ghost s = self.entries();
        let mut count: usize = 0;
        let mut k: usize = 0;
        while k < objects.len()
            invariant
                s == self.entries(),
                objects@ == s,
                k <= s.len(),
                count == count_naming(s, thread_kind, key@, id@, k as int),
                count <= k,
            decreases s.len() - k,
        {
            match self.execution_budget().checkpoint() {
                Err(stop) => return Err(stop),
                Ok(()) => {},
            }
            let o = &objects[k];
            let kind = match o.object_type {
                ObjectType::Thread => thread_kind,
                ObjectType::ThreadBinding => !thread_kind,
                _ => false,
            };
            if kind && member_text_is(&o.value, key, id) {
                count = count + 1;
            }
            k = k + 1;
        }
        Ok(count)
    }

    /// The first `limit` research threads in id order, each with how many bindings
    /// name it and how many threads name it as parent; the budget's stop where it
    /// ends the listing.
    pub fn thread_list_checked(&self, limit: usize) -> (r: Result<ThreadListDto<'_>, NavigationError>)
        requires
            self.wf(),
        ensures
            r matches Err(e) ==> e is Stopped,
            r matches Ok(d) ==> {
                let all = thread_positions(self.entries(), self.entries().len() as int);
                let want = if limit < all.len() { limit as int } else { all.len() as int };
                &&& d.returned_count == d.threads@.len()
                &&& d.threads@.len() == want
                &&& forall|i: int| 0 <= i < want ==> summary_view(#[trigger] d.threads@[i]) == thread_summary_of(self.entries(), all[i])
            },
    {
        proof {
            reveal_strlit("thread_id");
            reveal_strlit("parent_thread_id");
        }
        match self.execution_budget().checkpoint() {
            Err(stop) => return Err(NavigationError::Stopped(stop)),
            Ok(()) => {},
        }
        let objects = self.objects();
        let ghost s = self.entries();
        let ghost all = thread_positions(s, s.len() as int);
        let mut threads: Vec<ThreadSummary<'_>> = Vec::new();
        let mut k: usize = 0;
        while k < objects.len() && threads.len() < limit
            invariant
                self.wf(),
                objects@ == s,
                s == self.entries(),
                all == thread_positions(s, s.len() as int),
                k <= s.len(),
                threads@.len() == thread_positions(s, k as int).len(),
                threads@.len() <= limit,
                forall|i: int| 0 <= i < threads@.len() ==> summary_view(#[trigger] threads@[i]) == thread_summary_of(s, thread_positions(s, k as int)[i]),
            decreases s.len() - k,
        {
            let o = &objects[k];
            let is_thread = match o.object_type {
                ObjectType::Thread => true,
                _ => false,
            };
            let ghost before = threads@;
            if is_thread {
                match self.execution_budget().checkpoint() {
                    Err(stop) => return Err(NavigationError::Stopped(stop)),
                    Ok(()) => {},
                }
                let bindings = match self.count_naming_exec(false, "thread_id", o.id.as_str()) {
                    Err(stop) => return Err(NavigationError::Stopped(stop)),
                    Ok(c) => c,
                };
                let children = match self.count_naming_exec(true, "parent_thread_id", o.id.as_str()) {
                    Err(stop) => return Err(NavigationError::Stopped(stop)),
                    Ok(c) => c,
                };
                threads.push(ThreadSummary {
                    id: o.id.as_str(),
                    title: o.value.get("title"),
                    status: o.value.get("status"),
                    binding_count: bindings,
                    child_count: children,
                });
            }
            proof {
                lemma_thread_positions_prefix(s, k as int + 1, s.len() as int);
                assert forall|i: int| 0 <= i < threads@.len() implies summary_view(#[trigger] threads@[i]) == thread_summary_of(s, thread_positions(s, k + 1)[i]) by {
                    if i < before.len() {
                        assert(threads@[i] == before[i]);
                        assert(thread_positions(s, k + 1)[i] == thread_positions(s, k as int)[i]);
                    }
                }
            }
            k = k + 1;
        }
        proof {
            lemma_thread_positions_prefix(s, k as int, s.len() as int);
            if threads@.len() < limit {
                assert(k == s.len());
            }
            assert forall|i: int| 0 <= i < threads@.len() implies summary_view(#[trigger] threads@[i]) == thread_summary_of(s, all[i]) by {
                assert(thread_positions(s, k as int)[i] == all[i]);
            }
        }
        match self.execution_budget().checkpoint() {
            Err(stop) => return Err(NavigationError::Stopped(stop)),
            Ok(()) => {},
        }
        let n = threads.len();
        Ok(ThreadListDto { threads, returned_count: n })
    }

    /// The thread listing, or an empty one where the budget stops it.
    pub fn thread_list(&self, limit: usize) -> (r: ThreadListDto<'_>)
        requires
            self.wf(),
        ensures
            r.returned_count == r.threads@.len(),
            r.threads@.len() == 0 || {
                let all = thread_positions(self.entries(), self.entries().len() as int);
                let want = if limit < all.len() { limit as int } else { all.len() as int };
                &&& r.threads@.len() == want
                &&& forall|i: int| 0 <= i < want ==> summary_view(#[trigger] r.threads@[i]) == thread_summary_of(self.entries(), all[i])
            },
    {
        match self.thread_list_checked(limit) {
            Ok(d) => d,
            Err(_) => ThreadListDto { threads: Vec::new(), returned_count: 0 },
        }
    }
}

/// The threads among the first `m` objects start those among the first `n`, `m <= n`.
proof fn lemma_thread_positions_prefix(s: Seq<ObjectRecord>, m: int, n: int)
    requires
        0 <= m <= n,
    ensures
        thread_positions(s, m).len() <= thread_positions(s, n).len(),
        forall|i: int| 0 <= i < thread_positions(s, m).len() ==> #[trigger] thread_positions(s, n)[i] == thread_positions(s, m)[i],
        forall|i: int| 0 <= i < thread_positions(s, n).len() ==> 0 <= #[trigger] thread_positions(s, n)[i] < n,
        thread_positions(s, m).len() < thread_positions(s, n).len() ==> thread_positions(s, n)[thread_positions(s, m).len() as int] >= m,
    decreases n - m,
{
    if m < n {
        lemma_thread_positions_prefix(s, m, n - 1);
        let a = thread_positions(s, n - 1);
        let b = thread_positions(s, n);
        assert forall|i: int| 0 <= i < a.len() implies #[trigger] b[i] == a[i] by {}
    } else {
        lemma_thread_positions_bound(s, n);
    }
}

proof fn lemma_thread_positions_bound(s: Seq<ObjectRecord>, n: int)
    ensures
        forall|i: int| 0 <= i < thread_positions(s, n).len() ==> 0 <= #[trigger] thread_positions(s, n)[i] < n,
    decreases n,
{
    if n > 0 {
        lemma_thread_positions_bound(s, n - 1);
        let a = thread_positions(s, n - 1);
        let b = thread_positions(s, n);
        assert forall|i: int| 0 <= i < b.len() implies 0 <= #[trigger] b[i] < n by {
            if i < a.len() {
                assert(b[i] == a[i]);
            }
        }
    }
}

/// The text at `pointer`, or the empty text.
pub open spec fn text_or_empty(v: JsonValue, pointer: Seq<char>) -> Seq<char> {
    match as_text(json_pointer(v, pointer)) {
        Some(t) => t,
        None => Seq::empty(),
    }
}

/// A value's sort key: the UTF-8 bytes of the texts at `pointers`.
pub open spec fn sort_key(v: JsonValue, pointers: Seq<Seq<char>>) -> Seq<Seq<u8>> {
    pointers.map_values(|p: Seq<char>| encode_utf8(text_or_empty(v, p)))
}

/// Lexicographic order of keys of equal length.
pub open spec fn keys_lt(a: Seq<Seq<u8>>, b: Seq<Seq<u8>>) -> bool
    decreases a.len(),
{
    if a.len() == 0 || b.len() == 0 {
        false
    } else if bytes_lt(a[0], b[0]) {
        true
    } else if a[0] == b[0] {
        keys_lt(a.drop_first(), b.drop_first())
    } else {
        false
    }
}

proof fn lemma_keys_order(a: Seq<Seq<u8>>, b: Seq<Seq<u8>>, c: Seq<Seq<u8>>)
    ensures
        !keys_lt(a, a),
        keys_lt(a, b) && keys_lt(b, c) ==> keys_lt(a, c),
    decreases a.len(),
{
    if a.len() > 0 {
        lemma_bytes_lt_irreflexive(a[0]);
        if b.len() > 0 && c.len() > 0 {
            if bytes_lt(a[0], b[0]) && bytes_lt(b[0], c[0]) {
                lemma_bytes_lt_transitive(a[0], b[0], c[0]);
            }
            lemma_keys_order(a.drop_first(), b.drop_first(), c.drop_first());
        } else {
            lemma_keys_order(a.drop_first(), a.drop_first(), a.drop_first());
        }
    }
}

/// Values in ascending order of their keys at `pointers`.
pub open spec fn values_sorted(v: Seq<JsonValue>, pointers: Seq<Seq<char>>) -> bool {
    forall|i: int, j: int| 0 <= i < j < v.len() ==> !keys_lt(sort_key(#[trigger] v[j], pointers), sort_key(#[trigger] v[i], pointers))
}

/// The pointers as texts.
pub open spec fn pointers_view(p: Seq<&str>) -> Seq<Seq<char>> {
    p.map_values(|x: &str| x@)
}

fn text_or_empty_at<'a>(v: &'a JsonValue, pointer: &str) -> (r: &'a str)
    ensures
        r@ == text_or_empty(*v, pointer@),
{
    proof {
        reveal_strlit("");
    }
    match text_at(v, pointer) {
        Some(t) => t,
        None => "",
    }
}

/// Whether `a` sorts before `b` by the texts at `pointers`.
fn key_before(a: &JsonValue, b: &JsonValue, pointers: &[&str]) -> (r: bool)
    ensures
        r == keys_lt(sort_key(*a, pointers_view(pointers@)), sort_key(*b, pointers_view(pointers@))),
{
    let ghost pv = pointers_view(pointers@);
    let mut i: usize = 0;
    proof {
        assert(sort_key(*a, pv).skip(0) =~= sort_key(*a, pv));
        assert(sort_key(*b, pv).skip(0) =~= sort_key(*b, pv));
    }
    while i < pointers.len()
        invariant
            i <= pointers@.len(),
            pv == pointers_view(pointers@),
            keys_lt(sort_key(*a, pv), sort_key(*b, pv)) == keys_lt(sort_key(*a, pv).skip(i as int), sort_key(*b, pv).skip(i as int)),
        decreases pointers@.len() - i,
    {
        let x = text_or_empty_at(a, pointers[i]);
        let y = text_or_empty_at(b, pointers[i]);
        let ghost ka = sort_key(*a, pv).skip(i as int);
        let ghost kb = sort_key(*b, pv).skip(i as int);
        proof {
            assert(ka[0] == encode_utf8(x@));
            assert(kb[0] == encode_utf8(y@));
            assert(ka.drop_first() =~= sort_key(*a, pv).skip(i + 1));
            assert(kb.drop_first() =~= sort_key(*b, pv).skip(i + 1));
        }
        let c = compare_bytes(x.as_bytes(), y.as_bytes());
        if c < 0 {
            return true;
        }
        if c > 0 {
            proof {
                lemma_bytes_lt_irreflexive(encode_utf8(x@));
                if bytes_lt(encode_utf8(x@), encode_utf8(y@)) {
                    lemma_bytes_lt_transitive(encode_utf8(x@), encode_utf8(y@), encode_utf8(x@));
                }
            }
            return false;
        }
        i = i + 1;
    }
    proof {
        assert(sort_key(*a, pv).skip(i as int).len() == 0);
    }
    false
}

fn insert_sorted<'a>(sorted: &mut Vec<&'a JsonValue>, x: &'a JsonValue, pointers: &[&str])
    requires
        values_sorted(rules_view(old(sorted)@), pointers_view(pointers@)),
    ensures
        values_sorted(rules_view(final(sorted)@), pointers_view(pointers@)),
        rules_view(final(sorted)@).to_multiset() == rules_view(old(sorted)@).to_multiset().insert(*x),
{
    let ghost pv = pointers_view(pointers@);
    let ghost keys = rules_view(sorted@);
    let mut p: usize = 0;
    while p < sorted.len() && !key_before(x, sorted[p], pointers)
        invariant
            p <= sorted@.len(),
            keys == rules_view(sorted@),
            pv == pointers_view(pointers@),
            forall|k: int| 0 <= k < p ==> !keys_lt(sort_key(*x, pv), sort_key(#[trigger] keys[k], pv)),
        decreases sorted.len() - p,
    {
        proof {
            assert(keys[p as int] == *sorted@[p as int]);
        }
        p = p + 1;
    }
    proof {
        vstd::seq_lib::to_multiset_insert(keys, p as int, *x);
        if p < sorted@.len() {
            assert(keys[p as int] == *sorted@[p as int]);
        }
    }
    sorted.insert(p, x);
    let ghost nk = rules_view(sorted@);
    assert(nk =~= keys.insert(p as int, *x));
    assert forall|i: int, j: int| 0 <= i < j < nk.len() implies !keys_lt(sort_key(#[trigger] nk[j], pv), sort_key(#[trigger] nk[i], pv)) by {
        if i < p && j == p {
        } else if i == p && j > p {
            if keys_lt(sort_key(nk[j], pv), sort_key(*x, pv)) {
                assert(nk[j] == keys[j - 1]);
                assert(keys_lt(sort_key(*x, pv), sort_key(keys[p as int], pv)));
                if j - 1 > p {
                    assert(!keys_lt(sort_key(keys[j - 1], pv), sort_key(keys[p as int], pv)));
                }
                lemma_keys_order(sort_key(keys[j - 1], pv), sort_key(*x, pv), sort_key(keys[p as int], pv));
                lemma_keys_order(sort_key(keys[p as int], pv), sort_key(keys[p as int], pv), sort_key(keys[p as int], pv));
            }
        } else if i < p && j < p {
        } else if i < p && j > p {
            assert(nk[j] == keys[j - 1]);
        } else {
            assert(nk[j] == keys[j - 1]);
            assert(nk[i] == keys[i - 1]);
        }
    }
}

/// The values in ascending order of their texts at `pointers`, equal keys in any order.
fn sort_values<'a>(values: Vec<&'a JsonValue>, pointers: &[&str]) -> (r: Vec<&'a JsonValue>)
    ensures
        values_sorted(rules_view(r@), pointers_view(pointers@)),
        rules_view(r@).to_multiset() == rules_view(values@).to_multiset(),
{
    let mut sorted: Vec<&'a JsonValue> = Vec::new();
    let mut k: usize = 0;
    proof {
        assert(rules_view(values@).subrange(0, 0) =~= Seq::<JsonValue>::empty());
        assert(rules_view(sorted@) =~= Seq::<JsonValue>::empty());
    }
    while k < values.len()
        invariant
            k <= values@.len(),
            values_sorted(rules_view(sorted@), pointers_view(pointers@)),
            rules_view(sorted@).to_multiset() == rules_view(values@).subrange(0, k as int).to_multiset(),
        decreases values@.len() - k,
    {
        insert_sorted(&mut sorted, values[k], pointers);
        proof {
            assert(rules_view(values@).subrange(0, k + 1) =~= rules_view(values@).subrange(0, k as int).push(*values@[k as int]));
            vstd::seq_lib::to_multiset_build(rules_view(values@).subrange(0, k as int), *values@[k as int]);
        }
        k = k + 1;
    }
    proof {
        assert(rules_view(values@).subrange(0, k as int) =~= rules_view(values@));
    }
    sorted
}

/// The values of the first `n` objects of the lineage `logical`, in index order.
pub open spec fn lineage_values(s: Seq<ObjectRecord>, logical: Seq<char>, n: int) -> Seq<JsonValue>
    decreases n,
{
    if n <= 0 {
        Seq::empty()
    } else if s[n - 1].logical_id matches Some(l) && l@ == logical {
        lineage_values(s, logical, n - 1).push(s[n - 1].value)
    } else {
        lineage_values(s, logical, n - 1)
    }
}

/// The values of the first `n` bindings of thread `id`, in index order.
pub open spec fn binding_values(s: Seq<ObjectRecord>, id: Seq<char>, n: int) -> Seq<JsonValue>
    decreases n,
{
    if n <= 0 {
        Seq::empty()
    } else if s[n - 1].object_type is ThreadBinding && names_text(s[n - 1].value, "thread_id"@, id) {
        binding_values(s, id, n - 1).push(s[n - 1].value)
    } else {
        binding_values(s, id, n - 1)
    }
}

/// The order of revisions in a history: creation time, then id.
pub open spec fn history_order() -> Seq<Seq<char>> {
    seq!["/created_at"@, "/id"@]
}

/// The order of bindings in a thread: target, role, then id.
pub open spec fn binding_order() -> Seq<Seq<char>> {
    seq!["/target/id"@, "/role"@, "/id"@]
}

/// The revisions of one lineage and its current heads.
pub struct HistoryDto<'a> {
    pub logical_id: String,
    pub revisions: Vec<&'a JsonValue>,
    pub heads: Vec<String>,
}

/// A research thread and the bindings that name it.
pub struct ThreadShowDto<'a> {
    pub thread: &'a JsonValue,
    pub bindings: Vec<&'a JsonValue>,
}

impl ProjectIndex {
    /// The revisions of the lineage `logical_id`, by creation time then id, and its
    /// heads: `NotFound` where no object belongs to it; the budget's stop where it ends
    /// the request.
    pub fn history(&self, logical_id: &str) -> (r: Result<HistoryDto<'_>, NavigationError>)
        requires
            self.wf(),
            self.heads_ready(),
        ensures
            r matches Err(e) ==> e is NotFound || e is Stopped,
            r matches Err(NavigationError::NotFound) ==> lineage_values(self.entries(), logical_id@, self.entries().len() as int).len() == 0,
            lineage_values(self.entries(), logical_id@, self.entries().len() as int).len() == 0 ==> !(r is Ok),
            r matches Ok(d) ==> {
                &&& d.logical_id@ == logical_id@
                &&& values_sorted(rules_view(d.revisions@), history_order())
                &&& rules_view(d.revisions@).to_multiset() == lineage_values(self.entries(), logical_id@, self.entries().len() as int).to_multiset()
                &&& d.heads@.map_values(|x: String| x@) == crate::index::heads_of(self.entries(), logical_id@, self.entries().len() as int)
            },
    {
        match self.execution_budget().checkpoint() {
            Err(stop) => return Err(NavigationError::Stopped(stop)),
            Ok(()) => {},
        }
        let objects = self.objects();
        let ghost s = self.entries();
        let mut revisions: Vec<&JsonValue> = Vec::new();
        let mut k: usize = 0;
        while k < objects.len()
            invariant
                objects@ == s,
                k <= s.len(),
                rules_view(revisions@) == lineage_values(s, logical_id@, k as int),
            decreases s.len() - k,
        {
            match self.execution_budget().checkpoint() {
                Err(stop) => return Err(NavigationError::Stopped(stop)),
                Ok(()) => {},
            }
            let o = &objects[k];
            let member = match &o.logical_id {
                Some(l) => str_eq(l.as_str(), logical_id),
                None => false,
            };
            let ghost before = revisions@;
            if member {
                revisions.push(&o.value);
                proof {
                    assert(rules_view(revisions@) =~= rules_view(before).push(o.value));
                }
            }
            k = k + 1;
        }
        match self.execution_budget().checkpoint() {
            Err(stop) => return Err(NavigationError::Stopped(stop)),
            Ok(()) => {},
        }
        if revisions.len() == 0 {
            return Err(NavigationError::NotFound);
        }
        let order: [&str; 2] = ["/created_at", "/id"];
        proof {
            assert(pointers_view(order@) =~= history_order());
        }
        let sorted = sort_values(revisions, &order);
        let found = self.heads_for(logical_id);
        let mut heads: Vec<String> = Vec::new();
        let mut h: usize = 0;
        while h < found.len()
            invariant
                h <= found@.len(),
                heads@.map_values(|x: String| x@) == found@.subrange(0, h as int).map_values(|x: &str| x@),
            decreases found@.len() - h,
        {
            let ghost before = heads@;
            heads.push(found[h].to_string());
            proof {
                assert(heads@.map_values(|x: String| x@) =~= before.map_values(|x: String| x@).push(found@[h as int]@));
                assert(found@.subrange(0, h + 1).map_values(|x: &str| x@) =~= found@.subrange(0, h as int).map_values(|x: &str| x@).push(found@[h as int]@));
            }
            h = h + 1;
        }
        proof {
            assert(found@.subrange(0, h as int) =~= found@);
        }
        match self.execution_budget().checkpoint() {
            Err(stop) => return Err(NavigationError::Stopped(stop)),
            Ok(()) => {},
        }
        Ok(HistoryDto { logical_id: logical_id.to_string(), revisions: sorted, heads })
    }

    /// Research thread `id` with the bindings that name it, by target, role then id:
    /// `InvalidAsOf` where jiff refuses the instant, else `NotFound` where `id` is no
    /// thread; the budget's stop where it ends the request.
    pub fn thread_show(&self, id: &str, as_of: &str) -> (r: Result<ThreadShowDto<'_>, NavigationError>)
        requires
            self.wf(),
        ensures
            r matches Err(e) ==> e is InvalidAsOf || e is NotFound || e is Stopped,
            r matches Err(NavigationError::InvalidAsOf) ==> jiff_instant(as_of@) is None,
            r matches Err(NavigationError::NotFound) ==> jiff_instant(as_of@) is Some
                && !(object_with(self.entries(), id@) matches Some(t) && t.object_type is Thread),
            jiff_instant(as_of@) is None ==> !(r is Ok) && !(r matches Err(NavigationError::NotFound)),
            jiff_instant(as_of@) is Some && (object_with(self.entries(), id@) matches Some(t) && t.object_type is Thread)
                ==> !(r matches Err(NavigationError::NotFound)) && !(r matches Err(NavigationError::InvalidAsOf)),
            r matches Ok(d) ==> {
                &&& object_with(self.entries(), id@) matches Some(t) && t.object_type is Thread && *d.thread == t.value
                &&& values_sorted(rules_view(d.bindings@), binding_order())
                &&& rules_view(d.bindings@).to_multiset() == binding_values(self.entries(), id@, self.entries().len() as int).to_multiset()
            },
    {
        proof {
            reveal_strlit("thread_id");
        }
        match self.execution_budget().checkpoint() {
            Err(stop) => return Err(NavigationError::Stopped(stop)),
            Ok(()) => {},
        }
        match parse_instant(as_of) {
            Some(_) => {},
            None => return Err(NavigationError::InvalidAsOf),
        }
        let thread = match self.get(id) {
            Some(t) => t,
            None => return Err(NavigationError::NotFound),
        };
        match thread.object_type {
            ObjectType::Thread => {},
            _ => return Err(NavigationError::NotFound),
        }
        let objects = self.objects();
        let ghost s = self.entries();
        let mut bindings: Vec<&JsonValue> = Vec::new();
        let mut k: usize = 0;
        while k < objects.len()
            invariant
                objects@ == s,
                k <= s.len(),
                rules_view(bindings@) == binding_values(s, id@, k as int),
            decreases s.len() - k,
        {
            match self.execution_budget().checkpoint() {
                Err(stop) => return Err(NavigationError::Stopped(stop)),
                Ok(()) => {},
            }
            let o = &objects[k];
            let binding = match o.object_type {
                ObjectType::ThreadBinding => true,
                _ => false,
            };
            let ghost before = bindings@;
            if binding && member_text_is(&o.value, "thread_id", id) {
                bindings.push(&o.value);
                proof {
                    assert(rules_view(bindings@) =~= rules_view(before).push(o.value));
                }
            }
            k = k + 1;
        }
        let order: [&str; 3] = ["/target/id", "/role", "/id"];
        proof {
            assert(pointers_view(order@) =~= binding_order());
        }
        let sorted = sort_values(bindings, &order);
        match self.execution_budget().checkpoint() {
            Err(stop) => return Err(NavigationError::Stopped(stop)),
            Ok(()) => {},
        }
        let dto = ThreadShowDto { thread: &thread.value, bindings: sorted };
        match self.execution_budget().checkpoint() {
            Err(stop) => return Err(NavigationError::Stopped(stop)),
            Ok(()) => {},
        }
        Ok(dto)
    }
}

/// The count keys in ascending byte order.
pub open spec fn count_keys() -> Seq<Seq<char>> {
    seq![
        "artifact_manifest"@,
        "assessment"@,
        "claim_chain_snapshot"@,
        "external_reference"@,
        "node_revision"@,
        "project"@,
        "research_run"@,
        "research_thread"@,
        "scientific_relation_revision"@,
        "thread_binding"@,
    ]
}

/// How many of the first `n` objects are counted under `key`.
pub open spec fn key_count(s: Seq<ObjectRecord>, key: Seq<char>, n: int) -> nat
    decreases n,
{
    if n <= 0 {
        0
    } else {
        key_count(s, key, n - 1) + if count_key(s[n - 1].object_type) == key { 1nat } else { 0nat }
    }
}

/// The keys among the first `m` count keys that some object is counted under, with
/// their counts, in key order.
pub open spec fn object_counts_upto(s: Seq<ObjectRecord>, m: int) -> Seq<(Seq<char>, int)>
    decreases m,
{
    if m <= 0 {
        Seq::empty()
    } else {
        let prev = object_counts_upto(s, m - 1);
        let key = count_keys()[m - 1];
        if key_count(s, key, s.len() as int) > 0 {
            prev.push((key, key_count(s, key, s.len() as int) as int))
        } else {
            prev
        }
    }
}

/// The records whose freshness an overview counts.
pub open spec fn freshness_counted(t: ObjectType) -> bool {
    t is Node || t is Relation || t is Assessment || t is ThreadBinding
}

/// How many of the first `n` counted records have freshness `status` at `as_of`.
pub open spec fn freshness_count(index: ProjectIndex, status: FreshnessStatus, as_of: int, n: int) -> nat
    decreases n,
{
    if n <= 0 {
        0
    } else {
        let o = index.entries()[n - 1];
        freshness_count(index, status, as_of, n - 1) + if freshness_counted(o.object_type)
            && freshness_of(index.entries(), index.freshness_policy(), index.verified(), o, as_of).0 == status {
            1nat
        } else {
            0nat
        }
    }
}

/// How many of the first `n` records are nodes, scientific relations, assessments or
/// thread bindings.
pub open spec fn scientific_records(s: Seq<ObjectRecord>, n: int) -> nat
    decreases n,
{
    if n <= 0 {
        0
    } else {
        let t = s[n - 1].object_type;
        scientific_records(s, n - 1) + if t is Node || t is Relation || t is Assessment || t is ThreadBinding { 1nat } else { 0nat }
    }
}

/// An overview's freshness counts cover every node, scientific relation, assessment and
/// thread binding once, under its own status, and nothing else.
pub proof fn law_overview_counts_cover(index: ProjectIndex, as_of: int, n: int)
    requires
        0 <= n <= index.entries().len(),
    ensures
        freshness_count(index, FreshnessStatus::Unknown, as_of, n) + freshness_count(index, FreshnessStatus::Fresh, as_of, n)
            + freshness_count(index, FreshnessStatus::ReviewDue, as_of, n) + freshness_count(index, FreshnessStatus::Stale, as_of, n)
            == scientific_records(index.entries(), n),
    decreases n,
{
    if n > 0 {
        law_overview_counts_cover(index, as_of, n - 1);
    }
}

/// The object belongs to the lineage `l`.
pub open spec fn in_lineage(o: ObjectRecord, l: Seq<char>) -> bool {
    o.logical_id matches Some(x) && x@ == l
}

/// Some one of the first `n` objects belongs to the lineage `l`.
pub open spec fn lineage_named(s: Seq<ObjectRecord>, l: Seq<char>, n: int) -> bool {
    exists|k: int| 0 <= k < n && in_lineage(#[trigger] s[k], l)
}

/// The current nodes of kind `kind`: members of a lineage that no object names as parent.
pub open spec fn current_nodes(s: Seq<ObjectRecord>, kind: Seq<char>, n: int) -> Seq<Seq<char>>
    decreases n,
{
    if n <= 0 {
        Seq::empty()
    } else {
        let o = s[n - 1];
        let prev = current_nodes(s, kind, n - 1);
        if (o.object_type matches ObjectType::Node(k) && k@ == kind) && o.logical_id is Some
            && !crate::index::is_parent(s, o.id@) {
            prev.push(o.id@)
        } else {
            prev
        }
    }
}

/// The names of a list as texts.
pub open spec fn strings_view(v: Seq<String>) -> Seq<Seq<char>> {
    v.map_values(|x: String| x@)
}

impl ProjectIndex {
    /// The ids of the current nodes of kind `kind`, ascending.
    fn current_node_ids(&self, kind: &str) -> (r: Vec<String>)
        requires
            self.heads_ready(),
        ensures
            strings_view(r@) == current_nodes(self.entries(), kind@, self.entries().len() as int),
    {
        let objects = self.objects();
        let ghost s = self.entries();
        let mut out: Vec<String> = Vec::new();
        let mut k: usize = 0;
        while k < objects.len()
            invariant
                self.heads_ready(),
                objects@ == s,
                s == self.entries(),
                k <= s.len(),
                strings_view(out@) == current_nodes(s, kind@, k as int),
            decreases s.len() - k,
        {
            let o = &objects[k];
            let of_kind = match &o.object_type {
                ObjectType::Node(actual) => str_eq(actual.as_str(), kind),
                _ => false,
            };
            if of_kind && o.logical_id.is_some() && !self.named_as_parent(k) {
                let ghost before = out@;
                out.push(o.id.clone());
                proof {
                    assert(strings_view(out@) =~= strings_view(before).push(o.id@));
                }
            }
            k = k + 1;
        }
        out
    }

    /// The lineages with more than one head, ascending.
    fn unresolved_forks(&self) -> (r: Vec<String>)
        requires
            self.heads_ready(),
        ensures
            crate::access::names_ascending(r@),
            forall|l: Seq<char>| #[trigger] crate::access::names(r@).contains(l) <==> (lineage_named(self.entries(), l, self.entries().len() as int)
                && crate::index::heads_of(self.entries(), l, self.entries().len() as int).len() > 1),
    {
        let objects = self.objects();
        let ghost s = self.entries();
        let mut out: Vec<String> = Vec::new();
        let mut k: usize = 0;
        while k < objects.len()
            invariant
                self.heads_ready(),
                objects@ == s,
                s == self.entries(),
                k <= s.len(),
                crate::access::names_ascending(out@),
                forall|l: Seq<char>| #[trigger] crate::access::names(out@).contains(l) <==> (lineage_named(s, l, k as int)
                    && crate::index::heads_of(s, l, s.len() as int).len() > 1),
            decreases s.len() - k,
        {
            let o = &objects[k];
            let ghost before = out@;
            match &o.logical_id {
                Some(l) => {
                    let heads = self.heads_for(l.as_str());
                    proof {
                        assert(heads@.len() == heads@.map_values(|x: &str| x@).len());
                    }
                    if heads.len() > 1 {
                        crate::project_access::insert_name(&mut out, l.as_str());
                    }
                },
                None => {},
            }
            proof {
                assert forall|l: Seq<char>| #[trigger] crate::access::names(out@).contains(l) <==> (lineage_named(s, l, k + 1)
                    && crate::index::heads_of(s, l, s.len() as int).len() > 1) by {
                    if lineage_named(s, l, k + 1) && !lineage_named(s, l, k as int) {
                        let q = choose|q: int| 0 <= q < k + 1 && in_lineage(#[trigger] s[q], l);
                        assert(q == k);
                    }
                    if lineage_named(s, l, k as int) {
                        let q = choose|q: int| 0 <= q < k && in_lineage(#[trigger] s[q], l);
                        assert(lineage_named(s, l, k + 1));
                    }
                    if in_lineage(*o, l) {
                        assert(in_lineage(s[k as int], l));
                    }
                }
            }
            k = k + 1;
        }
        out
    }

    /// A project overview at the instant `as_of` names: objects counted by kind, the
    /// lineages with more than one head, the current blockers and next actions, and how
    /// many nodes, relations, assessments and bindings have each freshness.
    /// `InvalidAsOf` where jiff refuses the instant; the budget's stop where it ends
    /// the request.
    pub fn overview(&self, as_of: &str) -> (r: Result<crate::navigation::OverviewDto, NavigationError>)
        requires
            self.wf(),
            self.heads_ready(),
        ensures
            r matches Err(e) ==> e is InvalidAsOf || e is Stopped,
            r matches Err(NavigationError::InvalidAsOf) ==> jiff_instant(as_of@) is None,
            jiff_instant(as_of@) is None ==> !(r is Ok),
            r matches Ok(d) ==> jiff_instant(as_of@) matches Some(t) && {
                let s = self.entries();
                &&& d.object_counts@.map_values(|x: (String, usize)| (x.0@, x.1 as int)) == object_counts_upto(s, 10)
                &&& crate::access::names_ascending(d.unresolved_forks@)
                &&& forall|l: Seq<char>| #[trigger] crate::access::names(d.unresolved_forks@).contains(l) <==> (lineage_named(s, l, s.len() as int)
                    && crate::index::heads_of(s, l, s.len() as int).len() > 1)
                &&& strings_view(d.blockers@) == current_nodes(s, "Blocker"@, s.len() as int)
                &&& strings_view(d.next_actions@) == current_nodes(s, "NextAction"@, s.len() as int)
                &&& forall|st: FreshnessStatus| #[trigger] d.freshness_counts.count_of(st) == freshness_count(*self, st, t, s.len() as int)
                &&& d.freshness_counts.unknown + d.freshness_counts.fresh + d.freshness_counts.review_due + d.freshness_counts.stale
                    == scientific_records(s, s.len() as int)
            },
    {
        match self.execution_budget().checkpoint() {
            Err(stop) => return Err(NavigationError::Stopped(stop)),
            Ok(()) => {},
        }
        let t = match parse_instant(as_of) {
            Some(t) => t,
            None => return Err(NavigationError::InvalidAsOf),
        };
        let objects = self.objects();
        let ghost s = self.entries();
        let keys: [&str; 10] = [
            "artifact_manifest",
            "assessment",
            "claim_chain_snapshot",
            "external_reference",
            "node_revision",
            "project",
            "research_run",
            "research_thread",
            "scientific_relation_revision",
            "thread_binding",
        ];
        proof {
            assert(keys@.map_values(|x: &str| x@) =~= count_keys());
        }
        let mut object_counts: Vec<(String, usize)> = Vec::new();
        let mut m: usize = 0;
        while m < 10
            invariant
                m <= 10,
                objects@ == s,
                keys@.map_values(|x: &str| x@) == count_keys(),
                object_counts@.map_values(|x: (String, usize)| (x.0@, x.1 as int)) == object_counts_upto(s, m as int),
            decreases 10 - m,
        {
            let key = keys[m];
            proof {
                assert(key@ == count_keys()[m as int]);
            }
            let mut count: usize = 0;
            let mut k: usize = 0;
            while k < objects.len()
                invariant
                    objects@ == s,
                    k <= s.len(),
                    count == key_count(s, key@, k as int),
                    count <= k,
                decreases s.len() - k,
            {
                match self.execution_budget().checkpoint() {
                    Err(stop) => return Err(NavigationError::Stopped(stop)),
                    Ok(()) => {},
                }
                if str_eq(crate::navigation::object_count_key(&objects[k].object_type), key) {
                    count = count + 1;
                }
                k = k + 1;
            }
            if count > 0 {
                let ghost before = object_counts@;
                object_counts.push((key.to_string(), count));
                proof {
                    assert(object_counts@.map_values(|x: (String, usize)| (x.0@, x.1 as int))
                        =~= before.map_values(|x: (String, usize)| (x.0@, x.1 as int)).push((key@, count as int)));
                }
            }
            m = m + 1;
        }
        let unresolved_forks = self.unresolved_forks();
        let blockers = self.current_node_ids("Blocker");
        let next_actions = self.current_node_ids("NextAction");
        let mut counts = crate::navigation::FreshnessCounts { unknown: 0, fresh: 0, review_due: 0, stale: 0 };
        let mut k: usize = 0;
        while k < objects.len()
            invariant
                self.wf(),
                objects@ == s,
                s == self.entries(),
                k <= s.len(),
                forall|st: FreshnessStatus| #[trigger] counts.count_of(st) == freshness_count(*self, st, t as int, k as int),
                forall|st: FreshnessStatus| #[trigger] counts.count_of(st) <= k,
            decreases s.len() - k,
        {
            let o = &objects[k];
            let counted = match o.object_type {
                ObjectType::Node(_) | ObjectType::Relation | ObjectType::Assessment | ObjectType::ThreadBinding => true,
                _ => false,
            };
            if counted {
                match self.execution_budget().checkpoint() {
                    Err(stop) => return Err(NavigationError::Stopped(stop)),
                    Ok(()) => {},
                }
                let e = match self.freshness_at(o, t) {
                    Err(stop) => return Err(NavigationError::Stopped(stop)),
                    Ok(e) => e,
                };
                proof {
                    assert(counts.count_of(e.status) <= k);
                }
                counts.record(e.status);
            }
            k = k + 1;
        }
        match self.execution_budget().checkpoint() {
            Err(stop) => return Err(NavigationError::Stopped(stop)),
            Ok(()) => {},
        }
        proof {
            law_overview_counts_cover(*self, jiff_instant(as_of@)->0, self.entries().len() as int);
            assert(counts.count_of(FreshnessStatus::Unknown) == counts.unknown as int);
            assert(counts.count_of(FreshnessStatus::Fresh) == counts.fresh as int);
            assert(counts.count_of(FreshnessStatus::ReviewDue) == counts.review_due as int);
            assert(counts.count_of(FreshnessStatus::Stale) == counts.stale as int);
        }
        Ok(crate::navigation::OverviewDto {
            object_counts,
            unresolved_forks,
            blockers,
            next_actions,
            freshness_counts: counts,
        })
    }
}

/// One row of a query result.
pub struct QueryRow<'a> {
    pub id: &'a str,
    pub schema: Option<&'a JsonValue>,
    pub logical_id: Option<&'a str>,
    pub kind: Option<&'a JsonValue>,
    pub title: Option<&'a JsonValue>,
    pub freshness: FreshnessStatus,
}

/// The rows of a query, at most its limit, and whether more matched.
pub struct QueryDto<'a> {
    pub rows: Vec<QueryRow<'a>>,
    pub returned_count: usize,
    pub truncated: bool,
}

/// What a query row shows of an object.
pub open spec fn row_view(r: QueryRow) -> (Seq<char>, FreshnessStatus) {
    (r.id@, r.freshness)
}

/// An optional reference as an optional value.
pub open spec fn opt_ref(v: Option<&JsonValue>) -> Option<JsonValue> {
    match v {
        Some(x) => Some(*x),
        None => None,
    }
}

/// A query row shows object `o`: its schema, lineage, kind and title.
pub open spec fn row_shows(row: QueryRow, o: ObjectRecord) -> bool {
    &&& opt_ref(row.schema) == json_get(o.value, "schema"@)
    &&& opt_ref(row.kind) == json_get(o.value, "kind"@)
    &&& opt_ref(row.title) == json_get(o.value, "title"@)
    &&& match row.logical_id {
        Some(l) => o.logical_id matches Some(x) && x@ == l@,
        None => o.logical_id is None,
    }
}

/// Some binding of thread `tid` targets `id`.
pub open spec fn bound_to_thread(s: Seq<ObjectRecord>, tid: Seq<char>, id: Seq<char>) -> bool {
    exists|k: int| 0 <= k < s.len() && (#[trigger] s[k]).object_type is ThreadBinding && names_text(s[k].value, "thread_id"@, tid)
        && as_text(json_pointer(s[k].value, "/target/id"@)) == Some(id)
}

/// Object `o` passes the query's kind and thread filters.
pub open spec fn query_selects(s: Seq<ObjectRecord>, kind: Option<Seq<char>>, thread: Option<Seq<char>>, o: ObjectRecord) -> bool {
    &&& match kind {
        Some(k) => o.object_type matches ObjectType::Node(actual) && actual@ == k,
        None => true,
    }
    &&& match thread {
        Some(tid) => bound_to_thread(s, tid, o.id@),
        None => true,
    }
}

/// The rows the first `n` objects give a query, as (id, freshness).
pub open spec fn query_rows(
    index: ProjectIndex,
    kind: Option<Seq<char>>,
    thread: Option<Seq<char>>,
    freshness: Option<FreshnessStatus>,
    as_of: int,
    n: int,
) -> Seq<(Seq<char>, FreshnessStatus)>
    decreases n,
{
    if n <= 0 {
        Seq::empty()
    } else {
        let s = index.entries();
        let o = s[n - 1];
        let prev = query_rows(index, kind, thread, freshness, as_of, n - 1);
        let status = freshness_of(s, index.freshness_policy(), index.verified(), o, as_of).0;
        if query_selects(s, kind, thread, o) && (freshness matches Some(f) ==> f == status) {
            prev.push((o.id@, status))
        } else {
            prev
        }
    }
}

/// An optional text as a sequence.
pub open spec fn opt_str(t: Option<String>) -> Option<Seq<char>> {
    match t {
        Some(x) => Some(x@),
        None => None,
    }
}

impl ProjectIndex {
    /// The texts at `/target/id` of the bindings of thread `tid`.
    fn thread_targets(&self, tid: &str) -> (r: Result<Vec<&str>, ExecutionStop>)
        requires
            self.wf(),
        ensures
            r matches Ok(v) ==> forall|id: Seq<char>| #[trigger] strs_view(v@).contains(id) <==> bound_to_thread(self.entries(), tid@, id),
            self.entries().len() == 0 ==> r is Ok,
    {
        proof {
            reveal_strlit("thread_id");
        }
        let objects = self.objects();
        let ghost s = self.entries();
        let mut out: Vec<&str> = Vec::new();
        let mut k: usize = 0;
        while k < objects.len()
            invariant
                s == self.entries(),
                objects@ == s,
                k <= s.len(),
                forall|id: Seq<char>| #[trigger] strs_view(out@).contains(id) <==> exists|q: int| 0 <= q < k && (#[trigger] s[q]).object_type is ThreadBinding
                    && names_text(s[q].value, "thread_id"@, tid@) && as_text(json_pointer(s[q].value, "/target/id"@)) == Some(id),
            decreases s.len() - k,
        {
            match self.execution_budget().checkpoint() {
                Err(stop) => return Err(stop),
                Ok(()) => {},
            }
            let o = &objects[k];
            let binding = match o.object_type {
                ObjectType::ThreadBinding => true,
                _ => false,
            };
            let ghost before = out@;
            if binding && member_text_is(&o.value, "thread_id", tid) {
                match text_at(&o.value, "/target/id") {
                    Some(t) => {
                        out.push(t);
                        proof {
                            assert(strs_view(out@) =~= strs_view(before).push(t@));
                        }
                    },
                    None => {},
                }
            }
            proof {
                assert forall|id: Seq<char>| #[trigger] strs_view(out@).contains(id) <==> exists|q: int| 0 <= q < k + 1 && (#[trigger] s[q]).object_type is ThreadBinding
                    && names_text(s[q].value, "thread_id"@, tid@) && as_text(json_pointer(s[q].value, "/target/id"@)) == Some(id) by {
                    if strs_view(out@).contains(id) && !strs_view(before).contains(id) {
                        let w = choose|w: int| 0 <= w < strs_view(out@).len() && strs_view(out@)[w] == id;
                        assert(w == before.len());
                        assert(s[k as int] == *o);
                    }
                    if strs_view(before).contains(id) {
                        let w = choose|w: int| 0 <= w < strs_view(before).len() && strs_view(before)[w] == id;
                        assert(strs_view(out@)[w] == id);
                    }
                    if exists|q: int| 0 <= q < k + 1 && (#[trigger] s[q]).object_type is ThreadBinding
                        && names_text(s[q].value, "thread_id"@, tid@) && as_text(json_pointer(s[q].value, "/target/id"@)) == Some(id) {
                        let q = choose|q: int| 0 <= q < k + 1 && (#[trigger] s[q]).object_type is ThreadBinding
                            && names_text(s[q].value, "thread_id"@, tid@) && as_text(json_pointer(s[q].value, "/target/id"@)) == Some(id);
                        if q == k {
                            assert(strs_view(out@)[before.len() as int] == id);
                        }
                    }
                }
            }
            k = k + 1;
        }
        Ok(out)
    }

    /// The records matching a query at the instant it names, in id order: nodes of its
    /// kind, objects some binding of its thread targets, and of its freshness, where it
    /// gives them. At most `limit` rows are returned, with whether more matched.
    /// `InvalidLimit` where the limit is 0 or above 100000, else `InvalidAsOf` where jiff
    /// refuses the instant; the budget's stop where it ends the request.
    pub fn query(&self, options: crate::navigation::QueryOptions) -> (r: Result<QueryDto<'_>, NavigationError>)
        requires
            self.wf(),
        ensures
            r matches Err(e) ==> e is InvalidLimit || e is InvalidAsOf || e is Stopped,
            r matches Err(NavigationError::InvalidLimit) ==> options.limit == 0 || options.limit > 100000,
            r matches Err(NavigationError::InvalidAsOf) ==> jiff_instant(options.as_of@) is None,
            (options.limit == 0 || options.limit > 100000) ==> !(r is Ok) && !(r matches Err(NavigationError::InvalidAsOf)),
            jiff_instant(options.as_of@) is None ==> !(r is Ok),
            r matches Ok(d) ==> jiff_instant(options.as_of@) matches Some(t) && {
                let all = query_rows(*self, opt_str(options.kind), opt_str(options.thread_id), options.freshness, t,
                    self.entries().len() as int);
                let want = if options.limit < all.len() { options.limit as int } else { all.len() as int };
                &&& d.rows@.map_values(|x: QueryRow| row_view(x)) == all.take(want)
                &&& d.returned_count == d.rows@.len()
                &&& d.truncated == (all.len() > options.limit)
                &&& forall|i: int| 0 <= i < d.rows@.len() ==> {
                    let row = #[trigger] d.rows@[i];
                    object_with(self.entries(), row.id@) matches Some(o) && row_shows(row, o)
                }
            },
    {
        match self.execution_budget().checkpoint() {
            Err(stop) => return Err(NavigationError::Stopped(stop)),
            Ok(()) => {},
        }
        if options.limit == 0 || options.limit > 100_000 {
            return Err(NavigationError::InvalidLimit);
        }
        let t = match parse_instant(options.as_of.as_str()) {
            Some(t) => t,
            None => return Err(NavigationError::InvalidAsOf),
        };
        let targets = match &options.thread_id {
            Some(tid) => match self.thread_targets(tid.as_str()) {
                Err(stop) => return Err(NavigationError::Stopped(stop)),
                Ok(v) => Some(v),
            },
            None => None,
        };
        let objects = self.objects();
        let ghost s = self.entries();
        let ghost kind = opt_str(options.kind);
        let ghost thread = opt_str(options.thread_id);
        let mut rows: Vec<QueryRow<'_>> = Vec::new();
        let mut k: usize = 0;
        while k < objects.len()
            invariant
                self.wf(),
                objects@ == s,
                s == self.entries(),
                k <= s.len(),
                kind == opt_str(options.kind),
                thread == opt_str(options.thread_id),
                match targets {
                    Some(v) => thread matches Some(tid) && forall|id: Seq<char>| #[trigger] strs_view(v@).contains(id) <==> bound_to_thread(s, tid, id),
                    None => thread is None,
                },
                rows@.map_values(|x: QueryRow| row_view(x)) == query_rows(*self, kind, thread, options.freshness, t as int, k as int),
                forall|i: int| 0 <= i < rows@.len() ==> {
                    let row = #[trigger] rows@[i];
                    object_with(s, row.id@) matches Some(o) && row_shows(row, o)
                },
            decreases s.len() - k,
        {
            match self.execution_budget().checkpoint() {
                Err(stop) => return Err(NavigationError::Stopped(stop)),
                Ok(()) => {},
            }
            let o = &objects[k];
            let kind_ok = match &options.kind {
                Some(want) => match &o.object_type {
                    ObjectType::Node(actual) => str_eq(actual.as_str(), want.as_str()),
                    _ => false,
                },
                None => true,
            };
            let thread_ok = match &targets {
                Some(v) => has_str(v, o.id.as_str()),
                None => true,
            };
            let ghost before = rows@;
            if kind_ok && thread_ok {
                let e = match self.freshness_at(o, t) {
                    Err(stop) => return Err(NavigationError::Stopped(stop)),
                    Ok(e) => e,
                };
                let wanted = match options.freshness {
                    Some(f) => f == e.status,
                    None => true,
                };
                if wanted {
                    let row = QueryRow {
                        id: o.id.as_str(),
                        schema: o.value.get("schema"),
                        logical_id: match &o.logical_id {
                            Some(l) => Some(l.as_str()),
                            None => None,
                        },
                        kind: o.value.get("kind"),
                        title: o.value.get("title"),
                        freshness: e.status,
                    };
                    rows.push(row);
                    proof {
                        self.lemma_wf_ascending();
                        crate::index::lemma_position_of(s, o.id@);
                        assert(rows@.map_values(|x: QueryRow| row_view(x)) =~= before.map_values(|x: QueryRow| row_view(x)).push((o.id@, e.status)));
                        assert forall|i: int| 0 <= i < rows@.len() implies {
                            let row = #[trigger] rows@[i];
                            object_with(s, row.id@) matches Some(ob) && row_shows(row, ob)
                        } by {
                            if i < before.len() {
                                assert(rows@[i] == before[i]);
                            }
                        }
                    }
                } else {
                    proof {
                        assert(rows@ == before);
                    }
                }
            }
            k = k + 1;
        }
        match self.execution_budget().checkpoint() {
            Err(stop) => return Err(NavigationError::Stopped(stop)),
            Ok(()) => {},
        }
        let truncated = rows.len() > options.limit;
        let ghost all = rows@;
        rows.truncate(options.limit);
        proof {
            let want = if options.limit < all.len() { options.limit as int } else { all.len() as int };
            assert(rows@ =~= all.take(want));
            assert(rows@.map_values(|x: QueryRow| row_view(x)) =~= all.map_values(|x: QueryRow| row_view(x)).take(want));
            assert forall|i: int| 0 <= i < rows@.len() implies {
                let row = #[trigger] rows@[i];
                object_with(s, row.id@) matches Some(ob) && row_shows(row, ob)
            } by {
                assert(rows@[i] == all[i]);
            }
        }
        let n = rows.len();
        Ok(QueryDto { rows, returned_count: n, truncated })
    }
}

/// One object with what the index derives about it.
pub struct ShowDto<'a> {
    pub object: &'a JsonValue,
    pub is_head: bool,
    pub lineage_heads: Vec<String>,
    pub freshness: FreshnessStatus,
    pub assessment_ids: Vec<String>,
    pub thread_binding_ids: Vec<String>,
    pub effective_access: Option<crate::access::AccessLabel>,
}

/// The ids of the first `n` assessments (or bindings) whose target is `id`.
pub open spec fn targeting(s: Seq<ObjectRecord>, assessments: bool, id: Seq<char>, n: int) -> Seq<Seq<char>>
    decreases n,
{
    if n <= 0 {
        Seq::empty()
    } else {
        let o = s[n - 1];
        let prev = targeting(s, assessments, id, n - 1);
        let kind = if assessments { o.object_type is Assessment } else { o.object_type is ThreadBinding };
        if kind && as_text(json_pointer(o.value, "/target/id"@)) == Some(id) {
            prev.push(o.id@)
        } else {
            prev
        }
    }
}

/// The heads of the lineage an object belongs to; none outside a lineage.
pub open spec fn heads_of_object(s: Seq<ObjectRecord>, o: ObjectRecord) -> Seq<Seq<char>> {
    match o.logical_id {
        Some(l) => crate::index::heads_of(s, l@, s.len() as int),
        None => Seq::empty(),
    }
}

impl ProjectIndex {
    /// The ids of the assessments (or bindings) whose target is `id`.
    fn targeting_ids(&self, assessments: bool, id: &str) -> (r: Result<Vec<String>, ExecutionStop>)
        requires
            self.wf(),
        ensures
            r matches Ok(v) ==> strings_view(v@) == targeting(self.entries(), assessments, id@, self.entries().len() as int),
            self.entries().len() == 0 ==> r is Ok,
    {
        let objects = self.objects();
        let ghost s = self.entries();
        let mut out: Vec<String> = Vec::new();
        let mut k: usize = 0;
        while k < objects.len()
            invariant
                s == self.entries(),
                objects@ == s,
                k <= s.len(),
                strings_view(out@) == targeting(s, assessments, id@, k as int),
            decreases s.len() - k,
        {
            match self.execution_budget().checkpoint() {
                Err(stop) => return Err(stop),
                Ok(()) => {},
            }
            let o = &objects[k];
            let kind = match o.object_type {
                ObjectType::Assessment => assessments,
                ObjectType::ThreadBinding => !assessments,
                _ => false,
            };
            let targets = match text_at(&o.value, "/target/id") {
                Some(t) => str_eq(t, id),
                None => false,
            };
            if kind && targets {
                let ghost before = out@;
                out.push(o.id.clone());
                proof {
                    assert(strings_view(out@) =~= strings_view(before).push(o.id@));
                }
            }
            k = k + 1;
        }
        Ok(out)
    }

    /// Object `id` with its lineage heads, its freshness at the instant `as_of` names,
    /// the assessments and bindings that target it and its effective access:
    /// `NotFound` where there is no such object, else `InvalidAsOf` where jiff refuses
    /// the instant; the budget's stop where it ends the request.
    pub fn show(&self, id: &str, as_of: &str) -> (r: Result<ShowDto<'_>, NavigationError>)
        requires
            self.wf(),
            self.heads_ready(),
            self.access().wf(),
        ensures
            r matches Err(e) ==> e is NotFound || e is InvalidAsOf || e is Stopped,
            r matches Err(NavigationError::NotFound) ==> object_with(self.entries(), id@) is None,
            r matches Err(NavigationError::InvalidAsOf) ==> object_with(self.entries(), id@) is Some && jiff_instant(as_of@) is None,
            object_with(self.entries(), id@) is None ==> !(r is Ok) && !(r matches Err(NavigationError::InvalidAsOf)),
            jiff_instant(as_of@) is None ==> !(r is Ok),
            r matches Ok(d) ==> object_with(self.entries(), id@) matches Some(o) && jiff_instant(as_of@) matches Some(t) && {
                let s = self.entries();
                &&& *d.object == o.value
                &&& strings_view(d.lineage_heads@) == heads_of_object(s, o)
                &&& d.is_head == heads_of_object(s, o).contains(id@)
                &&& d.freshness == freshness_of(s, self.freshness_policy(), self.verified(), o, t).0
                &&& strings_view(d.assessment_ids@) == targeting(s, true, id@, s.len() as int)
                &&& strings_view(d.thread_binding_ids@) == targeting(s, false, id@, s.len() as int)
                &&& (d.effective_access is Some <==> crate::project_access::has_report(*self, id@))
                &&& d.effective_access matches Some(l) ==> exists|a: crate::access::AccessReport|
                    #[trigger] self.access().presents(o.ordinal as int, a) && a.effective == l
            },
    {
        match self.execution_budget().checkpoint() {
            Err(stop) => return Err(NavigationError::Stopped(stop)),
            Ok(()) => {},
        }
        let object = match self.get(id) {
            Some(o) => o,
            None => return Err(NavigationError::NotFound),
        };
        let freshness = match self.freshness(id, as_of) {
            Ok(e) => e,
            Err(e) => return Err(e),
        };
        let ghost s = self.entries();
        let mut heads: Vec<String> = Vec::new();
        match &object.logical_id {
            Some(l) => {
                let found = self.heads_for(l.as_str());
                let mut h: usize = 0;
                while h < found.len()
                    invariant
                        h <= found@.len(),
                        strings_view(heads@) == found@.subrange(0, h as int).map_values(|x: &str| x@),
                    decreases found@.len() - h,
                {
                    let ghost before = heads@;
                    heads.push(found[h].to_string());
                    proof {
                        assert(strings_view(heads@) =~= strings_view(before).push(found@[h as int]@));
                        assert(found@.subrange(0, h + 1).map_values(|x: &str| x@) =~= found@.subrange(0, h as int).map_values(|x: &str| x@).push(found@[h as int]@));
                    }
                    h = h + 1;
                }
                proof {
                    assert(found@.subrange(0, h as int) =~= found@);
                }
            },
            None => {
                proof {
                    assert(strings_view(heads@) =~= Seq::<Seq<char>>::empty());
                }
            },
        }
        let mut is_head = false;
        let mut h: usize = 0;
        while h < heads.len()
            invariant
                h <= heads@.len(),
                is_head == exists|q: int| 0 <= q < h && (#[trigger] heads@[q])@ == id@,
            decreases heads@.len() - h,
        {
            if str_eq(heads[h].as_str(), id) {
                is_head = true;
            }
            h = h + 1;
        }
        proof {
            if is_head {
                let q = choose|q: int| 0 <= q < h && (#[trigger] heads@[q])@ == id@;
                assert(strings_view(heads@)[q] == id@);
            }
            if strings_view(heads@).contains(id@) {
                let q = choose|q: int| 0 <= q < strings_view(heads@).len() && strings_view(heads@)[q] == id@;
                assert(heads@[q]@ == id@);
            }
        }
        let assessment_ids = match self.targeting_ids(true, id) {
            Err(stop) => return Err(NavigationError::Stopped(stop)),
            Ok(v) => v,
        };
        let thread_binding_ids = match self.targeting_ids(false, id) {
            Err(stop) => return Err(NavigationError::Stopped(stop)),
            Ok(v) => v,
        };
        let effective_access = match self.access_report(id) {
            Some(a) => {
                let ghost ga = a;
                let l = a.effective;
                proof {
                    assert(self.access().presents(object.ordinal as int, ga));
                }
                Some(l)
            },
            None => None,
        };
        match self.execution_budget().checkpoint() {
            Err(stop) => return Err(NavigationError::Stopped(stop)),
            Ok(()) => {},
        }
        let dto = ShowDto {
            object: &object.value,
            is_head,
            lineage_heads: heads,
            freshness: freshness.status,
            assessment_ids,
            thread_binding_ids,
            effective_access,
        };
        match self.execution_budget().checkpoint() {
            Err(stop) => return Err(NavigationError::Stopped(stop)),
            Ok(()) => {},
        }
        Ok(dto)
    }
}

/// How many values a JSON value holds, itself included.
pub open spec fn json_size(v: JsonValue) -> nat
    decreases v, 2nat,
{
    match v {
        JsonValue::Array(items) => 1 + items_size(items@),
        JsonValue::Object(entries) => 1 + entries_size(entries@),
        _ => 1,
    }
}

pub open spec fn items_size(items: Seq<JsonValue>) -> nat
    decreases items, 1nat,
{
    if items.len() == 0 {
        0
    } else {
        items_size(items.drop_last()) + json_size(items.last())
    }
}

pub open spec fn entries_size(entries: Seq<(String, JsonValue)>) -> nat
    decreases entries, 1nat,
{
    if entries.len() == 0 {
        0
    } else {
        entries_size(entries.drop_last()) + json_size(entries.last().1)
    }
}

pub open spec fn opt_size(v: Option<JsonValue>) -> nat {
    match v {
        Some(x) => json_size(x),
        None => 0,
    }
}

pub proof fn lemma_item_size(items: Seq<JsonValue>, i: int)
    requires
        0 <= i < items.len(),
    ensures
        json_size(items[i]) <= items_size(items),
    decreases items.len(),
{
    if i < items.len() - 1 {
        lemma_item_size(items.drop_last(), i);
    }
}

pub proof fn lemma_member_size(entries: Seq<(String, JsonValue)>, key: Seq<char>)
    ensures
        crate::json::member_value(entries, key) matches Some(w) ==> json_size(w) <= entries_size(entries),
    decreases entries.len(),
{
    if entries.len() > 0 {
        lemma_member_size(entries.drop_last(), key);
    }
}

/// The member names of an object.
pub open spec fn member_names(entries: Seq<(String, JsonValue)>) -> Set<Seq<char>> {
    Set::new(|k: Seq<char>| exists|i: int| 0 <= i < entries.len() && (#[trigger] entries[i]).0@ == k)
}

/// Texts in strictly ascending byte order.
pub open spec fn chars_ascending(ks: Seq<Seq<char>>) -> bool {
    forall|a: int, b: int| 0 <= a < b < ks.len() ==> bytes_lt(encode_utf8(#[trigger] ks[a]), encode_utf8(#[trigger] ks[b]))
}

/// The member names of two objects together, once each, in ascending byte order.
pub open spec fn union_keys(l: Seq<(String, JsonValue)>, r: Seq<(String, JsonValue)>) -> Seq<Seq<char>> {
    choose|ks: Seq<Seq<char>>| chars_ascending(ks) && ks.to_set() == member_names(l).union(member_names(r))
}

/// The path of a change: the pointer, or `/` for the whole value.
pub open spec fn change_path(path: Seq<char>) -> Seq<char> {
    if path.len() == 0 {
        "/"@
    } else {
        path
    }
}

/// The changes between two values at `path`, in document order: equal values give
/// none; two objects differ member by member, in key order; two arrays item by item;
/// anything else is one change.
pub open spec fn diff_of(path: Seq<char>, before: Option<JsonValue>, after: Option<JsonValue>) -> Seq<(Seq<char>, Option<JsonValue>, Option<JsonValue>)>
    decreases opt_size(before) + opt_size(after), 1nat, 0nat,
{
    if crate::json::opt_json_eq(before, after) {
        Seq::empty()
    } else {
        match (before, after) {
            (Some(JsonValue::Object(l)), Some(JsonValue::Object(r))) => {
                let keys = union_keys(l@, r@);
                diff_members(path, l@, r@, keys, keys.len() as int)
            },
            (Some(JsonValue::Array(l)), Some(JsonValue::Array(r))) => {
                let n = if l@.len() >= r@.len() { l@.len() } else { r@.len() };
                diff_items(path, l@, r@, n as int)
            },
            _ => seq![(change_path(path), before, after)],
        }
    }
}

/// The changes of the first `n` keys of two objects.
pub open spec fn diff_members(
    path: Seq<char>,
    l: Seq<(String, JsonValue)>,
    r: Seq<(String, JsonValue)>,
    keys: Seq<Seq<char>>,
    n: int,
) -> Seq<(Seq<char>, Option<JsonValue>, Option<JsonValue>)>
    decreases 2 + entries_size(l) + entries_size(r), 0nat, n,
{
    if n <= 0 || n > keys.len() {
        Seq::empty()
    } else {
        let key = keys[n - 1];
        proof {
            lemma_member_size(l, key);
            lemma_member_size(r, key);
        }
        diff_members(path, l, r, keys, n - 1) + diff_of(path + "/"@ + crate::navigation::escaped_token(key),
            crate::json::member_value(l, key), crate::json::member_value(r, key))
    }
}

/// The item at `i`, where there is one.
pub open spec fn item_at(items: Seq<JsonValue>, i: int) -> Option<JsonValue> {
    if 0 <= i < items.len() {
        Some(items[i])
    } else {
        None
    }
}

/// The changes of the first `n` positions of two arrays.
pub open spec fn diff_items(path: Seq<char>, l: Seq<JsonValue>, r: Seq<JsonValue>, n: int) -> Seq<(Seq<char>, Option<JsonValue>, Option<JsonValue>)>
    decreases 2 + items_size(l) + items_size(r), 0nat, n,
{
    if n <= 0 {
        Seq::empty()
    } else {
        proof {
            if 0 <= n - 1 < l.len() {
                lemma_item_size(l, n - 1);
            }
            if 0 <= n - 1 < r.len() {
                lemma_item_size(r, n - 1);
            }
        }
        diff_items(path, l, r, n - 1) + diff_of(path + "/"@ + crate::index::decimal((n - 1) as nat), item_at(l, n - 1), item_at(r, n - 1))
    }
}

proof fn lemma_sorted_unique(a: Seq<Seq<char>>, b: Seq<Seq<char>>)
    requires
        chars_ascending(a),
        chars_ascending(b),
        a.to_set() == b.to_set(),
    ensures
        a == b,
    decreases a.len(),
{
    if a.len() == 0 {
        if b.len() > 0 {
            assert(b.to_set().contains(b[0]));
            assert(a.to_set().contains(b[0]));
            let i = choose|i: int| 0 <= i < a.len() && a[i] == b[0];
            assert(false);
        }
        assert(a =~= b);
    } else {
        assert(a.to_set().contains(a[0]));
        assert(b.to_set().contains(a[0]));
        let j = choose|j: int| 0 <= j < b.len() && b[j] == a[0];
        assert(b.to_set().contains(b[0]));
        assert(a.to_set().contains(b[0]));
        let i = choose|i: int| 0 <= i < a.len() && a[i] == b[0];
        if j > 0 {
            assert(bytes_lt(encode_utf8(b[0]), encode_utf8(b[j])));
            if i > 0 {
                assert(bytes_lt(encode_utf8(a[0]), encode_utf8(a[i])));
                lemma_bytes_lt_transitive(encode_utf8(a[0]), encode_utf8(b[0]), encode_utf8(a[0]));
            }
            lemma_bytes_lt_irreflexive(encode_utf8(a[0]));
        }
        assert(a[0] == b[0]);
        let a1 = a.drop_first();
        let b1 = b.drop_first();
        assert forall|x: Seq<char>| a1.to_set().contains(x) <==> b1.to_set().contains(x) by {
            if a1.to_set().contains(x) {
                let p = choose|p: int| 0 <= p < a1.len() && a1[p] == x;
                assert(a[p + 1] == x);
                assert(bytes_lt(encode_utf8(a[0]), encode_utf8(a[p + 1])));
                lemma_bytes_lt_irreflexive(encode_utf8(x));
                assert(a.to_set().contains(x));
                assert(b.to_set().contains(x));
                let q = choose|q: int| 0 <= q < b.len() && b[q] == x;
                assert(q != 0);
                assert(b1[q - 1] == x);
            }
            if b1.to_set().contains(x) {
                let p = choose|p: int| 0 <= p < b1.len() && b1[p] == x;
                assert(b[p + 1] == x);
                assert(bytes_lt(encode_utf8(b[0]), encode_utf8(b[p + 1])));
                lemma_bytes_lt_irreflexive(encode_utf8(x));
                assert(b.to_set().contains(x));
                assert(a.to_set().contains(x));
                let q = choose|q: int| 0 <= q < a.len() && a[q] == x;
                assert(q != 0);
                assert(a1[q - 1] == x);
            }
        }
        assert(a1.to_set() =~= b1.to_set());
        assert forall|x: int, y: int| 0 <= x < y < a1.len() implies bytes_lt(encode_utf8(#[trigger] a1[x]), encode_utf8(#[trigger] a1[y])) by {
            assert(a1[x] == a[x + 1] && a1[y] == a[y + 1]);
        }
        assert forall|x: int, y: int| 0 <= x < y < b1.len() implies bytes_lt(encode_utf8(#[trigger] b1[x]), encode_utf8(#[trigger] b1[y])) by {
            assert(b1[x] == b[x + 1] && b1[y] == b[y + 1]);
        }
        lemma_sorted_unique(a1, b1);
        assert(a.len() == b.len());
        assert forall|i: int| 0 <= i < a.len() implies a[i] == b[i] by {
            if i > 0 {
                assert(a[i] == a1[i - 1]);
                assert(b[i] == b1[i - 1]);
            }
        }
        assert(a =~= b);
    }
}

/// One difference between two revisions: where, and the values on each side.
pub struct DiffChange<'a> {
    pub path: String,
    pub before: Option<&'a JsonValue>,
    pub after: Option<&'a JsonValue>,
}

/// The differences between two revisions.
pub struct DiffDto<'a> {
    pub revision_id_a: String,
    pub revision_id_b: String,
    pub changes: Vec<DiffChange<'a>>,
}

/// The changes as plain values.
pub open spec fn changes_view(v: Seq<DiffChange>) -> Seq<(Seq<char>, Option<JsonValue>, Option<JsonValue>)> {
    v.map_values(|c: DiffChange| (c.path@, opt_ref(c.before), opt_ref(c.after)))
}

/// The member names of two objects, once each, ascending.
fn object_keys(l: &Vec<(String, JsonValue)>, r: &Vec<(String, JsonValue)>) -> (keys: Vec<String>)
    ensures
        strings_view(keys@) == union_keys(l@, r@),
{
    let mut keys: Vec<String> = Vec::new();
    let mut i: usize = 0;
    while i < l.len()
        invariant
            i <= l@.len(),
            crate::access::names_ascending(keys@),
            forall|k: Seq<char>| #[trigger] crate::access::names(keys@).contains(k) <==> exists|q: int| 0 <= q < i && (#[trigger] l@[q]).0@ == k,
        decreases l@.len() - i,
    {
        crate::project_access::insert_name(&mut keys, l[i].0.as_str());
        i = i + 1;
    }
    let mut j: usize = 0;
    while j < r.len()
        invariant
            j <= r@.len(),
            crate::access::names_ascending(keys@),
            forall|k: Seq<char>| #[trigger] crate::access::names(keys@).contains(k) <==> (member_names(l@).contains(k)
                || exists|q: int| 0 <= q < j && (#[trigger] r@[q]).0@ == k),
        decreases r@.len() - j,
    {
        crate::project_access::insert_name(&mut keys, r[j].0.as_str());
        j = j + 1;
    }
    proof {
        let kv = strings_view(keys@);
        assert(chars_ascending(kv)) by {
            assert forall|a: int, b: int| 0 <= a < b < kv.len() implies bytes_lt(encode_utf8(#[trigger] kv[a]), encode_utf8(#[trigger] kv[b])) by {
                assert(kv[a] == keys@[a]@ && kv[b] == keys@[b]@);
            }
        }
        assert(kv.to_set() =~= member_names(l@).union(member_names(r@))) by {
            assert forall|k: Seq<char>| kv.to_set().contains(k) <==> member_names(l@).union(member_names(r@)).contains(k) by {
                if kv.to_set().contains(k) {
                    let p = choose|p: int| 0 <= p < kv.len() && kv[p] == k;
                    assert(crate::access::names(keys@).contains(k));
                }
                if crate::access::names(keys@).contains(k) {
                    let p = choose|p: int| 0 <= p < keys@.len() && (#[trigger] keys@[p])@ == k;
                    assert(kv[p] == k);
                }
            }
        }
        let chosen = union_keys(l@, r@);
        assert(chars_ascending(chosen) && chosen.to_set() == member_names(l@).union(member_names(r@)));
        lemma_sorted_unique(kv, chosen);
    }
    keys
}

fn item_ref(items: &Vec<JsonValue>, i: usize) -> (r: Option<&JsonValue>)
    ensures
        opt_ref(r) == item_at(items@, i as int),
{
    if i < items.len() {
        Some(&items[i])
    } else {
        None
    }
}

/// Appends the changes between `before` and `after` at `path` (see `diff_of`); the
/// budget's stop where it ends the walk.
fn collect_diff<'a>(
    path: &String,
    before: Option<&'a JsonValue>,
    after: Option<&'a JsonValue>,
    changes: &mut Vec<DiffChange<'a>>,
    execution: &crate::execution::ExecutionBudget,
) -> (r: Result<(), ExecutionStop>)
    ensures
        r is Ok ==> changes_view(final(changes)@) == changes_view(old(changes)@) + diff_of(path@, opt_ref(before), opt_ref(after)),
    decreases opt_size(opt_ref(before)) + opt_size(opt_ref(after)),
{
    proof {
        reveal_strlit("/");
    }
    match execution.checkpoint() {
        Err(stop) => return Err(stop),
        Ok(()) => {},
    }
    let ghost start = changes_view(changes@);
    if opt_member_equal(before, after) {
        match execution.checkpoint() {
            Err(stop) => return Err(stop),
            Ok(()) => {},
        }
        proof {
            assert(changes_view(changes@) =~= start + Seq::empty());
        }
        return Ok(());
    }
    match (before, after) {
        (Some(JsonValue::Object(l)), Some(JsonValue::Object(r))) => {
            let keys = object_keys(l, r);
            let ghost kv = strings_view(keys@);
            let mut k: usize = 0;
            proof {
                assert(changes_view(changes@) =~= start + diff_members(path@, l@, r@, kv, 0));
            }
            while k < keys.len()
                invariant
                    k <= keys@.len(),
                    kv == strings_view(keys@),
                    kv == union_keys(l@, r@),
                    before == Some(&JsonValue::Object(*l)),
                    after == Some(&JsonValue::Object(*r)),
                    changes_view(changes@) == start + diff_members(path@, l@, r@, kv, k as int),
                decreases keys@.len() - k,
            {
                let key = keys[k].as_str();
                let mut pointer = path.clone();
                crate::text::string_push_str(&mut pointer, "/");
                let escaped = crate::navigation::escape_pointer(key);
                crate::text::string_push_str(&mut pointer, escaped.as_str());
                let lv = before.unwrap().get(key);
                let rv = after.unwrap().get(key);
                proof {
                    assert(kv[k as int] == key@);
                    lemma_member_size(l@, key@);
                    lemma_member_size(r@, key@);
                    assert(opt_ref(lv) == crate::json::member_value(l@, key@));
                    assert(opt_ref(rv) == crate::json::member_value(r@, key@));
                }
                let ghost mid = changes_view(changes@);
                match collect_diff(&pointer, lv, rv, changes, execution) {
                    Err(stop) => return Err(stop),
                    Ok(()) => {},
                }
                proof {
                    assert(pointer@ == path@ + "/"@ + crate::navigation::escaped_token(key@));
                    assert(changes_view(changes@) =~= start + diff_members(path@, l@, r@, kv, k + 1));
                }
                k = k + 1;
            }
        },
        (Some(JsonValue::Array(l)), Some(JsonValue::Array(r))) => {
            let n = if l.len() >= r.len() { l.len() } else { r.len() };
            let mut i: usize = 0;
            proof {
                assert(changes_view(changes@) =~= start + diff_items(path@, l@, r@, 0));
            }
            while i < n
                invariant
                    i <= n,
                    n == (if l@.len() >= r@.len() { l@.len() } else { r@.len() }),
                    before == Some(&JsonValue::Array(*l)),
                    after == Some(&JsonValue::Array(*r)),
                    changes_view(changes@) == start + diff_items(path@, l@, r@, i as int),
                decreases n - i,
            {
                let mut pointer = path.clone();
                crate::text::string_push_str(&mut pointer, "/");
                crate::index::push_decimal(&mut pointer, i);
                let lv = item_ref(l, i);
                let rv = item_ref(r, i);
                proof {
                    if i < l@.len() {
                        lemma_item_size(l@, i as int);
                    }
                    if i < r@.len() {
                        lemma_item_size(r@, i as int);
                    }
                }
                match collect_diff(&pointer, lv, rv, changes, execution) {
                    Err(stop) => return Err(stop),
                    Ok(()) => {},
                }
                proof {
                    assert(changes_view(changes@) =~= start + diff_items(path@, l@, r@, i + 1));
                }
                i = i + 1;
            }
        },
        _ => {
            proof {
                reveal_strlit("");
            }
            let text = path.as_str();
            let none = "";
            let empty = str_eq(text, none);
            proof {
                assert(none@ =~= Seq::<char>::empty());
                assert(text@ == path@);
                assert(path@.len() == 0 ==> path@ =~= Seq::<char>::empty());
                assert(empty == (path@.len() == 0));
            }
            let p = if empty { "/".to_string() } else { path.clone() };
            proof {
                assert(p@ == change_path(path@));
            }
            let ghost before_changes = changes@;
            changes.push(DiffChange { path: p, before, after });
            proof {
                assert(changes_view(changes@) =~= start + seq![(change_path(path@), opt_ref(before), opt_ref(after))]);
            }
        },
    }
    match execution.checkpoint() {
        Err(stop) => return Err(stop),
        Ok(()) => {},
    }
    Ok(())
}

impl ProjectIndex {
    /// The differences between revisions `id_a` and `id_b` (see `diff_of`): `NotFound`
    /// where either is missing; the budget's stop where it ends the walk.
    pub fn diff(&self, id_a: &str, id_b: &str) -> (r: Result<DiffDto<'_>, NavigationError>)
        requires
            self.wf(),
        ensures
            r matches Err(e) ==> e is NotFound || e is Stopped,
            r matches Err(NavigationError::NotFound) ==> object_with(self.entries(), id_a@) is None
                || object_with(self.entries(), id_b@) is None,
            (object_with(self.entries(), id_a@) is None || object_with(self.entries(), id_b@) is None) ==> !(r is Ok),
            r matches Ok(d) ==> object_with(self.entries(), id_a@) matches Some(a) && object_with(self.entries(), id_b@) matches Some(b)
                && d.revision_id_a@ == id_a@ && d.revision_id_b@ == id_b@
                && changes_view(d.changes@) == diff_of(Seq::empty(), Some(a.value), Some(b.value)),
    {
        match self.execution_budget().checkpoint() {
            Err(stop) => return Err(NavigationError::Stopped(stop)),
            Ok(()) => {},
        }
        let left = match self.get(id_a) {
            Some(o) => o,
            None => return Err(NavigationError::NotFound),
        };
        let right = match self.get(id_b) {
            Some(o) => o,
            None => return Err(NavigationError::NotFound),
        };
        let mut changes: Vec<DiffChange<'_>> = Vec::new();
        let root = String::new();
        match collect_diff(&root, Some(&left.value), Some(&right.value), &mut changes, self.execution_budget()) {
            Err(stop) => return Err(NavigationError::Stopped(stop)),
            Ok(()) => {},
        }
        proof {
            assert(changes_view(Seq::<DiffChange>::empty()) =~= Seq::empty());
            assert(root@ =~= Seq::<char>::empty());
        }
        match self.execution_budget().checkpoint() {
            Err(stop) => return Err(NavigationError::Stopped(stop)),
            Ok(()) => {},
        }
        Ok(DiffDto { revision_id_a: id_a.to_string(), revision_id_b: id_b.to_string(), changes })
    }
}

} // verus!
