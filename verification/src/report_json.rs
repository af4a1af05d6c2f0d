//! Strict, resource-bounded JSON reading for derived reports (no schema validation).
//!
//! Limits are enforced while values are built. The root object has depth one; only
//! objects and arrays add depth. Every container and scalar value consumes one node;
//! keys consume the per-object and string budgets instead. String sizes are the UTF-8
//! byte lengths after unescaping. A number keeps its text as written; whether that
//! text is in range is decided by serde_json's reading of it.
use vstd::prelude::*;
use vstd::string::StringSliceAdditionalSpecFns;
use vstd::utf8::valid_utf8;
use vstd::utf8::is_scalar;
use vstd::utf8::decode_utf8;
use crate::execution::{ExecutionBudget, ExecutionStop};
use crate::text::{str_chars, str_eq, string_push};

verus! {

/// Per-document budgets. Requests above the defaults are clamped to those ceilings.
#[derive(Clone, Copy, Debug, PartialEq, Eq, Structural)]
pub struct ReportJsonLimits {
    pub max_file_bytes: usize,
    pub max_depth: usize,
    pub max_scalar_bytes: usize,
    pub max_mapping_keys: usize,
    pub max_sequence_items: usize,
    pub max_total_nodes: usize,
}

/// The default budgets, which are also the hard ceilings.
pub open spec fn ceiling_limits() -> ReportJsonLimits {
    ReportJsonLimits {
        max_file_bytes: 4194304,
        max_depth: 64,
        max_scalar_bytes: 262144,
        max_mapping_keys: 4096,
        max_sequence_items: 65536,
        max_total_nodes: 131072,
    }
}

pub open spec fn min_usize(a: usize, b: usize) -> usize {
    if a <= b { a } else { b }
}

/// The budgets in force: each requested budget, capped at its ceiling.
pub open spec fn clamped(l: ReportJsonLimits) -> ReportJsonLimits {
    let c = ceiling_limits();
    ReportJsonLimits {
        max_file_bytes: min_usize(l.max_file_bytes, c.max_file_bytes),
        max_depth: min_usize(l.max_depth, c.max_depth),
        max_scalar_bytes: min_usize(l.max_scalar_bytes, c.max_scalar_bytes),
        max_mapping_keys: min_usize(l.max_mapping_keys, c.max_mapping_keys),
        max_sequence_items: min_usize(l.max_sequence_items, c.max_sequence_items),
        max_total_nodes: min_usize(l.max_total_nodes, c.max_total_nodes),
    }
}

/// No budget exceeds its ceiling.
pub open spec fn under_ceilings(l: ReportJsonLimits) -> bool {
    let c = ceiling_limits();
    &&& l.max_file_bytes <= c.max_file_bytes
    &&& l.max_depth <= c.max_depth
    &&& l.max_scalar_bytes <= c.max_scalar_bytes
    &&& l.max_mapping_keys <= c.max_mapping_keys
    &&& l.max_sequence_items <= c.max_sequence_items
    &&& l.max_total_nodes <= c.max_total_nodes
}

impl Default for ReportJsonLimits {
    fn default() -> (r: Self)
        ensures
            r == ceiling_limits(),
    {
        ReportJsonLimits {
            max_file_bytes: 4194304,
            max_depth: 64,
            max_scalar_bytes: 262144,
            max_mapping_keys: 4096,
            max_sequence_items: 65536,
            max_total_nodes: 131072,
        }
    }
}

impl ReportJsonLimits {
    /// Caps every budget at its ceiling.
    pub fn clamp(&self) -> (r: ReportJsonLimits)
        ensures
            r == clamped(*self),
            under_ceilings(r),
    {
        let c = ReportJsonLimits::default();
        ReportJsonLimits {
            max_file_bytes: if self.max_file_bytes <= c.max_file_bytes { self.max_file_bytes } else { c.max_file_bytes },
            max_depth: if self.max_depth <= c.max_depth { self.max_depth } else { c.max_depth },
            max_scalar_bytes: if self.max_scalar_bytes <= c.max_scalar_bytes { self.max_scalar_bytes } else { c.max_scalar_bytes },
            max_mapping_keys: if self.max_mapping_keys <= c.max_mapping_keys { self.max_mapping_keys } else { c.max_mapping_keys },
            max_sequence_items: if self.max_sequence_items <= c.max_sequence_items { self.max_sequence_items } else { c.max_sequence_items },
            max_total_nodes: if self.max_total_nodes <= c.max_total_nodes { self.max_total_nodes } else { c.max_total_nodes },
        }
    }
}

/// Why a report was refused. No variant carries document text, keys or codes.
#[derive(Clone, Copy, Debug, PartialEq, Eq, Structural)]
pub enum ReportJsonError {
    Stopped(ExecutionStop),
    DocumentTooLarge,
    BomForbidden,
    InvalidUtf8,
    InvalidJson,
    RootNotMapping,
    DuplicateKey,
    DepthExceeded,
    ScalarTooLarge,
    TooManyMappingKeys,
    TooManySequenceItems,
    TooManyNodes,
}

pub open spec fn report_json_message(e: ReportJsonError) -> Seq<char> {
    match e {
        ReportJsonError::Stopped(stop) => crate::execution::stop_message(stop),
        ReportJsonError::DocumentTooLarge => "report JSON exceeds the document byte limit"@,
        ReportJsonError::BomForbidden => "report JSON must not start with a UTF-8 BOM"@,
        ReportJsonError::InvalidUtf8 => "report JSON is not valid UTF-8"@,
        ReportJsonError::InvalidJson => "report must contain exactly one valid JSON document"@,
        ReportJsonError::RootNotMapping => "report JSON root must be an object"@,
        ReportJsonError::DuplicateKey => "report JSON contains a duplicate decoded object key"@,
        ReportJsonError::DepthExceeded => "report JSON exceeds the container depth limit"@,
        ReportJsonError::ScalarTooLarge => "report JSON exceeds the decoded string byte limit"@,
        ReportJsonError::TooManyMappingKeys => "report JSON exceeds the per-object key limit"@,
        ReportJsonError::TooManySequenceItems => "report JSON exceeds the per-array item limit"@,
        ReportJsonError::TooManyNodes => "report JSON exceeds the total value node limit"@,
    }
}

impl ReportJsonError {
    /// The human-readable description; it never includes document content.
    pub fn message(self) -> (m: &'static str)
        ensures
            m@ == report_json_message(self),
    {
        match self {
            ReportJsonError::Stopped(stop) => stop.message(),
            ReportJsonError::DocumentTooLarge => "report JSON exceeds the document byte limit",
            ReportJsonError::BomForbidden => "report JSON must not start with a UTF-8 BOM",
            ReportJsonError::InvalidUtf8 => "report JSON is not valid UTF-8",
            ReportJsonError::InvalidJson => "report must contain exactly one valid JSON document",
            ReportJsonError::RootNotMapping => "report JSON root must be an object",
            ReportJsonError::DuplicateKey => "report JSON contains a duplicate decoded object key",
            ReportJsonError::DepthExceeded => "report JSON exceeds the container depth limit",
            ReportJsonError::ScalarTooLarge => "report JSON exceeds the decoded string byte limit",
            ReportJsonError::TooManyMappingKeys => "report JSON exceeds the per-object key limit",
            ReportJsonError::TooManySequenceItems => "report JSON exceeds the per-array item limit",
            ReportJsonError::TooManyNodes => "report JSON exceeds the total value node limit",
        }
    }
}

/// A JSON value. Objects keep their members in document order.
#[derive(Debug, PartialEq, Eq)]
pub enum JsonValue {
    Null,
    Bool(bool),
    /// The number as written in the document.
    Number(String),
    Text(String),
    Array(Vec<JsonValue>),
    Object(Vec<(String, JsonValue)>),
}

/// The number of UTF-8 bytes of one character.
pub open spec fn char_width(c: char) -> nat {
    if (c as u32) < 0x80 {
        1
    } else if (c as u32) < 0x800 {
        2
    } else if (c as u32) < 0x10000 {
        3
    } else {
        4
    }
}

/// The number of UTF-8 bytes of a character sequence.
pub open spec fn utf8_width(s: Seq<char>) -> nat
    decreases s.len(),
{
    if s.len() == 0 {
        0
    } else {
        utf8_width(s.drop_last()) + char_width(s.last())
    }
}

/// The value nodes of a value: itself and, for containers, those of every member.
pub open spec fn value_nodes(v: JsonValue) -> nat
    decreases v,
{
    match v {
        JsonValue::Array(items) => 1 + items_nodes(items@),
        JsonValue::Object(entries) => 1 + entries_nodes(entries@),
        _ => 1,
    }
}

pub open spec fn items_nodes(s: Seq<JsonValue>) -> nat
    decreases s,
{
    if s.len() == 0 {
        0
    } else {
        items_nodes(s.drop_last()) + value_nodes(s.last())
    }
}

pub open spec fn entries_nodes(s: Seq<(String, JsonValue)>) -> nat
    decreases s,
{
    if s.len() == 0 {
        0
    } else {
        entries_nodes(s.drop_last()) + value_nodes(s.last().1)
    }
}

/// The value, found below `d` enclosing containers, keeps every budget of `lim`:
/// containers sit at a depth below the limit, arrays and objects hold no more items
/// and keys than allowed, and strings and keys are within the byte limit.
pub open spec fn within(v: JsonValue, lim: ReportJsonLimits, d: int) -> bool
    decreases v,
{
    match v {
        JsonValue::Text(t) => utf8_width(t@) <= lim.max_scalar_bytes,
        JsonValue::Array(items) => {
            &&& d < lim.max_depth
            &&& items.len() <= lim.max_sequence_items
            &&& items_within(items@, lim, d + 1)
        },
        JsonValue::Object(entries) => {
            &&& d < lim.max_depth
            &&& entries.len() <= lim.max_mapping_keys
            &&& entries_within(entries@, lim, d + 1)
        },
        _ => true,
    }
}

pub open spec fn items_within(s: Seq<JsonValue>, lim: ReportJsonLimits, d: int) -> bool
    decreases s,
{
    if s.len() == 0 {
        true
    } else {
        items_within(s.drop_last(), lim, d) && within(s.last(), lim, d)
    }
}

pub open spec fn entries_within(s: Seq<(String, JsonValue)>, lim: ReportJsonLimits, d: int) -> bool
    decreases s,
{
    if s.len() == 0 {
        true
    } else {
        &&& entries_within(s.drop_last(), lim, d)
        &&& utf8_width(s.last().0@) <= lim.max_scalar_bytes
        &&& within(s.last().1, lim, d)
        &&& forall|i: int| 0 <= i < s.len() - 1 ==> (#[trigger] s[i]).0@ != s.last().0@
    }
}

/// The document starts with the UTF-8 byte order mark.
pub open spec fn has_bom(bytes: Seq<u8>) -> bool {
    bytes.len() >= 3 && bytes[0] == 0xef && bytes[1] == 0xbb && bytes[2] == 0xbf
}

/// The refusal owed before any JSON is read: size first, then the byte order mark,
/// then the encoding.
pub open spec fn precheck(bytes: Seq<u8>, lim: ReportJsonLimits) -> Option<ReportJsonError> {
    if bytes.len() > lim.max_file_bytes {
        Some(ReportJsonError::DocumentTooLarge)
    } else if has_bom(bytes) {
        Some(ReportJsonError::BomForbidden)
    } else if !valid_utf8(bytes) {
        Some(ReportJsonError::InvalidUtf8)
    } else {
        None
    }
}

/// An error that only the reading of the JSON text can raise.
pub open spec fn reading_error(e: ReportJsonError) -> bool {
    !(e is DocumentTooLarge || e is BomForbidden || e is InvalidUtf8)
}

/// `s[i..j]` is JSON whitespace.
pub open spec fn blank(s: Seq<char>, i: int, j: int) -> bool {
    &&& 0 <= i <= j <= s.len()
    &&& forall|k: int| i <= k < j ==> is_json_space(#[trigger] s[k])
}

/// The value of a hexadecimal digit.
pub open spec fn hex_value(c: char) -> Option<int> {
    if '0' <= c <= '9' {
        Some(c as int - '0' as int)
    } else if 'a' <= c <= 'f' {
        Some(c as int - 'a' as int + 10)
    } else if 'A' <= c <= 'F' {
        Some(c as int - 'A' as int + 10)
    } else {
        None
    }
}

/// The number written by the four hexadecimal digits `s[i..i + 4]`.
pub open spec fn hex4_at(s: Seq<char>, i: int) -> Option<int> {
    if 0 <= i && i + 4 <= s.len() && hex_value(s[i]) is Some && hex_value(s[i + 1]) is Some
        && hex_value(s[i + 2]) is Some && hex_value(s[i + 3]) is Some {
        Some(
            ((hex_value(s[i])->0 * 16 + hex_value(s[i + 1])->0) * 16 + hex_value(s[i + 2])->0) * 16
                + hex_value(s[i + 3])->0,
        )
    } else {
        None
    }
}

/// The escape sequence whose backslash is at `i`: the character it stands for and the
/// position after it. A `\u` escape of a high surrogate must be followed by one of a
/// low surrogate; a lone low surrogate stands for nothing.
pub open spec fn escape_at(s: Seq<char>, i: int) -> Option<(char, int)> {
    if i + 1 >= s.len() {
        None
    } else {
        let e = s[i + 1];
        if e == '"' {
            Some(('"', i + 2))
        } else if e == '\\' {
            Some(('\\', i + 2))
        } else if e == '/' {
            Some(('/', i + 2))
        } else if e == 'b' {
            Some(('\u{8}', i + 2))
        } else if e == 'f' {
            Some(('\u{c}', i + 2))
        } else if e == 'n' {
            Some(('\n', i + 2))
        } else if e == 'r' {
            Some(('\r', i + 2))
        } else if e == 't' {
            Some(('\t', i + 2))
        } else if e == 'u' {
            match hex4_at(s, i + 2) {
                None => None,
                Some(hi) => if 0xDC00 <= hi <= 0xDFFF {
                    None
                } else if 0xD800 <= hi <= 0xDBFF {
                    if i + 7 < s.len() && s[i + 6] == '\\' && s[i + 7] == 'u' {
                        match hex4_at(s, i + 8) {
                            Some(lo) => if 0xDC00 <= lo <= 0xDFFF {
                                Some((((hi - 0xD800) * 1024 + (lo - 0xDC00) + 0x10000) as char, i + 12))
                            } else {
                                None
                            },
                            None => None,
                        }
                    } else {
                        None
                    }
                } else {
                    Some((hi as char, i + 6))
                },
            }
        } else {
            None
        }
    }
}

/// The rest of a JSON string from `i`, just after its opening quote or inside it: the
/// text it stands for and the position after its closing quote. Control characters
/// must be escaped.
pub open spec fn string_from(s: Seq<char>, i: int) -> Option<(Seq<char>, int)>
    decreases s.len() - i,
{
    if i < 0 || i >= s.len() {
        None
    } else if s[i] == '"' {
        Some((Seq::empty(), i + 1))
    } else if s[i] == '\\' {
        match escape_at(s, i) {
            None => None,
            Some((c, k)) => if i < k <= s.len() {
                prefixed(seq![c], string_from(s, k))
            } else {
                None
            },
        }
    } else if (s[i] as u32) < 32 {
        None
    } else {
        prefixed(seq![s[i]], string_from(s, i + 1))
    }
}

/// A read text with `t` in front of it.
pub open spec fn prefixed(t: Seq<char>, r: Option<(Seq<char>, int)>) -> Option<(Seq<char>, int)> {
    match r {
        None => None,
        Some((rest, e)) => Some((t + rest, e)),
    }
}

/// `t[i..j]` holds only decimal digits.
pub open spec fn all_digits(t: Seq<char>, i: int, j: int) -> bool {
    forall|k: int| i <= k < j ==> is_digit(#[trigger] t[k])
}

/// An exponent: `e` or `E`, an optional sign and at least one digit.
pub open spec fn exponent(x: Seq<char>) -> bool {
    let d = if x.len() > 1 && (x[1] == '+' || x[1] == '-') { 2int } else { 1int };
    &&& x.len() >= 2
    &&& x[0] == 'e' || x[0] == 'E'
    &&& d < x.len()
    &&& all_digits(x, d, x.len() as int)
}

/// `t` splits at `a`, `b` and `c` into an optional minus, an integer part without a
/// leading zero, an optional fraction with at least one digit, and an optional exponent.
pub open spec fn number_parts(t: Seq<char>, a: int, b: int, c: int) -> bool {
    &&& 0 <= a <= 1
    &&& a < b <= c <= t.len()
    &&& a == 1 ==> t[0] == '-'
    &&& all_digits(t, a, b)
    &&& t[a] == '0' ==> b == a + 1
    &&& c == b || (t[b] == '.' && b + 1 < c && all_digits(t, b + 1, c))
    &&& c == t.len() || exponent(t.subrange(c, t.len() as int))
}

/// `t` is a JSON number.
pub open spec fn number_token(t: Seq<char>) -> bool {
    exists|a: int, b: int, c: int| number_parts(t, a, b, c)
}

/// The character `ch` cannot continue a number with (or without) a fraction and an
/// exponent: it is no digit, no `.` after a number with neither, and no `e` or `E`
/// after a number without an exponent.
pub open spec fn number_stops(ch: char, fraction: bool, exp: bool) -> bool {
    &&& !is_digit(ch)
    &&& ch == '.' ==> fraction || exp
    &&& (ch == 'e' || ch == 'E') ==> exp
}

/// `s[start..e]` is a whole JSON number: one that the character after it, if any,
/// cannot continue.
pub open spec fn number_ends_at(s: Seq<char>, start: int, e: int) -> bool {
    &&& 0 <= start < e <= s.len()
    &&& exists|a: int, b: int, c: int| #[trigger] number_parts(s.subrange(start, e), a, b, c)
        && (e < s.len() ==> number_stops(s[e], c > b, c < e - start))
}

/// `s[i..j]` is exactly the JSON text of `v`, without surrounding whitespace.
pub open spec fn value_at(s: Seq<char>, i: int, v: JsonValue, j: int) -> bool
    decreases v, 1nat,
{
    &&& 0 <= i < j <= s.len()
    &&& match v {
        JsonValue::Null => s.subrange(i, j) == seq!['n', 'u', 'l', 'l'],
        JsonValue::Bool(b) => s.subrange(i, j) == if b {
            seq!['t', 'r', 'u', 'e']
        } else {
            seq!['f', 'a', 'l', 's', 'e']
        },
        JsonValue::Number(t) => s.subrange(i, j) == t@ && number_token(t@),
        JsonValue::Text(t) => s[i] == '"' && string_from(s, i + 1) == Some((t@, j)),
        JsonValue::Array(items) => s[i] == '[' && s[j - 1] == ']' && items_at(s, i + 1, items@, j - 1),
        JsonValue::Object(entries) => s[i] == '{' && s[j - 1] == '}' && entries_at(
            s,
            i + 1,
            entries@,
            j - 1,
        ),
    }
}

/// `s[i..j]` lists `items`, separated by commas, with whitespace around each.
pub open spec fn items_at(s: Seq<char>, i: int, items: Seq<JsonValue>, j: int) -> bool
    decreases items, 0nat,
{
    if items.len() == 0 {
        blank(s, i, j)
    } else {
        exists|k: int, a: int, b: int|
            #![trigger blank(s, k, a), blank(s, b, j)]
            {
                &&& if items.len() == 1 {
                    k == i
                } else {
                    items_at(s, i, items.drop_last(), k - 1) && s[k - 1] == ','
                }
                &&& blank(s, k, a)
                &&& value_at(s, a, items.last(), b)
                &&& blank(s, b, j)
            }
    }
}

/// `s[i..j]` lists the members `entries`, each a string key, a colon and a value,
/// separated by commas, with whitespace around each token.
pub open spec fn entries_at(s: Seq<char>, i: int, entries: Seq<(String, JsonValue)>, j: int) -> bool
    decreases entries, 0nat,
{
    if entries.len() == 0 {
        blank(s, i, j)
    } else {
        exists|k: int, a: int, b: int, c: int, d: int, e: int|
            #![trigger blank(s, k, a), blank(s, b, c), colon_at(s, c, d), blank(s, e, j)]
            {
                &&& if entries.len() == 1 {
                    k == i
                } else {
                    entries_at(s, i, entries.drop_last(), k - 1) && s[k - 1] == ','
                }
                &&& blank(s, k, a)
                &&& a < s.len() && s[a] == '"'
                &&& string_from(s, a + 1) == Some((entries.last().0@, b))
                &&& blank(s, b, c)
                &&& colon_at(s, c, d)
                &&& value_at(s, d, entries.last().1, e)
                &&& blank(s, e, j)
            }
    }
}

/// A colon at `c`, then whitespace up to `d`.
pub open spec fn colon_at(s: Seq<char>, c: int, d: int) -> bool {
    0 <= c < s.len() && s[c] == ':' && blank(s, c + 1, d)
}

/// The text `s` is the JSON text of `v`, with whitespace around it.
pub open spec fn json_document(s: Seq<char>, v: JsonValue) -> bool {
    exists|a: int, b: int| #![trigger value_at(s, a, v, b)]
        blank(s, 0, a) && value_at(s, a, v, b) && blank(s, b, s.len() as int)
}

/// What serde_json makes of a number's text: whether it reads it as a finite number.
pub uninterp spec fn serde_number_accepted(text: Seq<char>) -> bool;

/// `serde_json::from_str::<serde_json::Number>`: whether serde_json reads the text as a
/// number. It refuses a float beyond the finite range; the result depends on the text alone.
#[verifier::external_body]
fn number_in_range(text: &str) -> (r: bool)
    ensures
        r == serde_number_accepted(text@),
{
    serde_json::from_str::<serde_json::Number>(text).is_ok()
}

/// `std::str::from_utf8`: the text when the bytes are valid UTF-8.
#[verifier::external_body]
pub(crate) fn decode_text(bytes: &[u8]) -> (r: Option<&str>)
    ensures
        r is Some <==> valid_utf8(bytes@),
        r matches Some(t) ==> t.spec_bytes() == bytes@,
{
    std::str::from_utf8(bytes).ok()
}

/// `char::from_u32`: the character with the given scalar value, if there is one.
#[verifier::external_body]
fn char_from_scalar(n: u32) -> (r: Option<char>)
    ensures
        r == (if is_scalar(n) { Some(n as char) } else { None }),
{
    char::from_u32(n)
}

pub open spec fn is_json_space(c: char) -> bool {
    c == ' ' || c == '\n' || c == '\t' || c == '\r'
}

/// The first position at or after `pos` that holds no JSON whitespace.
fn skip_ws(s: &[char], pos: usize) -> (p: usize)
    requires
        pos <= s@.len(),
    ensures
        pos <= p <= s@.len(),
        p < s@.len() ==> !is_json_space(s@[p as int]),
        forall|k: int| pos <= k < p ==> is_json_space(#[trigger] s@[k]),
{
    let mut p = pos;
    while p < s.len() && (s[p] == ' ' || s[p] == '\n' || s[p] == '\t' || s[p] == '\r')
        invariant
            pos <= p <= s@.len(),
            forall|k: int| pos <= k < p ==> is_json_space(#[trigger] s@[k]),
        decreases s@.len() - p,
    {
        p = p + 1;
    }
    p
}

/// The value of an ASCII hexadecimal digit.
fn hex_digit(c: char) -> (r: Option<u32>)
    ensures
        match r {
            Some(n) => n < 16 && hex_value(c) == Some(n as int),
            None => hex_value(c) is None,
        },
{
    if '0' <= c && c <= '9' {
        Some((c as u32) - ('0' as u32))
    } else if 'a' <= c && c <= 'f' {
        Some((c as u32) - ('a' as u32) + 10)
    } else if 'A' <= c && c <= 'F' {
        Some((c as u32) - ('A' as u32) + 10)
    } else {
        None
    }
}

/// Four hexadecimal digits at `at`.
fn hex4(s: &[char], at: usize) -> (r: Option<u32>)
    ensures
        match r {
            Some(n) => n < 0x10000 && at + 4 <= s@.len() && hex4_at(s@, at as int) == Some(n as int),
            None => hex4_at(s@, at as int) is None,
        },
{
    if at > s.len() || s.len() - at < 4 {
        return None;
    }
    let d0 = match hex_digit(s[at]) { Some(d) => d, None => return None };
    let d1 = match hex_digit(s[at + 1]) { Some(d) => d, None => return None };
    let d2 = match hex_digit(s[at + 2]) { Some(d) => d, None => return None };
    let d3 = match hex_digit(s[at + 3]) { Some(d) => d, None => return None };
    Some(((d0 * 16 + d1) * 16 + d2) * 16 + d3)
}

/// Past this many bytes a string's width is only known to exceed every budget.
pub const WIDTH_CAP: usize = 1048576;

pub open spec fn capped_width(s: Seq<char>) -> int {
    if utf8_width(s) < WIDTH_CAP { utf8_width(s) as int } else { WIDTH_CAP as int }
}

fn char_width_exec(c: char) -> (w: usize)
    ensures
        w == char_width(c),
{
    let n = c as u32;
    if n < 0x80 {
        1
    } else if n < 0x800 {
        2
    } else if n < 0x10000 {
        3
    } else {
        4
    }
}

/// Appends a decoded character, keeping the capped width of the text.
fn push_char(t: &mut String, w: &mut usize, c: char)
    requires
        *old(w) as int == capped_width(old(t)@),
    ensures
        final(t)@ == old(t)@.push(c),
        *final(w) as int == capped_width(final(t)@),
{
    let ghost before = t@;
    string_push(t, c);
    assert(t@.drop_last() =~= before);
    let cw = char_width_exec(c);
    if *w < WIDTH_CAP {
        if *w + cw < WIDTH_CAP {
            *w = *w + cw;
        } else {
            *w = WIDTH_CAP;
        }
    }
}

/// A JSON string starting at the quote at `start`: its decoded text, the position
/// after the closing quote and the capped UTF-8 width of the text. `None` where the
/// string is not valid JSON (an unescaped control character, a bad escape, a lone
/// surrogate, or no closing quote).
fn parse_string(s: &[char], start: usize) -> (r: Option<(String, usize, usize)>)
    requires
        start < s.len(),
    ensures
        r matches Some(x) ==> start < x.1 <= s@.len() && x.2 as int == capped_width(x.0@)
            && string_from(s@, start + 1) == Some((x.0@, x.1 as int)),
        r is None ==> string_from(s@, start + 1) is None,
{
    let mut t = String::new();
    let mut w: usize = 0;
    let mut i = start + 1;
    proof {
        assert(t@ =~= Seq::<char>::empty());
        lemma_prefixed_empty(string_from(s@, i as int));
    }
    loop
        invariant
            start < i <= s.len(),
            w as int == capped_width(t@),
            string_from(s@, start + 1) == prefixed(t@, string_from(s@, i as int)),
        decreases s@.len() + 1 - i,
    {
        if i >= s.len() {
            return None;
        }
        let c = s[i];
        let ghost at = i as int;
        let ghost before = t@;
        if c == '"' {
            proof {
                assert(t@ + Seq::<char>::empty() =~= t@);
            }
            return Some((t, i + 1, w));
        }
        if c == '\\' {
            if i + 1 >= s.len() {
                proof { assert(string_from(s@, at) is None); }
                return None;
            }
            let e = s[i + 1];
            if e == '"' {
                push_char(&mut t, &mut w, '"');
                i = i + 2;
            } else if e == '\\' {
                push_char(&mut t, &mut w, '\\');
                i = i + 2;
            } else if e == '/' {
                push_char(&mut t, &mut w, '/');
                i = i + 2;
            } else if e == 'b' {
                push_char(&mut t, &mut w, '\u{8}');
                i = i + 2;
            } else if e == 'f' {
                push_char(&mut t, &mut w, '\u{c}');
                i = i + 2;
            } else if e == 'n' {
                push_char(&mut t, &mut w, '\n');
                i = i + 2;
            } else if e == 'r' {
                push_char(&mut t, &mut w, '\r');
                i = i + 2;
            } else if e == 't' {
                push_char(&mut t, &mut w, '\t');
                i = i + 2;
            } else if e == 'u' {
                let n1 = match hex4(s, i + 2) {
                    Some(n) => n,
                    None => {
                        proof { assert(string_from(s@, at) is None); }
                        return None;
                    },
                };
                i = i + 6;
                let code: u32;
                if 0xDC00 <= n1 && n1 <= 0xDFFF {
                    proof { assert(string_from(s@, at) is None); }
                    return None;
                } else if 0xD800 <= n1 && n1 <= 0xDBFF {
                    if i < s.len() && s[i] == '\\' && i + 1 < s.len() && s[i + 1] == 'u' {
                        let n2 = match hex4(s, i + 2) {
                            Some(n) => n,
                            None => {
                                proof { assert(string_from(s@, at) is None); }
                                return None;
                            },
                        };
                        if n2 < 0xDC00 || n2 > 0xDFFF {
                            proof { assert(string_from(s@, at) is None); }
                            return None;
                        }
                        i = i + 6;
                        code = (n1 - 0xD800) * 1024 + (n2 - 0xDC00) + 0x10000;
                        proof {
                            assert(0x10000 <= code <= 0x10FFFF) by (nonlinear_arith)
                                requires
                                    0xD800 <= n1 <= 0xDBFF,
                                    0xDC00 <= n2 <= 0xDFFF,
                                    code == (n1 - 0xD800) * 1024 + (n2 - 0xDC00) + 0x10000;
                        }
                    } else {
                        proof { assert(string_from(s@, at) is None); }
                        return None;
                    }
                } else {
                    code = n1;
                }
                proof {
                    assert(is_scalar(code));
                }
                match char_from_scalar(code) {
                    Some(ch) => push_char(&mut t, &mut w, ch),
                    None => return None,
                }
            } else {
                proof { assert(string_from(s@, at) is None); }
                return None;
            }
        } else if (c as u32) < 32u32 {
            proof { assert(string_from(s@, at) is None); }
            return None;
        } else {
            push_char(&mut t, &mut w, c);
            i = i + 1;
        }
        proof {
            assert(string_from(s@, at) == prefixed(seq![t@.last()], string_from(s@, i as int)));
            lemma_prefixed_push(before, t@.last(), string_from(s@, i as int));
            assert(before.push(t@.last()) == t@);
        }
    }
}

proof fn lemma_prefixed_empty(r: Option<(Seq<char>, int)>)
    ensures
        prefixed(Seq::empty(), r) == r,
{
    if let Some((rest, e)) = r {
        assert(Seq::<char>::empty() + rest =~= rest);
    }
}

proof fn lemma_prefixed_push(t: Seq<char>, c: char, r: Option<(Seq<char>, int)>)
    ensures
        prefixed(t, prefixed(seq![c], r)) == prefixed(t.push(c), r),
{
    if let Some((rest, e)) = r {
        assert(t + (seq![c] + rest) =~= t.push(c) + rest);
    }
}

pub open spec fn is_digit(c: char) -> bool {
    '0' <= c && c <= '9'
}

/// The digits from `pos` on: the first position that holds no digit.
fn skip_digits(s: &[char], pos: usize) -> (p: usize)
    requires
        pos <= s@.len(),
    ensures
        pos <= p <= s@.len(),
        p < s@.len() ==> !is_digit(s@[p as int]),
        all_digits(s@, pos as int, p as int),
{
    let mut p = pos;
    while p < s.len() && '0' <= s[p] && s[p] <= '9'
        invariant
            pos <= p <= s@.len(),
            all_digits(s@, pos as int, p as int),
        decreases s@.len() - p,
    {
        p = p + 1;
    }
    p
}

/// Two runs of digits from `i` that each end at a non-digit or at the end end together.
proof fn lemma_digit_runs(s: Seq<char>, i: int, p: int, q: int)
    requires
        0 <= i <= p <= s.len(),
        i <= q <= s.len(),
        all_digits(s, i, p),
        all_digits(s, i, q),
        p < s.len() ==> !is_digit(s[p]),
        q < s.len() ==> !is_digit(s[q]),
    ensures
        p == q,
{
    if p < q {
        assert(is_digit(s[p]));
    }
    if q < p {
        assert(is_digit(s[q]));
    }
}

/// Where the parts of a whole number starting at `start` lie in `s`.
proof fn lemma_number_shape(s: Seq<char>, start: int, e: int, a: int, b: int, c: int)
    requires
        0 <= start < e <= s.len(),
        number_parts(s.subrange(start, e), a, b, c),
        e < s.len() ==> number_stops(s[e], c > b, c < e - start),
    ensures
        start + a == (if s[start] == '-' { start + 1 } else { start }),
        start + a < start + b <= start + c <= e,
        all_digits(s, start + a, start + b),
        start + b < s.len() ==> !is_digit(s[start + b]),
        s[start + a] == '0' ==> b == a + 1,
        c > b ==> s[start + b] == '.' && start + b + 1 < start + c && all_digits(s, start + b + 1, start + c)
            && (start + c < s.len() ==> !is_digit(s[start + c])),
        c == b ==> (start + b < s.len() ==> s[start + b] != '.'),
        start + c < e ==> {
            let d = if s[start + c + 1] == '+' || s[start + c + 1] == '-' { start + c + 2 } else { start + c + 1 };
            &&& start + c + 1 < e
            &&& s[start + c] == 'e' || s[start + c] == 'E'
            &&& d < e
            &&& all_digits(s, d, e)
            &&& e < s.len() ==> !is_digit(s[e])
        },
        start + c == e ==> (e < s.len() ==> !(s[e] == 'e' || s[e] == 'E')),
{
    let t = s.subrange(start, e);
    assert forall|k: int| a <= k < b implies is_digit(#[trigger] t[k]) by {}
    assert forall|k: int| start + a <= k < start + b implies is_digit(#[trigger] s[k]) by {
        assert(t[k - start] == s[k]);
    }
    if a == 0 {
        assert(is_digit(t[0]));
    }
    if c > b {
        assert forall|k: int| start + b + 1 <= k < start + c implies is_digit(#[trigger] s[k]) by {
            assert(t[k - start] == s[k]);
            assert(is_digit(t[k - start]));
        }
    }
    if c < t.len() {
        let x = t.subrange(c, t.len() as int);
        assert(exponent(x));
        assert(x[0] == s[start + c]);
        assert(x[1] == s[start + c + 1]);
        let d = if x[1] == '+' || x[1] == '-' { 2int } else { 1int };
        assert forall|k: int| start + c + d <= k < e implies is_digit(#[trigger] s[k]) by {
            assert(x[k - start - c] == s[k]);
            assert(is_digit(x[k - start - c]));
        }
    }
}

/// A string holds at most one whole number from a given start.
proof fn lemma_number_end_unique(s: Seq<char>, start: int, e1: int, e2: int)
    requires
        number_ends_at(s, start, e1),
        number_ends_at(s, start, e2),
    ensures
        e1 == e2,
{
    let (a1, b1, c1) = choose|a: int, b: int, c: int| #[trigger] number_parts(s.subrange(start, e1), a, b, c)
        && (e1 < s.len() ==> number_stops(s[e1], c > b, c < e1 - start));
    let (a2, b2, c2) = choose|a: int, b: int, c: int| #[trigger] number_parts(s.subrange(start, e2), a, b, c)
        && (e2 < s.len() ==> number_stops(s[e2], c > b, c < e2 - start));
    lemma_number_shape(s, start, e1, a1, b1, c1);
    lemma_number_shape(s, start, e2, a2, b2, c2);
    lemma_digit_runs(s, start + a1, start + b1, start + b2);
    if c1 > b1 || c2 > b2 {
        lemma_digit_runs(s, start + b1 + 1, start + c1, start + c2);
    }
    if start + c1 < e1 && start + c2 < e2 {
        let d = if s[start + c1 + 1] == '+' || s[start + c1 + 1] == '-' { start + c1 + 2 } else { start + c1 + 1 };
        lemma_digit_runs(s, d, e1, e2);
    }
}

/// The integer digits of a number from `start` begin at `ia`, after an optional minus.
pub open spec fn integer_start(s: Seq<char>, start: int, ia: int) -> bool {
    ia == (if s[start] == '-' { start + 1 } else { start })
}

/// The integer digits of a number from `start` are `s[ia..ib]`, as many as there are.
pub open spec fn integer_digits(s: Seq<char>, start: int, ia: int, ib: int) -> bool {
    &&& 0 <= start < s.len()
    &&& integer_start(s, start, ia)
    &&& ia < ib <= s.len()
    &&& all_digits(s, ia, ib)
    &&& ib < s.len() ==> !is_digit(s[ib])
}

/// No whole number starts at `start` without a digit after the optional minus.
proof fn lemma_no_number_digit(s: Seq<char>, start: int, ia: int)
    requires
        0 <= start < s.len(),
        integer_start(s, start, ia),
        ia >= s.len() || !is_digit(s[ia]),
    ensures
        forall|e: int| !#[trigger] number_ends_at(s, start, e),
{
    assert forall|e: int| !#[trigger] number_ends_at(s, start, e) by {
        if number_ends_at(s, start, e) {
            let (a1, b1, c1) = choose|a: int, b: int, c: int| #[trigger] number_parts(s.subrange(start, e), a, b, c)
                && (e < s.len() ==> number_stops(s[e], c > b, c < e - start));
            lemma_number_shape(s, start, e, a1, b1, c1);
        }
    }
}

/// No whole number starts at `start` with a zero followed by a digit.
proof fn lemma_no_number_zero(s: Seq<char>, start: int, ia: int)
    requires
        0 <= start < s.len(),
        integer_start(s, start, ia),
        ia + 1 < s.len(),
        s[ia] == '0',
        is_digit(s[ia + 1]),
    ensures
        forall|e: int| !#[trigger] number_ends_at(s, start, e),
{
    assert forall|e: int| !#[trigger] number_ends_at(s, start, e) by {
        if number_ends_at(s, start, e) {
            let (a1, b1, c1) = choose|a: int, b: int, c: int| #[trigger] number_parts(s.subrange(start, e), a, b, c)
                && (e < s.len() ==> number_stops(s[e], c > b, c < e - start));
            lemma_number_shape(s, start, e, a1, b1, c1);
        }
    }
}

/// No whole number starts at `start` whose integer digits `ia..ib` are followed by a
/// `.` without a digit after it.
proof fn lemma_no_number_fraction(s: Seq<char>, start: int, ia: int, ib: int)
    requires
        integer_digits(s, start, ia, ib),
        ib < s.len(),
        s[ib] == '.',
        ib + 1 >= s.len() || !is_digit(s[ib + 1]),
    ensures
        forall|e: int| !#[trigger] number_ends_at(s, start, e),
{
    assert forall|e: int| !#[trigger] number_ends_at(s, start, e) by {
        if number_ends_at(s, start, e) {
            let (a1, b1, c1) = choose|a: int, b: int, c: int| #[trigger] number_parts(s.subrange(start, e), a, b, c)
                && (e < s.len() ==> number_stops(s[e], c > b, c < e - start));
            lemma_number_shape(s, start, e, a1, b1, c1);
            lemma_digit_runs(s, ia, ib, start + b1);
            if c1 > b1 {
                assert(is_digit(s[ib + 1]));
            }
        }
    }
}

/// No whole number starts at `start` whose integer digits `ia..ib` and fraction
/// (up to `ic`) are followed by an exponent mark without a digit after its sign.
proof fn lemma_no_number_exponent(s: Seq<char>, start: int, ia: int, ib: int, ic: int, ip: int)
    requires
        integer_digits(s, start, ia, ib),
        ib <= ic < s.len(),
        ic == ib ==> s[ib] != '.',
        ic > ib ==> s[ib] == '.' && ib + 1 < ic && all_digits(s, ib + 1, ic),
        s[ic] == 'e' || s[ic] == 'E',
        ip == (if ic + 1 < s.len() && (s[ic + 1] == '+' || s[ic + 1] == '-') { ic + 2 } else { ic + 1 }),
        ip >= s.len() || !is_digit(s[ip]),
    ensures
        forall|e: int| !#[trigger] number_ends_at(s, start, e),
{
    assert forall|e: int| !#[trigger] number_ends_at(s, start, e) by {
        if number_ends_at(s, start, e) {
            let (a1, b1, c1) = choose|a: int, b: int, c: int| #[trigger] number_parts(s.subrange(start, e), a, b, c)
                && (e < s.len() ==> number_stops(s[e], c > b, c < e - start));
            lemma_number_shape(s, start, e, a1, b1, c1);
            lemma_digit_runs(s, ia, ib, start + b1);
            if ic > ib || c1 > b1 {
                lemma_digit_runs(s, ib + 1, ic, start + c1);
            }
            assert(start + c1 == ic);
        }
    }
}

/// A number read from `start` with integer digits `ia..ib`, fraction up to `ic`
/// and exponent up to `p` is whole.
proof fn lemma_number_found(s: Seq<char>, start: int, ia: int, ib: int, ic: int, p: int)
    requires
        integer_digits(s, start, ia, ib),
        s[ia] == '0' ==> ib == ia + 1,
        ib <= ic <= p <= s.len(),
        ic == ib ==> (ib < s.len() ==> s[ib] != '.'),
        ic > ib ==> s[ib] == '.' && ib + 1 < ic && all_digits(s, ib + 1, ic) && (ic < s.len() ==> !is_digit(s[ic])),
        ic == p ==> (ic < s.len() ==> !(s[ic] == 'e' || s[ic] == 'E')),
        ic < p ==> exponent(s.subrange(ic, p)) && (p < s.len() ==> !is_digit(s[p])),
    ensures
        start < p,
        number_token(s.subrange(start, p)),
        number_ends_at(s, start, p),
{
    let t = s.subrange(start, p);
    let o = start;
    assert(all_digits(t, ia - o, ib - o));
    if ic > ib {
        assert(all_digits(t, ib + 1 - o, ic - o));
    }
    if ic < p {
        let x = t.subrange(ic - o, t.len() as int);
        assert(x =~= s.subrange(ic, p));
    }
    assert(number_parts(t, ia - o, ib - o, ic - o));
    assert(p < s.len() ==> number_stops(s[p], ic - o > ib - o, ic - o < p - o));
}

/// A JSON number starting at `start`: an optional minus, an integer part without a
/// leading zero, an optional fraction and an optional exponent, each with at least
/// one digit, read as far as it goes. Returns the position after it, or `None` where
/// no whole number starts there.
fn lex_number(s: &[char], start: usize) -> (r: Option<usize>)
    requires
        start < s@.len(),
    ensures
        r matches Some(end) ==> start < end <= s@.len() && number_token(
            s@.subrange(start as int, end as int),
        ) && number_ends_at(s@, start as int, end as int),
        forall|e: int| #[trigger] number_ends_at(s@, start as int, e) ==> r == Some(e as usize),
{
    let mut p = start;
    if s[p] == '-' {
        p = p + 1;
    }
    let ghost a = p as int;
    if p >= s.len() || !('0' <= s[p] && s[p] <= '9') {
        proof {
            lemma_no_number_digit(s@, start as int, a);
        }
        return None;
    }
    if s[p] == '0' {
        p = p + 1;
        if p < s.len() && '0' <= s[p] && s[p] <= '9' {
            proof {
                lemma_no_number_zero(s@, start as int, a);
            }
            return None;
        }
    } else {
        p = skip_digits(s, p);
    }
    let ghost b = p as int;
    if p < s.len() && s[p] == '.' {
        let q = skip_digits(s, p + 1);
        if q == p + 1 {
            proof {
                lemma_no_number_fraction(s@, start as int, a, b);
            }
            return None;
        }
        p = q;
    }
    let ghost c = p as int;
    if p < s.len() && (s[p] == 'e' || s[p] == 'E') {
        p = p + 1;
        if p < s.len() && (s[p] == '+' || s[p] == '-') {
            p = p + 1;
        }
        let q = skip_digits(s, p);
        if q == p {
            proof {
                lemma_no_number_exponent(s@, start as int, a, b, c, p as int);
            }
            return None;
        }
        p = q;
    }
    proof {
        lemma_number_found(s@, start as int, a, b, c, p as int);
        assert forall|e: int| #[trigger] number_ends_at(s@, start as int, e) implies Some(p) == Some(e as usize) by {
            lemma_number_end_unique(s@, start as int, p as int, e);
        }
    }
    Some(p)
}

/// The characters `s[from..to]` as a string.
fn collect_text(s: &[char], from: usize, to: usize) -> (t: String)
    requires
        from <= to <= s@.len(),
    ensures
        t@ == s@.subrange(from as int, to as int),
{
    let mut t = String::new();
    let mut i = from;
    proof {
        assert(t@ =~= s@.subrange(from as int, from as int));
    }
    while i < to
        invariant
            from <= i <= to <= s@.len(),
            t@ == s@.subrange(from as int, i as int),
        decreases to - i,
    {
        string_push(&mut t, s[i]);
        assert(t@ =~= s@.subrange(from as int, i + 1));
        i = i + 1;
    }
    t
}

/// The given word starts at `at`.
fn word_at(s: &[char], at: usize, word: &[char]) -> (r: bool)
    ensures
        r <==> at + word@.len() <= s@.len() && s@.subrange(at as int, at + word@.len()) == word@,
{
    if at > s.len() || s.len() - at < word.len() {
        return false;
    }
    let mut k: usize = 0;
    while k < word.len()
        invariant
            k <= word.len(),
            at + word.len() <= s.len(),
            forall|i: int| 0 <= i < k ==> s@[at + i] == #[trigger] word@[i],
        decreases word@.len() - k,
    {
        if s[at + k] != word[k] {
            proof {
                assert(s@.subrange(at as int, at + word@.len())[k as int] == s@[at + k]);
            }
            return false;
        }
        k = k + 1;
    }
    assert(s@.subrange(at as int, at + word@.len()) =~= word@);
    true
}


/// Reading state: the position, the nodes consumed by this document and the
/// caller's remaining node allowance.
struct Meter {
    pos: usize,
    nodes: usize,
    remaining: usize,
}

/// From `a` to `b` the position only moved forward, and every node taken from the
/// allowance was counted against this document within its budget.
spec fn advanced(a: Meter, b: Meter, len: int, lim: ReportJsonLimits) -> bool {
    &&& a.pos <= b.pos <= len
    &&& a.nodes <= b.nodes <= lim.max_total_nodes
    &&& b.nodes + b.remaining == a.nodes + a.remaining
}

/// Some member of `entries` has the key `key`.
pub open spec fn has_key(entries: Seq<(String, JsonValue)>, key: Seq<char>) -> bool {
    exists|i: int| 0 <= i < entries.len() && (#[trigger] entries[i]).0@ == key
}

fn contains_key(entries: &Vec<(String, JsonValue)>, key: &String) -> (r: bool)
    ensures
        r == has_key(entries@, key@),
{
    let mut i: usize = 0;
    while i < entries.len()
        invariant
            i <= entries@.len(),
            forall|k: int| 0 <= k < i ==> (#[trigger] entries@[k]).0@ != key@,
        decreases entries@.len() - i,
    {
        if str_eq(entries[i].0.as_str(), key.as_str()) {
            assert(entries@[i as int].0@ == key@);
            return true;
        }
        i = i + 1;
    }
    false
}

/// Whitespace from `i`, then the JSON text of `v` ending at `j`.
pub open spec fn spaced_value(s: Seq<char>, i: int, v: JsonValue, j: int) -> bool {
    exists|a: int| #![trigger value_at(s, a, v, j)] blank(s, i, a) && value_at(s, a, v, j)
}

proof fn lemma_blank_join(s: Seq<char>, i: int, j: int, k: int)
    requires
        blank(s, i, j),
        blank(s, j, k),
    ensures
        blank(s, i, k),
{
    assert forall|x: int| i <= x < k implies is_json_space(#[trigger] s[x]) by {
        if x < j {
            assert(is_json_space(s[x]));
        } else {
            assert(is_json_space(s[x]));
        }
    }
}

proof fn lemma_items_extend(s: Seq<char>, i: int, items: Seq<JsonValue>, j: int, p: int)
    requires
        items_at(s, i, items, j),
        blank(s, j, p),
    ensures
        items_at(s, i, items, p),
{
    if items.len() == 0 {
        lemma_blank_join(s, i, j, p);
    } else {
        let (k, a, b) = choose|k: int, a: int, b: int|
            #![trigger blank(s, k, a), blank(s, b, j)]
            {
                &&& if items.len() == 1 {
                    k == i
                } else {
                    items_at(s, i, items.drop_last(), k - 1) && s[k - 1] == ','
                }
                &&& blank(s, k, a)
                &&& value_at(s, a, items.last(), b)
                &&& blank(s, b, j)
            };
        lemma_blank_join(s, b, j, p);
        assert(blank(s, k, a) && blank(s, b, p));
    }
}

proof fn lemma_entries_extend(s: Seq<char>, i: int, entries: Seq<(String, JsonValue)>, j: int, p: int)
    requires
        entries_at(s, i, entries, j),
        blank(s, j, p),
    ensures
        entries_at(s, i, entries, p),
{
    if entries.len() == 0 {
        lemma_blank_join(s, i, j, p);
    } else {
        let (k, a, b, c, d, e) = choose|k: int, a: int, b: int, c: int, d: int, e: int|
            #![trigger blank(s, k, a), blank(s, b, c), colon_at(s, c, d), blank(s, e, j)]
            {
                &&& if entries.len() == 1 {
                    k == i
                } else {
                    entries_at(s, i, entries.drop_last(), k - 1) && s[k - 1] == ','
                }
                &&& blank(s, k, a)
                &&& a < s.len() && s[a] == '"'
                &&& string_from(s, a + 1) == Some((entries.last().0@, b))
                &&& blank(s, b, c)
                &&& colon_at(s, c, d)
                &&& value_at(s, d, entries.last().1, e)
                &&& blank(s, e, j)
            };
        lemma_blank_join(s, e, j, p);
        assert(blank(s, k, a) && blank(s, b, c) && colon_at(s, c, d) && blank(s, e, p));
    }
}

proof fn lemma_entries_push(
    s: Seq<char>,
    i: int,
    before: Seq<(String, JsonValue)>,
    k: int,
    a: int,
    key: String,
    b: int,
    c: int,
    d: int,
    v: JsonValue,
    e: int,
)
    requires
        if before.len() == 0 {
            k == i
        } else {
            entries_at(s, i, before, k - 1) && s[k - 1] == ','
        },
        blank(s, k, a),
        a < s.len() && s[a] == '"',
        string_from(s, a + 1) == Some((key@, b)),
        blank(s, b, c),
        0 <= c < s.len() && s[c] == ':',
        blank(s, c + 1, d),
        value_at(s, d, v, e),
    ensures
        entries_at(s, i, before.push((key, v)), e),
{
    let n = before.push((key, v));
    assert(n.drop_last() =~= before);
    assert(blank(s, e, e));
    assert(blank(s, k, a) && blank(s, b, c) && colon_at(s, c, d) && blank(s, e, e));
}

/// Every number in the value is one serde_json reads.
pub open spec fn numbers_read(v: JsonValue) -> bool
    decreases v,
{
    match v {
        JsonValue::Number(t) => serde_number_accepted(t@),
        JsonValue::Array(items) => items_read(items@),
        JsonValue::Object(entries) => entries_read(entries@),
        _ => true,
    }
}

pub open spec fn items_read(s: Seq<JsonValue>) -> bool
    decreases s,
{
    if s.len() == 0 {
        true
    } else {
        items_read(s.drop_last()) && numbers_read(s.last())
    }
}

pub open spec fn entries_read(s: Seq<(String, JsonValue)>) -> bool
    decreases s,
{
    if s.len() == 0 {
        true
    } else {
        entries_read(s.drop_last()) && numbers_read(s.last().1)
    }
}

/// A value's text may end at `j`: the end, whitespace, a comma or a closing bracket.
pub open spec fn ends_value(s: Seq<char>, j: int) -> bool {
    j == s.len() || (0 <= j < s.len() && (is_json_space(s[j]) || s[j] == ',' || s[j] == ']' || s[j] == '}'))
}

/// After position `x`, the next item of a list: whitespace (and, after the first, a
/// comma and whitespace), then the text of `v` ending at `y`.
#[verifier::opaque]
pub open spec fn item_step(s: Seq<char>, x: int, n: int, v: JsonValue, y: int) -> bool {
    exists|q: int, a: int|
        #![trigger value_at(s, a, v, y), blank(s, x, q)]
        {
            &&& if n == 0 {
                q == x && blank(s, x, a)
            } else {
                blank(s, x, q) && q < s.len() && s[q] == ',' && blank(s, q + 1, a)
            }
            &&& value_at(s, a, v, y)
        }
}

/// After position `x`, the next member of an object: whitespace (and, after the first,
/// a comma and whitespace), a key string, whitespace, a colon, whitespace and the text of
/// the member's value ending at `y`.
/// One member step with its positions: the comma (or `x` for the first), the key's
/// quote, the key's end, the colon and the value's start.
pub open spec fn entry_parts(s: Seq<char>, x: int, n: int, entry: (String, JsonValue), y: int, q: int, a: int, b: int, c: int, d: int) -> bool {
    &&& if n == 0 {
        q == x && blank(s, x, a)
    } else {
        blank(s, x, q) && q < s.len() && s[q] == ',' && blank(s, q + 1, a)
    }
    &&& a < s.len() && s[a] == '"'
    &&& string_from(s, a + 1) == Some((entry.0@, b))
    &&& blank(s, b, c)
    &&& colon_at(s, c, d)
    &&& value_at(s, d, entry.1, y)
}

#[verifier::opaque]
pub open spec fn entry_step(s: Seq<char>, x: int, n: int, entry: (String, JsonValue), y: int) -> bool {
    exists|q: int, a: int, b: int, c: int, d: int| #[trigger] entry_parts(s, x, n, entry, y, q, a, b, c, d)
}

proof fn lemma_item_step_intro(s: Seq<char>, x: int, n: int, v: JsonValue, y: int, q: int, a: int)
    requires
        if n == 0 {
            q == x && blank(s, x, a)
        } else {
            blank(s, x, q) && q < s.len() && s[q] == ',' && blank(s, q + 1, a)
        },
        value_at(s, a, v, y),
    ensures
        item_step(s, x, n, v, y),
{
    reveal(item_step);
    if n == 0 {
        assert(blank(s, x, q));
    }
    assert(value_at(s, a, v, y) && blank(s, x, q));
}

proof fn lemma_entry_step_intro(s: Seq<char>, x: int, n: int, entry: (String, JsonValue), y: int, q: int, a: int, b: int, c: int, d: int)
    requires
        if n == 0 {
            q == x && blank(s, x, a)
        } else {
            blank(s, x, q) && q < s.len() && s[q] == ',' && blank(s, q + 1, a)
        },
        a < s.len() && s[a] == '"',
        string_from(s, a + 1) == Some((entry.0@, b)),
        blank(s, b, c),
        colon_at(s, c, d),
        value_at(s, d, entry.1, y),
    ensures
        entry_step(s, x, n, entry, y),
{
    reveal(entry_step);
    assert(entry_parts(s, x, n, entry, y, q, a, b, c, d));
}

/// The last item of a list text and where it sits.
proof fn lemma_items_split(s: Seq<char>, i: int, items: Seq<JsonValue>, j: int) -> (r: (int, int, int))
    requires
        items_at(s, i, items, j),
        items.len() > 0,
    ensures
        if items.len() == 1 {
            r.0 == i
        } else {
            items_at(s, i, items.drop_last(), r.0 - 1) && 0 <= r.0 - 1 < s.len() && s[r.0 - 1] == ','
        },
        blank(s, r.0, r.1),
        value_at(s, r.1, items.last(), r.2),
        blank(s, r.2, j),
{
    let (k, a, b) = choose|k: int, a: int, b: int|
        #![trigger blank(s, k, a), blank(s, b, j)]
        {
            &&& if items.len() == 1 {
                k == i
            } else {
                items_at(s, i, items.drop_last(), k - 1) && s[k - 1] == ','
            }
            &&& blank(s, k, a)
            &&& value_at(s, a, items.last(), b)
            &&& blank(s, b, j)
        };
    (k, a, b)
}

/// The last member of an object text and where it sits.
proof fn lemma_entries_split(s: Seq<char>, i: int, entries: Seq<(String, JsonValue)>, j: int) -> (r: (int, int, int, int, int, int))
    requires
        entries_at(s, i, entries, j),
        entries.len() > 0,
    ensures
        if entries.len() == 1 {
            r.0 == i
        } else {
            entries_at(s, i, entries.drop_last(), r.0 - 1) && 0 <= r.0 - 1 < s.len() && s[r.0 - 1] == ','
        },
        blank(s, r.0, r.1),
        r.1 < s.len() && s[r.1] == '"',
        string_from(s, r.1 + 1) == Some((entries.last().0@, r.2)),
        blank(s, r.2, r.3),
        colon_at(s, r.3, r.4),
        value_at(s, r.4, entries.last().1, r.5),
        blank(s, r.5, j),
{
    let (k, a, b, c, d, e) = choose|k: int, a: int, b: int, c: int, d: int, e: int|
        #![trigger blank(s, k, a), blank(s, b, c), colon_at(s, c, d), blank(s, e, j)]
        {
            &&& if entries.len() == 1 {
                k == i
            } else {
                entries_at(s, i, entries.drop_last(), k - 1) && s[k - 1] == ','
            }
            &&& blank(s, k, a)
            &&& a < s.len() && s[a] == '"'
            &&& string_from(s, a + 1) == Some((entries.last().0@, b))
            &&& blank(s, b, c)
            &&& colon_at(s, c, d)
            &&& value_at(s, d, entries.last().1, e)
            &&& blank(s, e, j)
        };
    if entries.len() > 1 {
        assert(0 <= k - 1);
    }
    (k, a, b, c, d, e)
}

/// The list text of `items` from `i` to `j`, read forward: where each item ends.
proof fn lemma_items_chain(s: Seq<char>, i: int, items: Seq<JsonValue>, j: int) -> (ends: Seq<int>)
    requires
        items_at(s, i, items, j),
    ensures
        ends.len() == items.len() + 1,
        ends[0] == i,
        forall|n: int| 0 <= n < items.len() ==> #[trigger] item_step(s, ends[n], n, items[n], ends[n + 1]),
        blank(s, ends[items.len() as int], j),
    decreases items.len(),
{
    if items.len() == 0 {
        seq![i]
    } else {
        let (k, a, b) = lemma_items_split(s, i, items, j);
        let n = items.len() - 1;
        if items.len() == 1 {
            lemma_item_step_intro(s, i, 0, items[0], b, i, a);
            let ends = seq![i, b];
            assert(ends[0] == i && ends[1] == b);
            ends
        } else {
            let d0 = items.drop_last();
            let prev = lemma_items_chain(s, i, d0, k - 1);
            lemma_item_step_intro(s, prev[n], n, items[n], b, k - 1, a);
            let ends = prev.push(b);
            assert forall|m: int| 0 <= m < items.len() implies #[trigger] item_step(s, ends[m], m, items[m], ends[m + 1]) by {
                if m < n {
                    assert(ends[m] == prev[m] && ends[m + 1] == prev[m + 1]);
                    assert(items[m] == d0[m]);
                    assert(item_step(s, prev[m], m, d0[m], prev[m + 1]));
                } else {
                    assert(ends[m] == prev[n] && ends[m + 1] == b);
                }
            }
            ends
        }
    }
}

/// The member text of `entries` from `i` to `j`, read forward: where each value ends.
#[verifier::spinoff_prover]
#[verifier::rlimit(80)]
proof fn lemma_entries_chain(s: Seq<char>, i: int, entries: Seq<(String, JsonValue)>, j: int) -> (ends: Seq<int>)
    requires
        entries_at(s, i, entries, j),
    ensures
        ends.len() == entries.len() + 1,
        ends[0] == i,
        forall|n: int| 0 <= n < entries.len() ==> #[trigger] entry_step(s, ends[n], n, entries[n], ends[n + 1]),
        blank(s, ends[entries.len() as int], j),
    decreases entries.len(),
{
    if entries.len() == 0 {
        seq![i]
    } else {
        let (k, a, b, c, d, e) = lemma_entries_split(s, i, entries, j);
        let n = entries.len() - 1;
        if entries.len() == 1 {
            lemma_entry_step_intro(s, i, 0, entries[0], e, i, a, b, c, d);
            let ends = seq![i, e];
            assert(ends[0] == i && ends[1] == e);
            ends
        } else {
            let d0 = entries.drop_last();
            let prev = lemma_entries_chain(s, i, d0, k - 1);
            lemma_entry_step_intro(s, prev[n], n, entries[n], e, k - 1, a, b, c, d);
            let ends = prev.push(e);
            assert forall|m: int| 0 <= m < entries.len() implies #[trigger] entry_step(s, ends[m], m, entries[m], ends[m + 1]) by {
                if m < n {
                    assert(ends[m] == prev[m] && ends[m + 1] == prev[m + 1]);
                    assert(entries[m] == d0[m]);
                    assert(entry_step(s, prev[m], m, d0[m], prev[m + 1]));
                } else {
                    assert(ends[m] == prev[n] && ends[m + 1] == e);
                }
            }
            ends
        }
    }
}

/// What the budgets and numbers of a list say of each item, and how its nodes add up.
proof fn lemma_items_facts(items: Seq<JsonValue>, lim: ReportJsonLimits, d: int)
    ensures
        items_within(items, lim, d) ==> forall|n: int| 0 <= n < items.len() ==> within(#[trigger] items[n], lim, d),
        items_read(items) ==> forall|n: int| 0 <= n < items.len() ==> numbers_read(#[trigger] items[n]),
        forall|n: int| 0 <= n < items.len() ==> items_nodes(#[trigger] items.take(n + 1)) == items_nodes(items.take(n)) + value_nodes(items[n]),
        forall|n: int| 0 <= n <= items.len() ==> items_nodes(#[trigger] items.take(n)) <= items_nodes(items),
    decreases items.len(),
{
    if items.len() > 0 {
        let d0 = items.drop_last();
        lemma_items_facts(d0, lim, d);
        assert forall|n: int| 0 <= n < items.len() implies items_nodes(#[trigger] items.take(n + 1)) == items_nodes(items.take(n)) + value_nodes(items[n]) by {
            assert(items.take(n + 1).drop_last() =~= items.take(n));
        }
        assert forall|n: int| 0 <= n <= items.len() implies items_nodes(#[trigger] items.take(n)) <= items_nodes(items) by {
            if n == items.len() {
                assert(items.take(n) =~= items);
            } else {
                assert(items.take(n) =~= d0.take(n));
                assert(d0.take(n) == items.take(n));
            }
        }
        assert forall|n: int| 0 <= n < items.len() - 1 implies items[n] == #[trigger] d0[n] by {}
        if items_within(items, lim, d) {
            assert forall|n: int| 0 <= n < items.len() implies within(#[trigger] items[n], lim, d) by {
                if n < items.len() - 1 {
                    assert(items[n] == d0[n]);
                }
            }
        }
        if items_read(items) {
            assert forall|n: int| 0 <= n < items.len() implies numbers_read(#[trigger] items[n]) by {
                if n < items.len() - 1 {
                    assert(items[n] == d0[n]);
                }
            }
        }
    }
}

/// What the budgets and numbers of an object say of each member, and how its nodes add up.
proof fn lemma_entries_facts(entries: Seq<(String, JsonValue)>, lim: ReportJsonLimits, d: int)
    ensures
        entries_within(entries, lim, d) ==> forall|n: int| 0 <= n < entries.len() ==> within((#[trigger] entries[n]).1, lim, d)
            && utf8_width(entries[n].0@) <= lim.max_scalar_bytes,
        entries_within(entries, lim, d) ==> forall|n: int, m: int| 0 <= n < m < entries.len() ==> (#[trigger] entries[n]).0@ != (#[trigger] entries[m]).0@,
        entries_read(entries) ==> forall|n: int| 0 <= n < entries.len() ==> numbers_read((#[trigger] entries[n]).1),
        forall|n: int| 0 <= n < entries.len() ==> entries_nodes(#[trigger] entries.take(n + 1)) == entries_nodes(entries.take(n)) + value_nodes(entries[n].1),
        forall|n: int| 0 <= n <= entries.len() ==> entries_nodes(#[trigger] entries.take(n)) <= entries_nodes(entries),
    decreases entries.len(),
{
    if entries.len() > 0 {
        let d0 = entries.drop_last();
        lemma_entries_facts(d0, lim, d);
        assert forall|n: int| 0 <= n < entries.len() implies entries_nodes(#[trigger] entries.take(n + 1)) == entries_nodes(entries.take(n)) + value_nodes(entries[n].1) by {
            assert(entries.take(n + 1).drop_last() =~= entries.take(n));
        }
        assert forall|n: int| 0 <= n <= entries.len() implies entries_nodes(#[trigger] entries.take(n)) <= entries_nodes(entries) by {
            if n == entries.len() {
                assert(entries.take(n) =~= entries);
            } else {
                assert(entries.take(n) =~= d0.take(n));
            }
        }
        assert forall|n: int| 0 <= n < entries.len() - 1 implies entries[n] == #[trigger] d0[n] by {}
        if entries_within(entries, lim, d) {
            assert forall|n: int| 0 <= n < entries.len() implies within((#[trigger] entries[n]).1, lim, d)
                && utf8_width(entries[n].0@) <= lim.max_scalar_bytes by {
                if n < entries.len() - 1 {
                    assert(entries[n] == d0[n]);
                }
            }
        }
        if entries_read(entries) {
            assert forall|n: int| 0 <= n < entries.len() implies numbers_read((#[trigger] entries[n]).1) by {
                if n < entries.len() - 1 {
                    assert(entries[n] == d0[n]);
                }
            }
        }
        if entries_within(entries, lim, d) {
            assert forall|n: int, m: int| 0 <= n < m < entries.len() implies (#[trigger] entries[n]).0@ != (#[trigger] entries[m]).0@ by {
                if m == entries.len() - 1 {
                } else {
                    assert(entries[n] == d0[n] && entries[m] == d0[m]);
                }
            }
        }
    }
}

/// From `i`, whitespace and then a whole value other than an object, followed by
/// whitespace or the end; a number in it is one serde_json reads.
pub open spec fn scalar_root_at(s: Seq<char>, i: int) -> bool {
    exists|a: int, v: JsonValue, j: int|
        #![trigger value_at(s, a, v, j)]
        {
            &&& blank(s, i, a)
            &&& value_at(s, a, v, j)
            &&& !(v is Object)
            &&& (v matches JsonValue::Number(t) ==> serde_number_accepted(t@))
            &&& (j < s.len() ==> is_json_space(s[j]))
        }
}

/// The text from `i` starts, after whitespace, with something other than `{`.
pub open spec fn not_object_start(s: Seq<char>, i: int) -> bool {
    exists|a: int| blank(s, i, a) && a < s.len() && s[a] != '{'
}

/// The scalar root found after whitespace starts at the first non-space character.
proof fn lemma_root_first(s: Seq<char>, from: int, p: int)
    requires
        scalar_root_at(s, from),
        from <= p <= s.len(),
        forall|k: int| from <= k < p ==> is_json_space(#[trigger] s[k]),
        p < s.len() ==> !is_json_space(s[p]),
    ensures
        p < s.len(),
        exists|v: JsonValue, j: int|
            #![trigger value_at(s, p, v, j)]
            {
                &&& value_at(s, p, v, j)
                &&& !(v is Object)
                &&& (v matches JsonValue::Number(t) ==> serde_number_accepted(t@))
                &&& (j < s.len() ==> is_json_space(s[j]))
            },
{
    let (a, v, j) = choose|a: int, v: JsonValue, j: int|
        #![trigger value_at(s, a, v, j)]
        {
            &&& blank(s, from, a)
            &&& value_at(s, a, v, j)
            &&& !(v is Object)
            &&& (v matches JsonValue::Number(t) ==> serde_number_accepted(t@))
            &&& (j < s.len() ==> is_json_space(s[j]))
        };
    lemma_value_starts(s, a, v, j);
    if a < p {
        assert(is_json_space(s[a]));
    }
    if p < a {
        assert(is_json_space(s[p]));
    }
    assert(a == p);
}

/// The first character of a value's text: never JSON whitespace, and telling its kind.
proof fn lemma_value_starts(s: Seq<char>, a: int, v: JsonValue, j: int)
    requires
        value_at(s, a, v, j),
    ensures
        !is_json_space(s[a]),
        v is Null ==> s[a] == 'n',
        v matches JsonValue::Bool(b) ==> s[a] == (if b { 't' } else { 'f' }),
        v is Number ==> s[a] == '-' || is_digit(s[a]),
        v is Text ==> s[a] == '"',
        v is Array ==> s[a] == '[',
        v is Object ==> s[a] == '{',
{
    match v {
        JsonValue::Null => {
            assert(s.subrange(a, j)[0] == s[a]);
        },
        JsonValue::Bool(b) => {
            assert(s.subrange(a, j)[0] == s[a]);
        },
        JsonValue::Number(t) => {
            let (x, y, z) = choose|x: int, y: int, z: int| number_parts(t@, x, y, z);
            assert(s.subrange(a, j)[0] == s[a]);
            if x == 0 {
                assert(is_digit(t@[0]));
            }
        },
        _ => {},
    }
}

/// What a value read from `m` at `depth` is owed to give: the text from `m.pos` is
/// whitespace and then `v` ending at `j`, where a value may end; `v` keeps the budgets,
/// its numbers are read by serde_json, and its nodes fit what is left.
spec fn owed_value(s: Seq<char>, m: Meter, lim: ReportJsonLimits, depth: int, v: JsonValue, j: int) -> bool {
    &&& m.nodes + value_nodes(v) <= lim.max_total_nodes
    &&& value_nodes(v) <= m.remaining
    &&& within(v, lim, depth)
    &&& numbers_read(v)
    &&& (depth == 0 ==> v is Object)
    &&& spaced_value(s, m.pos as int, v, j)
    &&& ends_value(s, j)
}

/// What a container whose own node is charged is owed to give: its text from `m.pos`.
spec fn owed_container(s: Seq<char>, m: Meter, lim: ReportJsonLimits, depth: int, v: JsonValue, j: int) -> bool {
    &&& m.nodes + value_nodes(v) <= lim.max_total_nodes + 1
    &&& value_nodes(v) <= m.remaining + 1
    &&& within(v, lim, depth)
    &&& numbers_read(v)
    &&& depth > 0 || v is Object
    &&& value_at(s, m.pos as int, v, j)
    &&& ends_value(s, j)
}

/// Where whitespace skipped from `from` stops, the spaced value begins.
proof fn lemma_spaced_first(s: Seq<char>, from: int, p: int, v: JsonValue, j: int)
    requires
        spaced_value(s, from, v, j),
        from <= p <= s.len(),
        forall|k: int| from <= k < p ==> is_json_space(#[trigger] s[k]),
        p < s.len() ==> !is_json_space(s[p]),
    ensures
        p < s.len(),
        value_at(s, p, v, j),
{
    let a = choose|a: int| #![trigger value_at(s, a, v, j)] blank(s, from, a) && value_at(s, a, v, j);
    lemma_value_starts(s, a, v, j);
    if a < p {
        assert(is_json_space(s[a]));
    }
    if p < a {
        assert(is_json_space(s[p]));
    }
}

/// Whitespace skipped from `x` stops at the first non-space character `q`.
proof fn lemma_blank_stop(s: Seq<char>, x: int, q: int, p: int)
    requires
        blank(s, x, q),
        q < s.len(),
        !is_json_space(s[q]),
        x <= p <= s.len(),
        forall|k: int| x <= k < p ==> is_json_space(#[trigger] s[k]),
        p < s.len() ==> !is_json_space(s[p]),
    ensures
        p == q,
{
    if p < q {
        assert(is_json_space(s[p]));
    }
    if q < p {
        assert(is_json_space(s[q]));
    }
}

/// Whitespace and then a comma or a closing bracket: a value may end at `x`.
proof fn lemma_ends_before(s: Seq<char>, x: int, q: int)
    requires
        blank(s, x, q),
        q < s.len(),
        s[q] == ',' || s[q] == ']' || s[q] == '}',
    ensures
        ends_value(s, x),
{
    if x < q {
        assert(is_json_space(s[x]));
    }
}

/// Reads one value at `m.pos`, found below `depth` containers. The value node is
/// charged before anything is read; `full_array` says its array has no room left.
fn parse_value(
    s: &[char],
    m: &mut Meter,
    lim: &ReportJsonLimits,
    exec: &ExecutionBudget,
    depth: usize,
    full_array: bool,
    want: Ghost<JsonValue>,
    end: Ghost<int>,
) -> (r: Result<JsonValue, ReportJsonError>)
    requires
        old(m).pos <= s.len(),
        old(m).nodes <= lim.max_total_nodes,
        depth <= lim.max_depth,
        under_ceilings(*lim),
    ensures
        advanced(*old(m), *final(m), s@.len() as int, *lim),
        r matches Ok(v) ==> {
            &&& !full_array
            &&& final(m).pos > old(m).pos
            &&& final(m).nodes - old(m).nodes == value_nodes(v)
            &&& within(v, *lim, depth as int)
            &&& depth == 0 ==> v is Object
            &&& spaced_value(s@, old(m).pos as int, v, final(m).pos as int)
        },
        r matches Err(e) ==> reading_error(e),
        r == Err::<JsonValue, ReportJsonError>(ReportJsonError::RootNotMapping) ==> depth == 0
            && not_object_start(s@, old(m).pos as int),
        depth == 0 && !full_array && old(m).nodes < lim.max_total_nodes && old(m).remaining > 0
            && scalar_root_at(s@, old(m).pos as int) ==> (r == Err::<JsonValue, ReportJsonError>(ReportJsonError::RootNotMapping)
            || r matches Err(ReportJsonError::Stopped(_))),
        !full_array && owed_value(s@, *old(m), *lim, depth as int, want@, end@) ==> (r matches Err(ReportJsonError::Stopped(_))
            || (r matches Ok(w) && final(m).pos == end@ && value_nodes(w) == value_nodes(want@))),
    decreases lim.max_depth - depth, 1nat,
{
    match exec.checkpoint() {
        Err(stop) => return Err(ReportJsonError::Stopped(stop)),
        Ok(()) => {},
    }
    if full_array {
        return Err(ReportJsonError::TooManySequenceItems);
    }
    if m.nodes >= lim.max_total_nodes || m.remaining == 0 {
        return Err(ReportJsonError::TooManyNodes);
    }
    m.nodes = m.nodes + 1;
    m.remaining = m.remaining - 1;
    let ghost from = old(m).pos as int;
    let p = skip_ws(s, m.pos);
    m.pos = p;
    if p >= s.len() {
        return Err(ReportJsonError::InvalidJson);
    }
    let c = s[p];
    let ghost root = depth == 0 && scalar_root_at(s@, from);
    let ghost mut rv = JsonValue::Null;
    let ghost mut rj: int = 0;
    proof {
        if root {
            lemma_root_first(s@, from, p as int);
            let (v0, j0) = choose|v: JsonValue, j: int|
                #![trigger value_at(s@, p as int, v, j)]
                {
                    &&& value_at(s@, p as int, v, j)
                    &&& !(v is Object)
                    &&& (v matches JsonValue::Number(t) ==> serde_number_accepted(t@))
                    &&& (j < s@.len() ==> is_json_space(s@[j]))
                };
            rv = v0;
            rj = j0;
            lemma_value_starts(s@, p as int, rv, rj);
            if rv is Number {
                let t = rv->Number_0;
                let (x, y, z) = choose|x: int, y: int, z: int| number_parts(t@, x, y, z);
                assert(s@.subrange(p as int, rj) == t@);
                assert(number_parts(s@.subrange(p as int, rj), x, y, z));
                assert(number_ends_at(s@, p as int, rj));
            }
        }
    }
    let ghost owed = !full_array && owed_value(s@, *old(m), *lim, depth as int, want@, end@);
    proof {
        if owed {
            lemma_spaced_first(s@, from, p as int, want@, end@);
            lemma_value_starts(s@, p as int, want@, end@);
            if want@ is Number {
                let t = want@->Number_0;
                let (x, y, z) = choose|x: int, y: int, z: int| number_parts(t@, x, y, z);
                assert(s@.subrange(p as int, end@) == t@);
                assert(number_parts(s@.subrange(p as int, end@), x, y, z));
                assert(number_ends_at(s@, p as int, end@));
            }
            if want@ is Text {
                assert(utf8_width(want@->Text_0@) <= lim.max_scalar_bytes);
            }
            assert(m.pos == p);
        }
    }
    let r = if c == '{' {
        parse_object(s, m, lim, exec, depth, want, end)
    } else if c == '[' {
        parse_array(s, m, lim, exec, depth, want, end)
    } else if c == '"' {
        match parse_string(s, p) {
            None => Err(ReportJsonError::InvalidJson),
            Some((t, end, w)) => {
                m.pos = end;
                if depth == 0 {
                    Err(ReportJsonError::RootNotMapping)
                } else if w > lim.max_scalar_bytes {
                    Err(ReportJsonError::ScalarTooLarge)
                } else {
                    Ok(JsonValue::Text(t))
                }
            },
        }
    } else if c == 'n' || c == 't' || c == 'f' {
        let v = if c == 'n' && word_at(s, p, &['n', 'u', 'l', 'l']) {
            m.pos = p + 4;
            JsonValue::Null
        } else if c == 't' && word_at(s, p, &['t', 'r', 'u', 'e']) {
            m.pos = p + 4;
            JsonValue::Bool(true)
        } else if c == 'f' && word_at(s, p, &['f', 'a', 'l', 's', 'e']) {
            m.pos = p + 5;
            JsonValue::Bool(false)
        } else {
            return Err(ReportJsonError::InvalidJson);
        };
        if depth == 0 {
            Err(ReportJsonError::RootNotMapping)
        } else {
            Ok(v)
        }
    } else if c == '-' || ('0' <= c && c <= '9') {
        match lex_number(s, p) {
            None => Err(ReportJsonError::InvalidJson),
            Some(end) => {
                let text = collect_text(s, p, end);
                if !number_in_range(text.as_str()) {
                    return Err(ReportJsonError::InvalidJson);
                }
                m.pos = end;
                if depth == 0 {
                    Err(ReportJsonError::RootNotMapping)
                } else {
                    Ok(JsonValue::Number(text))
                }
            },
        }
    } else {
        Err(ReportJsonError::InvalidJson)
    };
    proof {
        if r is Ok {
            assert(blank(s@, from, p as int));
            assert(value_at(s@, p as int, r->Ok_0, m.pos as int));
        }
    }
    r
}

/// The next list item is owed to the reader: it starts at the reader's position, may
/// end where the chain says, keeps the budgets and fits the nodes left.
#[verifier::spinoff_prover]
#[verifier::rlimit(60)]
proof fn lemma_item_owed(
    s: Seq<char>,
    m: Meter,
    lim: ReportJsonLimits,
    depth: int,
    big: Seq<JsonValue>,
    ends: Seq<int>,
    end: int,
    n: int,
    total: int,
)
    requires
        ends.len() == big.len() + 1,
        forall|k: int| 0 <= k < big.len() ==> #[trigger] item_step(s, ends[k], k, big[k], ends[k + 1]),
        blank(s, ends[big.len() as int], end - 1),
        0 <= end - 1 < s.len(),
        s[end - 1] == ']',
        0 <= n < big.len(),
        depth >= 0,
        value_at(s, m.pos as int, big[n], ends[n + 1]),
        m.nodes + m.remaining == total,
        m.nodes + value_nodes(big[n]) + (items_nodes(big) - items_nodes(big.take(n + 1))) <= lim.max_total_nodes,
        value_nodes(big[n]) + (items_nodes(big) - items_nodes(big.take(n + 1))) <= m.remaining,
        items_within(big, lim, depth + 1),
        items_read(big),
    ensures
        owed_value(s, m, lim, depth + 1, big[n], ends[n + 1]),
{
    lemma_items_facts(big, lim, depth + 1);
    assert(within(big[n], lim, depth + 1));
    assert(numbers_read(big[n]));
    assert(items_nodes(big.take(n + 1)) <= items_nodes(big));
    assert(blank(s, m.pos as int, m.pos as int) && value_at(s, m.pos as int, big[n], ends[n + 1]));
    assert(spaced_value(s, m.pos as int, big[n], ends[n + 1]));
    if n + 1 < big.len() {
        let n1 = n + 1;
        assert(item_step(s, ends[n1], n1, big[n1], ends[n1 + 1]));
        reveal(item_step);
        let (q2, a2) = choose|q: int, a: int|
            #![trigger value_at(s, a, big[n1], ends[n1 + 1]), blank(s, ends[n1], q)]
            {
                &&& if n1 == 0 {
                    q == ends[n1] && blank(s, ends[n1], a)
                } else {
                    blank(s, ends[n1], q) && q < s.len() && s[q] == ',' && blank(s, q + 1, a)
                }
                &&& value_at(s, a, big[n1], ends[n1 + 1])
            };
        lemma_ends_before(s, ends[n1], q2);
    } else {
        lemma_ends_before(s, ends[n + 1], end - 1);
    }
}

/// Reads an array whose `[` is at `m.pos`; its own node is already charged.
#[verifier::spinoff_prover]
#[verifier::rlimit(80)]
fn parse_array(
    s: &[char],
    m: &mut Meter,
    lim: &ReportJsonLimits,
    exec: &ExecutionBudget,
    depth: usize,
    want: Ghost<JsonValue>,
    end: Ghost<int>,
) -> (r: Result<JsonValue, ReportJsonError>)
    requires
        old(m).pos < s.len(),
        s@[old(m).pos as int] == '[',
        old(m).nodes <= lim.max_total_nodes,
        depth <= lim.max_depth,
        under_ceilings(*lim),
    ensures
        advanced(*old(m), *final(m), s@.len() as int, *lim),
        r matches Ok(v) ==> {
            &&& v is Array
            &&& depth > 0
            &&& final(m).pos > old(m).pos
            &&& final(m).nodes - old(m).nodes + 1 == value_nodes(v)
            &&& within(v, *lim, depth as int)
            &&& value_at(s@, old(m).pos as int, v, final(m).pos as int)
        },
        r matches Err(e) ==> reading_error(e),
        depth == 0 <==> r == Err::<JsonValue, ReportJsonError>(ReportJsonError::RootNotMapping),
        owed_container(s@, *old(m), *lim, depth as int, want@, end@) ==> (r matches Err(ReportJsonError::Stopped(_))
            || (r matches Ok(w) && final(m).pos == end@ && value_nodes(w) == value_nodes(want@))),
    decreases lim.max_depth - depth, 0nat,
{
    if depth == 0 {
        return Err(ReportJsonError::RootNotMapping);
    }
    let ghost ok = owed_container(s@, *old(m), *lim, depth as int, want@, end@);
    let ghost big: Seq<JsonValue> = if want@ is Array { want@->Array_0@ } else { Seq::empty() };
    let ghost ends: Seq<int> = Seq::empty();
    proof {
        if ok {
            assert(want@ is Array);
            ends = lemma_items_chain(s@, old(m).pos + 1, big, end@ - 1);
            lemma_items_facts(big, *lim, depth + 1);
        }
    }
    if depth >= lim.max_depth {
        return Err(ReportJsonError::DepthExceeded);
    }
    let ghost start = *m;
    let ghost inner = start.pos + 1;
    m.pos = m.pos + 1;
    let mut items: Vec<JsonValue> = Vec::new();
    let mut first = true;
    loop
        invariant
            0 < depth < lim.max_depth,
            under_ceilings(*lim),
            start == *old(m),
            inner == start.pos + 1,
            s@[start.pos as int] == '[',
            start.pos < m.pos <= s.len(),
            advanced(start, *m, s@.len() as int, *lim),
            m.nodes - start.nodes == items_nodes(items@),
            items_within(items@, *lim, depth + 1),
            items.len() <= lim.max_sequence_items,
            items_at(s@, inner, items@, m.pos as int),
            first == (items@.len() == 0),
            ok == owed_container(s@, start, *lim, depth as int, want@, end@),
            ok ==> {
                &&& want@ is Array
                &&& big == want@->Array_0@
                &&& ends.len() == big.len() + 1
                &&& ends[0] == inner
                &&& forall|n: int| 0 <= n < big.len() ==> #[trigger] item_step(s@, ends[n], n, big[n], ends[n + 1])
                &&& blank(s@, ends[big.len() as int], end@ - 1)
                &&& s@[end@ - 1] == ']'
                &&& items@.len() <= big.len()
                &&& m.pos == ends[items@.len() as int]
                &&& items_nodes(items@) == items_nodes(big.take(items@.len() as int))
            },
        decreases s@.len() - m.pos,
    {
        let p = skip_ws(s, m.pos);
        proof {
            lemma_items_extend(s@, inner, items@, m.pos as int, p as int);
        }
        let ghost x = m.pos as int;
        let ghost n = items@.len() as int;
        m.pos = p;
        proof {
            if ok {
                lemma_items_facts(big, *lim, depth + 1);
                if n == big.len() {
                    lemma_blank_stop(s@, x, end@ - 1, p as int);
                } else {
                    assert(item_step(s@, ends[n], n, big[n], ends[n + 1]));
                    reveal(item_step);
                    let (q, a) = choose|q: int, a: int|
                        #![trigger value_at(s@, a, big[n], ends[n + 1]), blank(s@, ends[n], q)]
                        {
                            &&& if n == 0 {
                                q == ends[n] && blank(s@, ends[n], a)
                            } else {
                                blank(s@, ends[n], q) && q < s@.len() && s@[q] == ',' && blank(s@, q + 1, a)
                            }
                            &&& value_at(s@, a, big[n], ends[n + 1])
                        };
                    lemma_value_starts(s@, a, big[n], ends[n + 1]);
                    if n == 0 {
                        lemma_blank_stop(s@, x, a, p as int);
                    } else {
                        lemma_blank_stop(s@, x, q, p as int);
                    }
                }
            }
        }
        if p >= s.len() {
            return Err(ReportJsonError::InvalidJson);
        }
        if s[p] == ']' {
            m.pos = p + 1;
            let v = JsonValue::Array(items);
            assert(value_nodes(v) == 1 + items_nodes(items@));
            proof {
                if ok {
                    assert(big.take(big.len() as int) =~= big);
                }
            }
            return Ok(v);
        }
        let ghost k = if first { inner } else { p + 1 };
        if !first {
            if s[p] != ',' {
                return Err(ReportJsonError::InvalidJson);
            }
            let q = skip_ws(s, p + 1);
            m.pos = q;
            if q >= s.len() || s[q] == ']' {
                return Err(ReportJsonError::InvalidJson);
            }
        }
        let ghost at = m.pos as int;
        proof {
            assert(blank(s@, k, at));
        }
        first = false;
        let full = items.len() >= lim.max_sequence_items;
        let ghost before = items@;
        let ghost owed_next = ok && spaced_value(s@, at, big[n], ends[n + 1]);
        proof {
            if ok {
                assert(n < big.len());
                lemma_items_facts(big, *lim, depth + 1);
                reveal(item_step);
                let (q, a) = choose|q: int, a: int|
                    #![trigger value_at(s@, a, big[n], ends[n + 1]), blank(s@, ends[n], q)]
                    {
                        &&& if n == 0 {
                            q == ends[n] && blank(s@, ends[n], a)
                        } else {
                            blank(s@, ends[n], q) && q < s@.len() && s@[q] == ',' && blank(s@, q + 1, a)
                        }
                        &&& value_at(s@, a, big[n], ends[n + 1])
                    };
                lemma_value_starts(s@, a, big[n], ends[n + 1]);
                if n > 0 {
                    lemma_blank_stop(s@, q + 1, a, at);
                }
                assert(at == a);
                assert(items_nodes(items@) == items_nodes(big.take(n)));
                assert(value_nodes(want@) == 1 + items_nodes(big));
                lemma_item_owed(s@, *m, *lim, depth as int, big, ends, end@, n, start.nodes + start.remaining);
            }
        }
        let v = match parse_value(s, m, lim, exec, depth + 1, full, Ghost(big[n]), Ghost(ends[n + 1])) {
            Ok(v) => v,
            Err(e) => return Err(e),
        };
        let ghost b = m.pos as int;
        let ghost a = choose|a: int| #![trigger value_at(s@, a, v, b)] blank(s@, at, a) && value_at(s@, a, v, b);
        items.push(v);
        proof {
            assert(items@.drop_last() =~= before);
            lemma_blank_join(s@, k, at, a);
            assert(blank(s@, b, b));
            assert(blank(s@, k, a) && value_at(s@, a, items@.last(), b));
            if ok {
                lemma_items_facts(big, *lim, depth + 1);
                assert(items_nodes(items@) == items_nodes(before) + value_nodes(v));
            }
        }
    }
}

/// The parts of one member step.
proof fn lemma_entry_step_parts(s: Seq<char>, x: int, n: int, entry: (String, JsonValue), y: int) -> (r: (int, int, int, int, int))
    requires
        entry_step(s, x, n, entry, y),
    ensures
        if n == 0 {
            r.0 == x && blank(s, x, r.1)
        } else {
            blank(s, x, r.0) && r.0 < s.len() && s[r.0] == ',' && blank(s, r.0 + 1, r.1)
        },
        r.1 < s.len() && s[r.1] == '"',
        string_from(s, r.1 + 1) == Some((entry.0@, r.2)),
        blank(s, r.2, r.3),
        colon_at(s, r.3, r.4),
        value_at(s, r.4, entry.1, y),
{
    reveal(entry_step);
    let (q, a, b, c, d) = choose|q: int, a: int, b: int, c: int, d: int| #[trigger] entry_parts(s, x, n, entry, y, q, a, b, c, d);
    (q, a, b, c, d)
}

/// The member value after a colon is owed to the reader: it is spaced from the colon,
/// may end where the chain says, keeps the budgets and fits the nodes left.
#[verifier::spinoff_prover]
#[verifier::rlimit(60)]
proof fn lemma_member_owed(
    s: Seq<char>,
    m: Meter,
    lim: ReportJsonLimits,
    depth: int,
    big: Seq<(String, JsonValue)>,
    ends: Seq<int>,
    end: int,
    n: int,
    total: int,
    parts: (int, int, int, int, int),
)
    requires
        ends.len() == big.len() + 1,
        forall|k: int| 0 <= k < big.len() ==> #[trigger] entry_step(s, ends[k], k, big[k], ends[k + 1]),
        blank(s, ends[big.len() as int], end - 1),
        0 <= end - 1 < s.len(),
        s[end - 1] == '}',
        0 <= n < big.len(),
        depth >= 0,
        colon_at(s, parts.3, parts.4),
        value_at(s, parts.4, big[n].1, ends[n + 1]),
        m.pos == parts.3 + 1,
        m.nodes + m.remaining == total,
        m.nodes + value_nodes(big[n].1) + (entries_nodes(big) - entries_nodes(big.take(n + 1))) <= lim.max_total_nodes,
        value_nodes(big[n].1) + (entries_nodes(big) - entries_nodes(big.take(n + 1))) <= m.remaining,
        entries_within(big, lim, depth + 1),
        entries_read(big),
    ensures
        owed_value(s, m, lim, depth + 1, big[n].1, ends[n + 1]),
{
    lemma_entries_facts(big, lim, depth + 1);
    assert(within(big[n].1, lim, depth + 1));
    assert(numbers_read(big[n].1));
    assert(entries_nodes(big.take(n + 1)) <= entries_nodes(big));
    assert(blank(s, m.pos as int, parts.4) && value_at(s, parts.4, big[n].1, ends[n + 1]));
    assert(spaced_value(s, m.pos as int, big[n].1, ends[n + 1]));
    if n + 1 < big.len() {
        let n1 = n + 1;
        assert(entry_step(s, ends[n1], n1, big[n1], ends[n1 + 1]));
        let parts2 = lemma_entry_step_parts(s, ends[n1], n1, big[n1], ends[n1 + 1]);
        lemma_ends_before(s, ends[n1], parts2.0);
    } else {
        lemma_ends_before(s, ends[n + 1], end - 1);
    }
}

/// Reads an object whose `{` is at `m.pos`; its own node is already charged.
#[verifier::spinoff_prover]
#[verifier::rlimit(100)]
fn parse_object(
    s: &[char],
    m: &mut Meter,
    lim: &ReportJsonLimits,
    exec: &ExecutionBudget,
    depth: usize,
    want: Ghost<JsonValue>,
    end: Ghost<int>,
) -> (r: Result<JsonValue, ReportJsonError>)
    requires
        old(m).pos < s.len(),
        s@[old(m).pos as int] == '{',
        old(m).nodes <= lim.max_total_nodes,
        depth <= lim.max_depth,
        under_ceilings(*lim),
    ensures
        advanced(*old(m), *final(m), s@.len() as int, *lim),
        r matches Ok(v) ==> {
            &&& v is Object
            &&& final(m).pos > old(m).pos
            &&& final(m).nodes - old(m).nodes + 1 == value_nodes(v)
            &&& within(v, *lim, depth as int)
            &&& value_at(s@, old(m).pos as int, v, final(m).pos as int)
        },
        r matches Err(e) ==> reading_error(e),
        r != Err::<JsonValue, ReportJsonError>(ReportJsonError::RootNotMapping),
        owed_container(s@, *old(m), *lim, depth as int, want@, end@) ==> (r matches Err(ReportJsonError::Stopped(_))
            || (r matches Ok(w) && final(m).pos == end@ && value_nodes(w) == value_nodes(want@))),
    decreases lim.max_depth - depth, 0nat,
{
    let ghost ok = owed_container(s@, *old(m), *lim, depth as int, want@, end@);
    let ghost big: Seq<(String, JsonValue)> = if want@ is Object { want@->Object_0@ } else { Seq::empty() };
    let ghost ends: Seq<int> = Seq::empty();
    proof {
        if ok {
            lemma_value_starts(s@, old(m).pos as int, want@, end@);
            assert(want@ is Object);
            ends = lemma_entries_chain(s@, old(m).pos + 1, big, end@ - 1);
        }
    }
    if depth >= lim.max_depth {
        return Err(ReportJsonError::DepthExceeded);
    }
    let ghost start = *m;
    let ghost inner = start.pos + 1;
    m.pos = m.pos + 1;
    let mut entries: Vec<(String, JsonValue)> = Vec::new();
    let mut first = true;
    loop
        invariant
            depth < lim.max_depth,
            under_ceilings(*lim),
            start == *old(m),
            inner == start.pos + 1,
            s@[start.pos as int] == '{',
            start.pos < m.pos <= s.len(),
            advanced(start, *m, s@.len() as int, *lim),
            m.nodes - start.nodes == entries_nodes(entries@),
            entries_within(entries@, *lim, depth + 1),
            entries.len() <= lim.max_mapping_keys,
            entries_at(s@, inner, entries@, m.pos as int),
            first == (entries@.len() == 0),
            ok == owed_container(s@, start, *lim, depth as int, want@, end@),
            ok ==> {
                &&& want@ is Object
                &&& big == want@->Object_0@
                &&& ends.len() == big.len() + 1
                &&& ends[0] == inner
                &&& forall|n: int| 0 <= n < big.len() ==> #[trigger] entry_step(s@, ends[n], n, big[n], ends[n + 1])
                &&& blank(s@, ends[big.len() as int], end@ - 1)
                &&& s@[end@ - 1] == '}'
                &&& entries@.len() <= big.len()
                &&& m.pos == ends[entries@.len() as int]
                &&& entries_nodes(entries@) == entries_nodes(big.take(entries@.len() as int))
                &&& forall|i: int| 0 <= i < entries@.len() ==> (#[trigger] entries@[i]).0@ == big[i].0@
            },
        decreases s@.len() - m.pos,
    {
        let mut p = skip_ws(s, m.pos);
        proof {
            lemma_entries_extend(s@, inner, entries@, m.pos as int, p as int);
        }
        let ghost x = m.pos as int;
        let ghost n = entries@.len() as int;
        let ghost parts: (int, int, int, int, int) = (0, 0, 0, 0, 0);
        m.pos = p;
        proof {
            if ok {
                if n == big.len() {
                    lemma_blank_stop(s@, x, end@ - 1, p as int);
                } else {
                    assert(entry_step(s@, ends[n], n, big[n], ends[n + 1]));
                    parts = lemma_entry_step_parts(s@, ends[n], n, big[n], ends[n + 1]);
                    if n == 0 {
                        lemma_blank_stop(s@, x, parts.1, p as int);
                    } else {
                        lemma_blank_stop(s@, x, parts.0, p as int);
                    }
                }
            }
        }
        if p >= s.len() {
            return Err(ReportJsonError::InvalidJson);
        }
        if s[p] == '}' {
            m.pos = p + 1;
            let v = JsonValue::Object(entries);
            assert(value_nodes(v) == 1 + entries_nodes(entries@));
            proof {
                if ok {
                    assert(big.take(big.len() as int) =~= big);
                }
            }
            return Ok(v);
        }
        let ghost k = if first { inner } else { p + 1 };
        if first {
            if s[p] != '"' {
                return Err(ReportJsonError::InvalidJson);
            }
        } else {
            if s[p] != ',' {
                return Err(ReportJsonError::InvalidJson);
            }
            let q = skip_ws(s, p + 1);
            proof {
                if ok {
                    lemma_blank_stop(s@, p + 1, parts.1, q as int);
                }
            }
            m.pos = q;
            if q >= s.len() || s[q] != '"' {
                return Err(ReportJsonError::InvalidJson);
            }
            p = q;
        }
        let ghost a = p as int;
        proof {
            assert(blank(s@, k, a));
        }
        first = false;
        proof {
            if ok {
                lemma_entries_facts(big, *lim, depth + 1);
                assert(a == parts.1);
            }
        }
        if entries.len() >= lim.max_mapping_keys {
            return Err(ReportJsonError::TooManyMappingKeys);
        }
        let (key, key_end, width) = match parse_string(s, p) {
            Some(x) => x,
            None => return Err(ReportJsonError::InvalidJson),
        };
        m.pos = key_end;
        if width > lim.max_scalar_bytes {
            return Err(ReportJsonError::ScalarTooLarge);
        }
        proof {
            if ok {
                assert(key@ == big[n].0@);
                assert forall|i: int| 0 <= i < entries@.len() implies (#[trigger] entries@[i]).0@ != key@ by {
                    assert(entries@[i].0@ == big[i].0@);
                    assert(big[i].0@ != big[n].0@);
                }
            }
        }
        if contains_key(&entries, &key) {
            return Err(ReportJsonError::DuplicateKey);
        }
        let colon = skip_ws(s, key_end);
        proof {
            if ok {
                lemma_blank_stop(s@, key_end as int, parts.3, colon as int);
            }
        }
        m.pos = colon;
        if colon >= s.len() || s[colon] != ':' {
            return Err(ReportJsonError::InvalidJson);
        }
        m.pos = colon + 1;
        let ghost before = entries@;
        proof {
            if ok {
                assert(entries_nodes(entries@) == entries_nodes(big.take(n)));
                assert(value_nodes(want@) == 1 + entries_nodes(big));
                lemma_member_owed(s@, *m, *lim, depth as int, big, ends, end@, n, start.nodes + start.remaining, parts);
            }
        }
        let v = match parse_value(s, m, lim, exec, depth + 1, false, Ghost(big[n].1), Ghost(ends[n + 1])) {
            Ok(v) => v,
            Err(e) => return Err(e),
        };
        let ghost e = m.pos as int;
        let ghost d = choose|d: int| #![trigger value_at(s@, d, v, e)] blank(s@, colon + 1, d) && value_at(s@, d, v, e);
        let ghost key_view = key@;
        entries.push((key, v));
        proof {
            assert(entries@.drop_last() =~= before);
            assert forall|i: int| 0 <= i < entries@.len() - 1 implies (#[trigger] entries@[i]).0@ != entries@.last().0@ by {
                assert(entries@[i] == before[i]);
                if before[i].0@ == key_view {
                    assert(has_key(before, key_view));
                }
            }
            lemma_entries_push(s@, inner, before, k, a, entries@.last().0, key_end as int, colon as int, d, entries@.last().1, e);
            assert(before.push(entries@.last()) =~= entries@);
            if ok {
                lemma_entries_facts(big, *lim, depth + 1);
                assert(entries_nodes(entries@) == entries_nodes(before) + value_nodes(v));
                assert forall|i: int| 0 <= i < entries@.len() implies (#[trigger] entries@[i]).0@ == big[i].0@ by {
                    if i < before.len() {
                        assert(entries@[i] == before[i]);
                    }
                }
            }
        }
    }
}

/// The text is one JSON document whose root is an object that keeps the budgets of
/// `lim`, whose numbers serde_json reads, and whose value nodes number at most the
/// node budget and `remaining`.
pub open spec fn readable_document(text: Seq<char>, lim: ReportJsonLimits, remaining: int) -> bool {
    exists|v: JsonValue| #[trigger] json_document(text, v) && v is Object && within(v, lim, 0) && numbers_read(v)
        && value_nodes(v) <= lim.max_total_nodes && value_nodes(v) <= remaining
}

/// The text is one JSON document whose root is not an object; a number there is one
/// serde_json reads.
pub open spec fn scalar_document(text: Seq<char>) -> bool {
    exists|v: JsonValue| #[trigger] json_document(text, v) && !(v is Object)
        && (v matches JsonValue::Number(t) ==> serde_number_accepted(t@))
}

proof fn lemma_scalar_document(text: Seq<char>)
    requires
        scalar_document(text),
    ensures
        scalar_root_at(text, 0),
{
    let v = choose|v: JsonValue| #[trigger] json_document(text, v) && !(v is Object)
        && (v matches JsonValue::Number(t) ==> serde_number_accepted(t@));
    let (a, b) = choose|a: int, b: int| #![trigger value_at(text, a, v, b)]
        blank(text, 0, a) && value_at(text, a, v, b) && blank(text, b, text.len() as int);
    if b < text.len() {
        assert(is_json_space(text[b]));
    }
    assert(blank(text, 0, a) && value_at(text, a, v, b));
}

/// Reads one JSON object from `bytes` under `limits` (each capped at its ceiling),
/// drawing every attempted value node from `remaining_nodes` (also on failure) and
/// stopping where `execution` says so.
pub fn parse_report_json_with_budget(
    bytes: &[u8],
    limits: &ReportJsonLimits,
    remaining_nodes: &mut usize,
    execution: &ExecutionBudget,
) -> (r: Result<JsonValue, ReportJsonError>)
    ensures
        *final(remaining_nodes) <= *old(remaining_nodes),
        r matches Err(ReportJsonError::Stopped(_)) || (precheck(bytes@, clamped(*limits)) matches Some(e) ==> r == Err::<JsonValue, ReportJsonError>(e)),
        precheck(bytes@, clamped(*limits)) is Some ==> *final(remaining_nodes) == *old(remaining_nodes),
        precheck(bytes@, clamped(*limits)) is None ==> (r matches Err(e) ==> reading_error(e)),
        r matches Ok(v) ==> {
            &&& precheck(bytes@, clamped(*limits)) is None
            &&& v is Object
            &&& within(v, clamped(*limits), 0)
            &&& *old(remaining_nodes) - *final(remaining_nodes) == value_nodes(v)
            &&& value_nodes(v) <= clamped(*limits).max_total_nodes
            &&& json_document(decode_utf8(bytes@), v)
        },
        r == Err::<JsonValue, ReportJsonError>(ReportJsonError::RootNotMapping) ==> not_object_start(decode_utf8(bytes@), 0),
        precheck(bytes@, clamped(*limits)) is None && clamped(*limits).max_total_nodes > 0 && *old(remaining_nodes) > 0
            && scalar_document(decode_utf8(bytes@))
            ==> (r == Err::<JsonValue, ReportJsonError>(ReportJsonError::RootNotMapping) || r matches Err(ReportJsonError::Stopped(_))),
        precheck(bytes@, clamped(*limits)) is None && readable_document(decode_utf8(bytes@), clamped(*limits), *old(remaining_nodes) as int)
            ==> (r is Ok || r matches Err(ReportJsonError::Stopped(_))),
{
    match execution.checkpoint() {
        Err(stop) => return Err(ReportJsonError::Stopped(stop)),
        Ok(()) => {},
    }
    let lim = limits.clamp();
    if bytes.len() > lim.max_file_bytes {
        return Err(ReportJsonError::DocumentTooLarge);
    }
    if bytes.len() >= 3 && bytes[0] == 0xef && bytes[1] == 0xbb && bytes[2] == 0xbf {
        return Err(ReportJsonError::BomForbidden);
    }
    let text = match decode_text(bytes) {
        Some(t) => t,
        None => return Err(ReportJsonError::InvalidUtf8),
    };
    let chars = str_chars(text);
    let s = chars.as_slice();
    proof {
        vstd::utf8::encode_utf8_decode_utf8(text@);
        assert(s@ == decode_utf8(bytes@));
        if scalar_document(s@) {
            lemma_scalar_document(s@);
        }
    }
    let mut m = Meter { pos: 0, nodes: 0, remaining: *remaining_nodes };
    let ghost readable = readable_document(s@, lim, m.remaining as int);
    let ghost want = JsonValue::Null;
    let ghost close: int = 0;
    proof {
        if readable {
            want = choose|v: JsonValue| #[trigger] json_document(s@, v) && v is Object && within(v, lim, 0) && numbers_read(v)
                && value_nodes(v) <= lim.max_total_nodes && value_nodes(v) <= m.remaining;
            let (a, b) = choose|a: int, b: int| #![trigger value_at(s@, a, want, b)]
                blank(s@, 0, a) && value_at(s@, a, want, b) && blank(s@, b, s@.len() as int);
            close = b;
            assert(spaced_value(s@, 0, want, b));
            if b < s@.len() {
                assert(is_json_space(s@[b]));
            }
            assert(owed_value(s@, m, lim, 0, want, close));
        }
    }
    let r = parse_value(s, &mut m, &lim, execution, 0, false, Ghost(want), Ghost(close));
    *remaining_nodes = m.remaining;
    let v = match r {
        Ok(v) => v,
        Err(e) => return Err(e),
    };
    let end = skip_ws(s, m.pos);
    proof {
        if readable && end < s.len() {
            let (a, b) = choose|a: int, b: int| #![trigger value_at(s@, a, want, b)]
                blank(s@, 0, a) && value_at(s@, a, want, b) && blank(s@, b, s@.len() as int);
            assert(is_json_space(s@[end as int]));
        }
    }
    if end < s.len() {
        return Err(ReportJsonError::InvalidJson);
    }
    proof {
        let a = choose|a: int| #![trigger value_at(s@, a, v, m.pos as int)] blank(s@, 0, a) && value_at(s@, a, v, m.pos as int);
        assert(blank(s@, m.pos as int, s@.len() as int));
        vstd::utf8::encode_utf8_decode_utf8(text@);
        assert(s@ == decode_utf8(bytes@));
        assert(blank(s@, 0, a) && value_at(s@, a, v, m.pos as int) && blank(s@, m.pos as int, s@.len() as int));
    }
    match execution.checkpoint() {
        Err(stop) => return Err(ReportJsonError::Stopped(stop)),
        Ok(()) => {},
    }
    Ok(v)
}

/// `parse_report_json_with_budget` under a default execution budget.
pub fn parse_report_json_metered(
    bytes: &[u8],
    limits: &ReportJsonLimits,
    remaining_nodes: &mut usize,
) -> (r: Result<JsonValue, ReportJsonError>)
    ensures
        *final(remaining_nodes) <= *old(remaining_nodes),
        r matches Err(ReportJsonError::Stopped(_)) || (precheck(bytes@, clamped(*limits)) matches Some(e) ==> r == Err::<JsonValue, ReportJsonError>(e)),
        precheck(bytes@, clamped(*limits)) is Some ==> *final(remaining_nodes) == *old(remaining_nodes),
        precheck(bytes@, clamped(*limits)) is None ==> (r matches Err(e) ==> reading_error(e)),
        r matches Ok(v) ==> {
            &&& precheck(bytes@, clamped(*limits)) is None
            &&& v is Object
            &&& within(v, clamped(*limits), 0)
            &&& *old(remaining_nodes) - *final(remaining_nodes) == value_nodes(v)
            &&& json_document(decode_utf8(bytes@), v)
        },
        r == Err::<JsonValue, ReportJsonError>(ReportJsonError::RootNotMapping) ==> not_object_start(decode_utf8(bytes@), 0),
        precheck(bytes@, clamped(*limits)) is None && clamped(*limits).max_total_nodes > 0 && *old(remaining_nodes) > 0
            && scalar_document(decode_utf8(bytes@))
            ==> (r == Err::<JsonValue, ReportJsonError>(ReportJsonError::RootNotMapping) || r matches Err(ReportJsonError::Stopped(_))),
        precheck(bytes@, clamped(*limits)) is None && readable_document(decode_utf8(bytes@), clamped(*limits), *old(remaining_nodes) as int)
            ==> (r is Ok || r matches Err(ReportJsonError::Stopped(_))),
{
    parse_report_json_with_budget(bytes, limits, remaining_nodes, &ExecutionBudget::default())
}

/// Reads one UTF-8 JSON object under `limits`, without schema dispatch or binding.
pub fn parse_report_json(bytes: &[u8], limits: &ReportJsonLimits) -> (r: Result<JsonValue, ReportJsonError>)
    ensures
        r matches Err(ReportJsonError::Stopped(_)) || (precheck(bytes@, clamped(*limits)) matches Some(e) ==> r == Err::<JsonValue, ReportJsonError>(e)),
        precheck(bytes@, clamped(*limits)) is None ==> (r matches Err(e) ==> reading_error(e)),
        r matches Ok(v) ==> {
            &&& precheck(bytes@, clamped(*limits)) is None
            &&& v is Object
            &&& within(v, clamped(*limits), 0)
            &&& value_nodes(v) <= clamped(*limits).max_total_nodes
            &&& json_document(decode_utf8(bytes@), v)
        },
        r == Err::<JsonValue, ReportJsonError>(ReportJsonError::RootNotMapping) ==> not_object_start(decode_utf8(bytes@), 0),
        precheck(bytes@, clamped(*limits)) is None && clamped(*limits).max_total_nodes > 0 && scalar_document(decode_utf8(bytes@))
            ==> (r == Err::<JsonValue, ReportJsonError>(ReportJsonError::RootNotMapping) || r matches Err(ReportJsonError::Stopped(_))),
        precheck(bytes@, clamped(*limits)) is None && readable_document(decode_utf8(bytes@), clamped(*limits), usize::MAX as int)
            ==> (r is Ok || r matches Err(ReportJsonError::Stopped(_))),
{
    let mut remaining = usize::MAX;
    parse_report_json_with_budget(bytes, limits, &mut remaining, &ExecutionBudget::default())
}


/// The finding code and family reported for a refused report document.
pub open spec fn report_json_diagnostic(e: ReportJsonError) -> (Seq<char>, Seq<char>) {
    match e {
        ReportJsonError::Stopped(stop) => (crate::execution::stop_code(stop), crate::execution::stop_family(stop)),
        ReportJsonError::DocumentTooLarge => ("RP_E_RESOURCE_REPORT_SIZE_EXCEEDED"@, "resource_limit"@),
        ReportJsonError::DepthExceeded => ("RP_E_RESOURCE_NESTING_DEPTH_EXCEEDED"@, "resource_limit"@),
        ReportJsonError::ScalarTooLarge => ("RP_E_RESOURCE_SCALAR_LENGTH_EXCEEDED"@, "resource_limit"@),
        ReportJsonError::TooManyMappingKeys => ("RP_E_RESOURCE_MAPPING_KEYS_EXCEEDED"@, "resource_limit"@),
        ReportJsonError::TooManySequenceItems => ("RP_E_RESOURCE_SEQUENCE_ITEMS_EXCEEDED"@, "resource_limit"@),
        ReportJsonError::TooManyNodes => ("RP_E_RESOURCE_REPORT_NODES_EXCEEDED"@, "resource_limit"@),
        _ => ("RP_E_REPORT_JSON_INVALID"@, "claim_chain_validation_report"@),
    }
}

/// The finding code and family reported for a refused report document: budgets are
/// resource limits, everything the document got wrong is one invalid-report code.
pub fn report_json_code(error: ReportJsonError) -> (r: (&'static str, &'static str))
    ensures
        (r.0@, r.1@) == report_json_diagnostic(error),
{
    proof {
        reveal_strlit("RP_E_REPORT_JSON_INVALID");
        reveal_strlit("RP_E_RESOURCE_MAPPING_KEYS_EXCEEDED");
        reveal_strlit("RP_E_RESOURCE_NESTING_DEPTH_EXCEEDED");
        reveal_strlit("RP_E_RESOURCE_REPORT_NODES_EXCEEDED");
        reveal_strlit("RP_E_RESOURCE_REPORT_SIZE_EXCEEDED");
        reveal_strlit("RP_E_RESOURCE_SCALAR_LENGTH_EXCEEDED");
        reveal_strlit("RP_E_RESOURCE_SEQUENCE_ITEMS_EXCEEDED");
        reveal_strlit("claim_chain_validation_report");
        reveal_strlit("resource_limit");
    }
    match error {
        ReportJsonError::Stopped(stop) => {
            let f = stop.finding();
            (f.error_code, f.finding_family)
        },
        ReportJsonError::DocumentTooLarge => ("RP_E_RESOURCE_REPORT_SIZE_EXCEEDED", "resource_limit"),
        ReportJsonError::DepthExceeded => ("RP_E_RESOURCE_NESTING_DEPTH_EXCEEDED", "resource_limit"),
        ReportJsonError::ScalarTooLarge => ("RP_E_RESOURCE_SCALAR_LENGTH_EXCEEDED", "resource_limit"),
        ReportJsonError::TooManyMappingKeys => ("RP_E_RESOURCE_MAPPING_KEYS_EXCEEDED", "resource_limit"),
        ReportJsonError::TooManySequenceItems => ("RP_E_RESOURCE_SEQUENCE_ITEMS_EXCEEDED", "resource_limit"),
        ReportJsonError::TooManyNodes => ("RP_E_RESOURCE_REPORT_NODES_EXCEEDED", "resource_limit"),
        _ => ("RP_E_REPORT_JSON_INVALID", "claim_chain_validation_report"),
    }
}

} // verus!
