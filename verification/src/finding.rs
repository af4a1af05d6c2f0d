//! Command statuses, diagnostics and project-relative paths.
use vstd::prelude::*;

use crate::text::{str_chars, string_push};
use vstd::string::StringSliceAdditionalSpecFns;

verus! {

/// Outcome of a command.
#[derive(Clone, Debug, PartialEq, Eq, Structural)]
pub enum Status {
    Success,
    Invalid,
    Denied,
    NotFound,
    Conflict,
    UsageError,
    IoError,
    InternalError,
    Interrupted,
}

/// The frozen process exit code of each status.
pub open spec fn status_exit_code(status: Status) -> u8 {
    match status {
        Status::Success => 0,
        Status::Invalid | Status::Denied | Status::NotFound | Status::Conflict => 1,
        Status::UsageError => 2,
        Status::IoError => 3,
        Status::InternalError => 4,
        Status::Interrupted => 130,
    }
}

impl Status {
    pub fn exit_code(&self) -> (code: u8)
        ensures
            code == status_exit_code(*self),
    {
        match self {
            Status::Success => 0,
            Status::Invalid | Status::Denied | Status::NotFound | Status::Conflict => 1,
            Status::UsageError => 2,
            Status::IoError => 3,
            Status::InternalError => 4,
            Status::Interrupted => 130,
        }
    }

    /// The wire spelling of the status.
    pub fn as_str(&self) -> (s: &'static str)
        ensures
            s@ == status_name(*self),
    {
        proof {
            reveal_strlit("ok");
            reveal_strlit("invalid");
            reveal_strlit("denied");
            reveal_strlit("not-found");
            reveal_strlit("conflict");
            reveal_strlit("usage-error");
            reveal_strlit("io-error");
            reveal_strlit("internal-error");
            reveal_strlit("interrupted");
        }
        match self {
            Status::Success => "ok",
            Status::Invalid => "invalid",
            Status::Denied => "denied",
            Status::NotFound => "not-found",
            Status::Conflict => "conflict",
            Status::UsageError => "usage-error",
            Status::IoError => "io-error",
            Status::InternalError => "internal-error",
            Status::Interrupted => "interrupted",
        }
    }
}

pub open spec fn status_name(status: Status) -> Seq<char> {
    match status {
        Status::Success => "ok"@,
        Status::Invalid => "invalid"@,
        Status::Denied => "denied"@,
        Status::NotFound => "not-found"@,
        Status::Conflict => "conflict"@,
        Status::UsageError => "usage-error"@,
        Status::IoError => "io-error"@,
        Status::InternalError => "internal-error"@,
        Status::Interrupted => "interrupted"@,
    }
}

/// Diagnostic severity; errors sort first.
#[derive(Clone, Copy, Debug, PartialEq, Eq, Structural, PartialOrd, Ord)]
pub enum Severity {
    Error,
    Warning,
    Info,
}

/// Position of a severity in the presentation order.
pub open spec fn severity_rank(s: Severity) -> int {
    match s {
        Severity::Error => 0,
        Severity::Warning => 1,
        Severity::Info => 2,
    }
}

impl Severity {
    pub fn rank(self) -> (r: u8)
        ensures
            r == severity_rank(self),
    {
        match self {
            Severity::Error => 0,
            Severity::Warning => 1,
            Severity::Info => 2,
        }
    }

    pub fn is_error(self) -> (r: bool)
        ensures
            r == (self == Severity::Error),
    {
        match self {
            Severity::Error => true,
            _ => false,
        }
    }
}

/// A normalized, project-relative path.
#[derive(Clone, Debug, PartialEq, Eq, PartialOrd, Ord, Hash)]
pub struct ProjectPath(String);

impl View for ProjectPath {
    type V = Seq<char>;

    closed spec fn view(&self) -> Seq<char> {
        self.0@
    }
}

/// Rejection of a path that is not normalized and project-relative.
#[derive(Clone, Copy, Debug, PartialEq, Eq, Structural)]
pub struct ProjectPathError;

impl ProjectPathError {
    pub fn message(&self) -> (s: &'static str)
        ensures
            s@ == "path must be normalized and project-relative"@,
    {
        "path must be normalized and project-relative"
    }
}

pub open spec fn hex_digit(b: u8) -> Option<u8> {
    if 0x30 <= b <= 0x39 {
        Some((b - 0x30) as u8)
    } else if 0x61 <= b <= 0x66 {
        Some((b - 0x61 + 10) as u8)
    } else if 0x41 <= b <= 0x46 {
        Some((b - 0x41 + 10) as u8)
    } else {
        None
    }
}

/// Whether a percent escape starts at the front of `b`.
pub open spec fn escape_at_front(b: Seq<u8>) -> bool {
    b.len() >= 3 && b[0] == 0x25 && hex_digit(b[1]) is Some && hex_digit(b[2]) is Some
}

pub open spec fn escape_value(b: Seq<u8>) -> u8 {
    (hex_digit(b[1]).unwrap() * 16 + hex_digit(b[2]).unwrap()) as u8
}

/// One left-to-right pass of percent decoding; malformed escapes stay literal.
pub open spec fn percent_decode(b: Seq<u8>) -> Seq<u8>
    decreases b.len(),
{
    if b.len() == 0 {
        Seq::empty()
    } else if escape_at_front(b) {
        seq![escape_value(b)] + percent_decode(b.skip(3))
    } else {
        seq![b[0]] + percent_decode(b.skip(1))
    }
}

/// Whether decoding turns an escape into a path separator.
pub open spec fn decode_introduces_separator(b: Seq<u8>) -> bool
    decreases b.len(),
{
    if b.len() == 0 {
        false
    } else if escape_at_front(b) {
        escape_value(b) == 0x2f || escape_value(b) == 0x5c || decode_introduces_separator(
            b.skip(3),
        )
    } else {
        decode_introduces_separator(b.skip(1))
    }
}

/// A `/`-delimited segment of `n` dots starting at `s`.
pub open spec fn dot_segment_at(d: Seq<u8>, s: int, n: int) -> bool {
    &&& 0 <= s
    &&& s + n <= d.len()
    &&& (s == 0 || d[s - 1] == 0x2f)
    &&& (s + n == d.len() || d[s + n] == 0x2f)
    &&& forall|k: int| s <= k < s + n ==> d[k] == 0x2e
}

/// Some segment is `..`, or (when `single`) `.`.
pub open spec fn has_dot_segment(d: Seq<u8>, single: bool) -> bool {
    exists|s: int, n: int| (n == 2 || (single && n == 1)) && #[trigger] dot_segment_at(d, s, n)
}

pub open spec fn escape_window_at(d: Seq<u8>, i: int) -> bool {
    0 <= i && i + 3 <= d.len() && d[i] == 0x25 && hex_digit(d[i + 1]) is Some && hex_digit(
        d[i + 2],
    ) is Some
}

/// Decoding reveals a separator, backslash, root, dot segment or a second escape.
pub open spec fn percent_decodes_to_unsafe(b: Seq<u8>) -> bool {
    let d = percent_decode(b);
    ||| decode_introduces_separator(b)
    ||| d.contains(0x5c)
    ||| (d.len() > 0 && d[0] == 0x2f)
    ||| has_dot_segment(d, true)
    ||| exists|i: int| #[trigger] escape_window_at(d, i)
}

/// `std::path::Path::components` yields a non-normal component (root, leading `.`,
/// or `..`).
pub open spec fn has_special_component(b: Seq<u8>) -> bool {
    ||| (b.len() > 0 && b[0] == 0x2f)
    ||| dot_segment_at(b, 0, 1)
    ||| has_dot_segment(b, false)
}

pub open spec fn is_ascii_alpha(b: u8) -> bool {
    (0x41 <= b <= 0x5a) || (0x61 <= b <= 0x7a)
}

/// The paths that `ProjectPath::new` accepts, over their UTF-8 bytes.
pub open spec fn project_path_accepted(b: Seq<u8>) -> bool {
    &&& b.len() > 0
    &&& !b.contains(0u8)
    &&& !b.contains(0x5c)
    &&& !(b.len() >= 2 && b[1] == 0x3a && is_ascii_alpha(b[0]))
    &&& !has_special_component(b)
    &&& !percent_decodes_to_unsafe(b)
}

pub fn hex_value(byte: u8) -> (r: Option<u8>)
    ensures
        r == hex_digit(byte),
        r matches Some(v) ==> v < 16,
{
    if 0x30 <= byte && byte <= 0x39 {
        Some(byte - 0x30)
    } else if 0x61 <= byte && byte <= 0x66 {
        Some(byte - 0x61 + 10)
    } else if 0x41 <= byte && byte <= 0x46 {
        Some(byte - 0x41 + 10)
    } else {
        None
    }
}

fn contains_byte(b: &[u8], x: u8) -> (r: bool)
    ensures
        r == b@.contains(x),
{
    let mut i: usize = 0;
    while i < b.len()
        invariant
            i <= b@.len(),
            forall|k: int| 0 <= k < i ==> b@[k] != x,
        decreases b.len() - i,
    {
        if b[i] == x {
            return true;
        }
        i = i + 1;
    }
    false
}

/// Scans the `/`-delimited segments for `..` (and `.` when `single`).
fn find_dot_segment(d: &[u8], single: bool) -> (r: bool)
    ensures
        r == has_dot_segment(d@, single),
{
    let mut start: usize = 0;
    let mut i: usize = 0;
    while i <= d.len()
        invariant
            start <= i <= d@.len(),
            start <= d@.len(),
            start == 0 || d@[start - 1] == 0x2f,
            forall|k: int| start <= k < i && k < d@.len() ==> d@[k] != 0x2f,
            forall|s: int, n: int|
                (n == 2 || (single && n == 1)) && s < start ==> !#[trigger] dot_segment_at(
                    d@,
                    s,
                    n,
                ),
        decreases d.len() + 1 - i,
    {
        if i == d.len() || d[i] == 0x2f {
            let len = i - start;
            let dots = (len == 2 && d[start] == 0x2e && d[start + 1] == 0x2e) || (single && len
                == 1 && d[start] == 0x2e);
            if dots {
                assert(dot_segment_at(d@, start as int, len as int));
                return true;
            }
            proof {
                assert forall|s: int, n: int|
                    (n == 2 || (single && n == 1)) && s < i + 1 implies !#[trigger] dot_segment_at(
                    d@,
                    s,
                    n,
                ) by {
                    if s >= start && dot_segment_at(d@, s, n) {
                        if s > start {
                            assert(d@[s - 1] == 0x2f);
                        } else {
                            if s + n < i {
                                assert(d@[s + n] == 0x2f);
                            } else if s + n > i {
                                assert(d@[i as int] == 0x2e);
                            }
                            assert(d@[s] == 0x2e);
                            if n == 2 {
                                assert(d@[s + 1] == 0x2e);
                            }
                        }
                    }
                }
            }
            if i == d.len() {
                return false;
            }
            start = i + 1;
        }
        i = i + 1;
    }
    false
}

fn find_escape_window(d: &[u8]) -> (r: bool)
    ensures
        r == exists|i: int| #[trigger] escape_window_at(d@, i),
{
    let mut i: usize = 0;
    while i < d.len() && d.len() - i >= 3
        invariant
            forall|k: int| 0 <= k < i ==> !#[trigger] escape_window_at(d@, k),
        decreases d.len() - i,
    {
        if d[i] == 0x25 && hex_value(d[i + 1]).is_some() && hex_value(d[i + 2]).is_some() {
            assert(escape_window_at(d@, i as int));
            return true;
        }
        i = i + 1;
    }
    false
}

proof fn lemma_escape_byte(h: u8, l: u8)
    requires
        h < 16,
        l < 16,
    ensures
        (h << 4u8) | l == h * 16 + l,
{
    assert((h << 4u8) | l == h * 16 + l) by (bit_vector)
        requires
            h < 16,
            l < 16,
    ;
}

/// Decodes once and reports whether an escape produced `/` or `\`.
fn decode_once(b: &[u8]) -> (r: (Vec<u8>, bool))
    ensures
        r.0@ == percent_decode(b@),
        r.1 == decode_introduces_separator(b@),
{
    let mut decoded: Vec<u8> = Vec::new();
    let mut introduced = false;
    let mut index: usize = 0;
    assert(b@.skip(0) =~= b@);
    while index < b.len()
        invariant
            index <= b@.len(),
            decoded@ + percent_decode(b@.skip(index as int)) == percent_decode(b@),
            (introduced || decode_introduces_separator(b@.skip(index as int)))
                == decode_introduces_separator(b@),
        decreases b.len() - index,
    {
        let rest = Ghost(b@.skip(index as int));
        if b[index] == 0x25 && b.len() - index > 2 {
            let high = hex_value(b[index + 1]);
            let low = hex_value(b[index + 2]);
            if high.is_some() && low.is_some() {
                let h = high.unwrap();
                let l = low.unwrap();
                proof {
                    lemma_escape_byte(h, l);
                }
                let value = (h << 4u8) | l;
                assert(escape_at_front(rest@));
                assert(rest@.skip(3) =~= b@.skip(index + 3));
                introduced = introduced || value == 0x2f || value == 0x5c;
                decoded.push(value);
                index = index + 3;
                assert(decoded@ + percent_decode(b@.skip(index as int)) =~= percent_decode(
                    b@,
                )) by {
                    assert(decoded@ =~= decoded@.drop_last().push(value));
                }
                continue;
            }
        }
        assert(!escape_at_front(rest@));
        assert(rest@.skip(1) =~= b@.skip(index + 1));
        decoded.push(b[index]);
        index = index + 1;
    }
    assert(b@.skip(index as int) =~= Seq::<u8>::empty());
    assert(decoded@ + Seq::<u8>::empty() =~= decoded@);
    (decoded, introduced)
}

/// Whether percent decoding could smuggle a separator, root or traversal.
pub fn percent_decodes_to_unsafe_path(path: &str) -> (r: bool)
    ensures
        r == percent_decodes_to_unsafe(path.spec_bytes()),
{
    let bytes = path.as_bytes();
    let (decoded, introduced) = decode_once(bytes);
    let d = decoded.as_slice();
    introduced || contains_byte(d, 0x5c) || (d.len() > 0 && d[0] == 0x2f) || find_dot_segment(
        d,
        true,
    ) || find_escape_window(d)
}

impl ProjectPath {
    pub fn new(path: &str) -> (r: Result<Self, ProjectPathError>)
        ensures
            r is Ok <==> project_path_accepted(path.spec_bytes()),
            r matches Ok(p) ==> p@ == path@,
    {
        let b = path.as_bytes();
        let is_windows_drive = b.len() >= 2 && b[1] == 0x3a && ((0x41 <= b[0] && b[0] <= 0x5a)
            || (0x61 <= b[0] && b[0] <= 0x7a));
        if b.len() == 0 || contains_byte(b, 0) || contains_byte(b, 0x5c) || is_windows_drive {
            return Err(ProjectPathError);
        }
        let leading_dot = (b.len() == 1 && b[0] == 0x2e) || (b.len() >= 2 && b[0] == 0x2e && b[1]
            == 0x2f);
        assert(leading_dot == dot_segment_at(b@, 0, 1));
        if b[0] == 0x2f || leading_dot || find_dot_segment(b, false)
            || percent_decodes_to_unsafe_path(path) {
            return Err(ProjectPathError);
        }
        Ok(ProjectPath(path.to_owned()))
    }

    pub fn as_str(&self) -> (s: &str)
        ensures
            s@ == self@,
    {
        self.0.as_str()
    }

    /// An identical copy.
    pub fn clone_path(&self) -> (p: ProjectPath)
        ensures
            p == *self,
    {
        ProjectPath(self.0.clone())
    }
}

/// The bidirectional formatting characters that the terminal filter replaces.
pub open spec fn is_bidi_control(c: char) -> bool {
    let u = c as u32;
    u == 0x061c || u == 0x200e || u == 0x200f || (0x202a <= u <= 0x202e) || (0x2066 <= u
        <= 0x2069)
}

/// `char::is_control`: the Unicode `Cc` category.
pub open spec fn is_control_char(c: char) -> bool {
    let u = c as u32;
    u <= 0x1f || (0x7f <= u <= 0x9f)
}

pub open spec fn sanitize_char(c: char) -> char {
    if is_control_char(c) || is_bidi_control(c) {
        '\u{fffd}'
    } else {
        c
    }
}

/// Every control or bidirectional character replaced by U+FFFD.
pub open spec fn sanitized(s: Seq<char>) -> Seq<char> {
    Seq::new(s.len(), |i: int| sanitize_char(s[i]))
}

pub fn sanitize_terminal_text(text: &str) -> (r: String)
    ensures
        r@ == sanitized(text@),
{
    let chars = str_chars(text);
    let mut out = String::new();
    let mut i: usize = 0;
    while i < chars.len()
        invariant
            i <= chars@.len(),
            chars@ == text@,
            out@ =~= sanitized(text@).take(i as int),
        decreases chars.len() - i,
    {
        let c = chars[i];
        let u = c as u32;
        let replace = u <= 0x1f || (0x7f <= u && u <= 0x9f) || u == 0x061c || u == 0x200e || u
            == 0x200f || (0x202a <= u && u <= 0x202e) || (0x2066 <= u && u <= 0x2069);
        if replace {
            string_push(&mut out, '\u{fffd}');
        } else {
            string_push(&mut out, c);
        }
        i = i + 1;
    }
    out
}

/// One diagnostic of the `rp/finding/v1` schema.
#[derive(Clone, Debug, PartialEq, Eq)]
pub struct Finding {
    pub schema: &'static str,
    pub error_code: &'static str,
    pub finding_family: &'static str,
    pub severity: Severity,
    pub message: String,
    pub source_file: Option<ProjectPath>,
    pub json_pointer: String,
}

impl Finding {
    pub fn new(
        error_code: &'static str,
        finding_family: &'static str,
        severity: Severity,
        message: &str,
        source_file: Option<ProjectPath>,
        json_pointer: &str,
    ) -> (f: Finding)
        ensures
            f.schema@ == "rp/finding/v1"@,
            f.error_code == error_code,
            f.finding_family == finding_family,
            f.severity == severity,
            f.message@ == sanitized(message@),
            f.source_file == source_file,
            f.json_pointer@ == json_pointer@,
    {
        Finding {
            schema: "rp/finding/v1",
            error_code,
            finding_family,
            severity,
            message: sanitize_terminal_text(message),
            source_file,
            json_pointer: json_pointer.to_owned(),
        }
    }

    /// An identical copy.
    pub fn clone_finding(&self) -> (f: Finding)
        ensures
            f == *self,
    {
        let source_file = match &self.source_file {
            Some(p) => Some(p.clone_path()),
            None => None,
        };
        Finding {
            schema: self.schema,
            error_code: self.error_code,
            finding_family: self.finding_family,
            severity: self.severity,
            message: self.message.clone(),
            source_file,
            json_pointer: self.json_pointer.clone(),
        }
    }

    /// A command-line usage error without a source location.
    pub fn cli_usage(message: &str) -> (f: Finding)
        ensures
            f.schema@ == "rp/finding/v1"@,
            f.error_code@ == "RP_E_CLI_USAGE"@,
            f.finding_family@ == "cli_usage"@,
            f.severity == Severity::Error,
            f.message@ == sanitized(message@),
            f.source_file is None,
            f.json_pointer@ == Seq::<char>::empty(),
    {
        proof {
            reveal_strlit("");
        }
        Finding::new("RP_E_CLI_USAGE", "cli_usage", Severity::Error, message, None, "")
    }
}


/// The diagnostic for an object id that names no object.
pub fn not_found_finding(id: &str) -> (f: Finding)
    ensures
        f.error_code@ == "RP_E_OBJECT_NOT_FOUND"@,
        f.finding_family@ == "object_lookup"@,
        f.severity == Severity::Error,
        f.message@ == sanitized("object "@ + id@ + " was not found"@),
        f.source_file is None,
        f.json_pointer@ == Seq::<char>::empty(),
{
    proof {
        reveal_strlit("");
        reveal_strlit("object ");
        reveal_strlit(" was not found");
    }
    let mut message = String::new();
    crate::text::string_push_str(&mut message, "object ");
    crate::text::string_push_str(&mut message, id);
    crate::text::string_push_str(&mut message, " was not found");
    Finding::new("RP_E_OBJECT_NOT_FOUND", "object_lookup", Severity::Error, message.as_str(), None, "")
}

} // verus!
