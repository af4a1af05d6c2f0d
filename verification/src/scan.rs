//! The decisions of a canonical scan below `.research/`: what one directory's listing
//! admits, in which order its names are visited, and what each entry leads to.
use vstd::prelude::*;
use crate::project::{expected_layout, layout_fits, path_finding, resource_finding, ExpectedLayout, ProjectLimits};
use crate::finding::{project_path_accepted, sanitized, Finding, ProjectPath, Severity};
use crate::report_json::decode_text;
use crate::text::{str_chars, string_push, string_push_str};
use vstd::string::StringSliceAdditionalSpecFns;
use vstd::utf8::{decode_utf8, encode_utf8, valid_utf8};
use crate::text::{bytes_lt, compare_bytes, lemma_bytes_lt_irreflexive, lemma_bytes_lt_total, lemma_bytes_lt_transitive};

verus! {

broadcast use vstd::seq_lib::group_to_multiset_ensures;

/// The most names one directory's listing may hold.
pub const MAX_DIRECTORY_ENTRIES: usize = 100000;

/// `.` or `..`, which a listing reports but a scan skips.
pub open spec fn is_dot_name(n: Seq<u8>) -> bool {
    n == seq![0x2eu8] || n == seq![0x2eu8, 0x2eu8]
}

/// The names of a listing that a scan counts, in listing order, as byte sequences.
pub open spec fn counted_names(names: Seq<Vec<u8>>) -> Seq<Seq<u8>>
    decreases names.len(),
{
    if names.len() == 0 {
        Seq::empty()
    } else if is_dot_name(names.last()@) {
        counted_names(names.drop_last())
    } else {
        counted_names(names.drop_last()).push(names.last()@)
    }
}

/// Names in ascending byte order.
pub open spec fn names_ascending(s: Seq<Seq<u8>>) -> bool {
    forall|i: int, j: int| 0 <= i < j < s.len() ==> !bytes_lt(#[trigger] s[j], #[trigger] s[i])
}

/// The byte sequences of a list of names.
pub open spec fn name_views(v: Seq<Vec<u8>>) -> Seq<Seq<u8>> {
    v.map_values(|n: Vec<u8>| n@)
}

/// The per-directory name budget of a scan: the requested one, capped at 100,000.
pub fn directory_entry_cap(limits: &ProjectLimits) -> (n: usize)
    ensures
        n == if limits.directory_entries < MAX_DIRECTORY_ENTRIES { limits.directory_entries } else { MAX_DIRECTORY_ENTRIES },
{
    if limits.directory_entries < MAX_DIRECTORY_ENTRIES {
        limits.directory_entries
    } else {
        MAX_DIRECTORY_ENTRIES
    }
}

fn is_dot(n: &Vec<u8>) -> (r: bool)
    ensures
        r == is_dot_name(n@),
{
    let r = (n.len() == 1 && n[0] == 0x2e) || (n.len() == 2 && n[0] == 0x2e && n[1] == 0x2e);
    proof {
        if n@.len() == 1 {
            assert(r ==> n@ =~= seq![0x2eu8]);
        }
        if n@.len() == 2 {
            assert(r ==> n@ =~= seq![0x2eu8, 0x2eu8]);
        }
    }
    r
}

fn copy_bytes(n: &Vec<u8>) -> (r: Vec<u8>)
    ensures
        r@ == n@,
{
    let mut r: Vec<u8> = Vec::new();
    let mut i: usize = 0;
    while i < n.len()
        invariant
            i <= n@.len(),
            r@ == n@.subrange(0, i as int),
        decreases n@.len() - i,
    {
        r.push(n[i]);
        assert(r@ =~= n@.subrange(0, i + 1));
        i = i + 1;
    }
    assert(r@ =~= n@);
    r
}

/// Inserts `x` after every name it does not precede.
fn insert_name(sorted: &mut Vec<Vec<u8>>, x: Vec<u8>)
    requires
        names_ascending(name_views(old(sorted)@)),
    ensures
        names_ascending(name_views(final(sorted)@)),
        name_views(final(sorted)@).to_multiset() == name_views(old(sorted)@).to_multiset().insert(x@),
        final(sorted)@.len() == old(sorted)@.len() + 1,
{
    let ghost s = name_views(sorted@);
    let mut p: usize = 0;
    while p < sorted.len() && compare_bytes(x.as_slice(), sorted[p].as_slice()) >= 0
        invariant
            p <= sorted@.len(),
            s == name_views(sorted@),
            forall|k: int| 0 <= k < p ==> !bytes_lt(x@, #[trigger] s[k]),
        decreases sorted.len() - p,
    {
        p = p + 1;
    }
    let ghost xv = x@;
    sorted.insert(p, x);
    let ghost t2 = name_views(sorted@);
    assert(t2 =~= s.insert(p as int, xv));
    assert forall|i: int, j: int| 0 <= i < j < t2.len() implies !bytes_lt(#[trigger] t2[j], #[trigger] t2[i]) by {
        lemma_bytes_lt_irreflexive(xv);
        if i < p && j == p {
        } else if i == p && j > p {
            if bytes_lt(t2[j], xv) {
                assert(t2[j] == s[j - 1]);
                assert(bytes_lt(xv, s[p as int]));
                if j - 1 > p {
                    assert(!bytes_lt(s[j - 1], s[p as int]));
                }
                lemma_bytes_lt_transitive(s[j - 1], xv, s[p as int]);
                lemma_bytes_lt_irreflexive(s[p as int]);
            }
        } else if i < p && j < p {
        } else if i < p && j > p {
            assert(t2[j] == s[j - 1]);
        } else {
            assert(t2[j] == s[j - 1]);
            assert(t2[i] == s[i - 1]);
        }
    }
}

/// What one directory's listing admits: `None` where it holds more counted names than
/// `cap` (the scan is then abandoned whatever order the names came in); otherwise its
/// counted names in ascending byte order.
pub fn inventory(names: &Vec<Vec<u8>>, cap: usize) -> (r: Option<Vec<Vec<u8>>>)
    ensures
        r is None <==> counted_names(names@).len() > cap,
        r matches Some(v) ==> names_ascending(name_views(v@))
            && name_views(v@).to_multiset() == counted_names(names@).to_multiset(),
{
    let mut sorted: Vec<Vec<u8>> = Vec::new();
    let mut i: usize = 0;
    proof {
        assert(names@.subrange(0, 0) =~= Seq::<Vec<u8>>::empty());
        assert(name_views(sorted@) =~= Seq::<Seq<u8>>::empty());
    }
    while i < names.len()
        invariant
            i <= names@.len(),
            sorted@.len() <= cap,
            sorted@.len() == counted_names(names@.subrange(0, i as int)).len(),
            names_ascending(name_views(sorted@)),
            name_views(sorted@).to_multiset() == counted_names(names@.subrange(0, i as int)).to_multiset(),
        decreases names@.len() - i,
    {
        let ghost next = names@.subrange(0, i + 1);
        proof {
            assert(next.drop_last() =~= names@.subrange(0, i as int));
            assert(next.last() == names@[i as int]);
            assert(counted_names(next) == if is_dot_name(names@[i as int]@) {
                counted_names(names@.subrange(0, i as int))
            } else {
                counted_names(names@.subrange(0, i as int)).push(names@[i as int]@)
            });
        }
        if !is_dot(&names[i]) {
            if sorted.len() == cap {
                proof {
                    lemma_counted_prefix(names@, i + 1, names@.len() as int);
                    assert(names@.subrange(0, names@.len() as int) =~= names@);
                    assert(counted_names(next).len() == cap + 1);
                }
                return None;
            }
            let x = copy_bytes(&names[i]);
            let ghost before = name_views(sorted@);
            insert_name(&mut sorted, x);
            proof {
                assert(counted_names(names@.subrange(0, i as int)).push(names@[i as int]@).to_multiset()
                    == counted_names(names@.subrange(0, i as int)).to_multiset().insert(names@[i as int]@));
            }
        }
        i = i + 1;
    }
    proof {
        assert(names@.subrange(0, names@.len() as int) =~= names@);
    }
    Some(sorted)
}

/// Counting more names never counts fewer.
proof fn lemma_counted_prefix(names: Seq<Vec<u8>>, a: int, b: int)
    requires
        0 <= a <= b <= names.len(),
    ensures
        counted_names(names.subrange(0, a)).len() <= counted_names(names.subrange(0, b)).len(),
    decreases b - a,
{
    if a < b {
        lemma_counted_prefix(names, a, b - 1);
        assert(names.subrange(0, b).drop_last() =~= names.subrange(0, b - 1));
    }
    if b == names.len() {
        assert(names.subrange(0, b) =~= names);
    }
}

/// Two listings of the same names, in any order, are visited in the same order.
pub proof fn law_listing_order_free(a: Seq<Seq<u8>>, b: Seq<Seq<u8>>)
    requires
        names_ascending(a),
        names_ascending(b),
        a.to_multiset() == b.to_multiset(),
    ensures
        a == b,
    decreases a.len(),
{
    if a.len() == 0 {
        assert(b.to_multiset().len() == 0);
        assert(b =~= a);
    } else {
        assert(b.len() == a.len()) by {
            vstd::seq_lib::to_multiset_len(a);
            vstd::seq_lib::to_multiset_len(b);
        }
        let x = a.last();
        let y = b.last();
        assert(a.to_multiset().count(x) > 0) by {
            assert(a.contains(x)) by {
                assert(a[a.len() - 1] == x);
            }
        }
        assert(b.contains(x));
        let j = choose|j: int| 0 <= j < b.len() && b[j] == x;
        assert(a.contains(y)) by {
            assert(b.to_multiset().count(y) > 0) by {
                assert(b[b.len() - 1] == y);
            }
        }
        let i = choose|i: int| 0 <= i < a.len() && a[i] == y;
        if j < b.len() - 1 {
            assert(!bytes_lt(y, x));
        }
        if i < a.len() - 1 {
            assert(!bytes_lt(x, y));
        }
        lemma_bytes_lt_irreflexive(x);
        lemma_bytes_lt_total(x, y);
        assert(x == y);
        assert(a =~= a.drop_last().push(x));
        assert(b =~= b.drop_last().push(x));
        assert(a.drop_last().to_multiset() =~= a.to_multiset().remove(x)) by {
            assert(a.drop_last().push(x).to_multiset() == a.drop_last().to_multiset().insert(x));
        }
        assert(b.drop_last().to_multiset() =~= b.to_multiset().remove(x)) by {
            assert(b.drop_last().push(x).to_multiset() == b.drop_last().to_multiset().insert(x));
        }
        law_listing_order_free(a.drop_last(), b.drop_last());
    }
}

/// What a directory entry is, as the scan's `lstat` sees it.
#[derive(Clone, Copy, Debug, PartialEq, Eq, Structural)]
pub enum EntryKind {
    Symlink,
    Directory,
    RegularFile,
    Other,
}

/// What a scan has counted so far: directories entered (the root included), canonical
/// files discovered, and the filesystem identities of the directories seen.
pub struct ScanState {
    pub directories: usize,
    pub discovered: usize,
    pub visited: Vec<(u64, u64)>,
}

/// What the scan does with one entry.
#[derive(Debug)]
pub enum EntryAction {
    /// Report the diagnostic and go on with the next entry.
    Report(Finding),
    /// Queue the directory, by its path below `.research/`.
    Descend(String),
    /// A canonical file: its path below `.research/`, its project path, its layout and
    /// its size.
    Discover(String, ProjectPath, ExpectedLayout, usize),
    /// Not part of the canonical layout.
    Skip,
    /// Report the diagnostic and abandon the scan: a budget is exhausted.
    Abandon(Finding),
}

/// The path below `.research/` of entry `name` of `directory` (empty for the root).
pub open spec fn entry_path(directory: Seq<char>, name: Seq<char>) -> Seq<char> {
    if directory.len() == 0 { name } else { directory + "/"@ + name }
}

/// `f` is a path-containment or resource diagnostic with these fields and no pointer.
pub open spec fn scan_finding(f: Finding, code: Seq<char>, family: Seq<char>, message: Seq<char>, source: Option<ProjectPath>) -> bool {
    &&& f.error_code@ == code
    &&& f.finding_family@ == family
    &&& f.severity == Severity::Error
    &&& f.message@ == sanitized(message)
    &&& f.source_file == source
    &&& f.json_pointer@ == Seq::<char>::empty()
}

/// The counts and identities of a scan are unchanged.
pub open spec fn same_counts(a: ScanState, b: ScanState) -> bool {
    a.directories == b.directories && a.discovered == b.discovered && a.visited == b.visited
}

/// `a` reports the diagnostic with these fields, of the file at `full` (or of none).
pub open spec fn reports(a: EntryAction, code: Seq<char>, family: Seq<char>, message: Seq<char>, full: Option<Seq<char>>) -> bool {
    match a {
        EntryAction::Report(f) => scan_finding(f, code, family, message, f.source_file) && (match full {
            Some(x) => f.source_file matches Some(p) && p@ == x,
            None => f.source_file is None,
        }),
        _ => false,
    }
}

/// `a` abandons the scan with the resource diagnostic of the entry at `full`.
pub open spec fn abandons(a: EntryAction, code: Seq<char>, message: Seq<char>, full: Seq<char>) -> bool {
    match a {
        EntryAction::Abandon(f) => scan_finding(f, code, "resource_limit"@, message, f.source_file)
            && (f.source_file matches Some(p) && p@ == full),
        _ => false,
    }
}

/// `a` queues the directory at `rel`.
pub open spec fn descends(a: EntryAction, rel: Seq<char>) -> bool {
    match a {
        EntryAction::Descend(d) => d@ == rel,
        _ => false,
    }
}

/// `a` discovers the canonical file at `rel` (project path `full`) of size `size`.
pub open spec fn discovers(a: EntryAction, rel: Seq<char>, full: Seq<char>, size: int) -> bool {
    match a {
        EntryAction::Discover(d, p, e, n) => d@ == rel && p@ == full && layout_fits(rel, Some(e)) && n as int == size,
        _ => false,
    }
}

/// The project path of an entry path, where it is a safe project-relative path.
pub open spec fn entry_project_path(relative: Seq<char>) -> Seq<char> {
    ".research/"@ + relative
}

fn contains_identity(visited: &Vec<(u64, u64)>, id: (u64, u64)) -> (r: bool)
    ensures
        r == visited@.contains(id),
{
    let mut i: usize = 0;
    while i < visited.len()
        invariant
            i <= visited@.len(),
            forall|k: int| 0 <= k < i ==> visited@[k] != id,
        decreases visited@.len() - i,
    {
        if visited[i].0 == id.0 && visited[i].1 == id.1 {
            assert(visited@[i as int] == id);
            return true;
        }
        i = i + 1;
    }
    false
}

/// What the scan does with entry `name` of `directory`, of kind `kind`, with filesystem
/// identity `identity` and size `size`. A name that is not UTF-8, or that makes no safe
/// project path, is reported. A symlink, or anything but a directory or a regular file,
/// is reported. A directory is counted; past the directory budget the scan is
/// abandoned; a directory whose identity was seen before is reported; any other is
/// queued. A regular file in the canonical layout is counted and discovered; past the
/// file budget the scan is abandoned. Other regular files are skipped.
pub fn entry_step(
    state: &mut ScanState,
    limits: &ProjectLimits,
    directory: &str,
    name: &Vec<u8>,
    kind: EntryKind,
    identity: (u64, u64),
    size: u64,
) -> (a: EntryAction)
    ensures
        !valid_utf8(name@) ==> same_counts(*old(state), *final(state)) && reports(a, "RP_E_PATH_PROJECT_ESCAPE"@,
            "path_containment"@, "non-UTF-8 names are forbidden below .research"@, None),
        valid_utf8(name@) ==> {
            let rel = entry_path(directory@, decode_utf8(name@));
            let full = entry_project_path(rel);
            let accepted = project_path_accepted(encode_utf8(full));
            &&& !accepted ==> same_counts(*old(state), *final(state)) && reports(a, "RP_E_PATH_PROJECT_ESCAPE"@,
                "path_containment"@, "path is not a safe normalized project-relative path"@, None)
            &&& accepted && kind == EntryKind::Symlink ==> same_counts(*old(state), *final(state)) && reports(a,
                "RP_E_PATH_SYMLINK_FORBIDDEN"@, "path_containment"@, "symlinks are forbidden below .research"@, Some(full))
            &&& accepted && kind == EntryKind::Other ==> same_counts(*old(state), *final(state)) && reports(a,
                "RP_E_PATH_NON_REGULAR_FILE"@, "path_containment"@,
                "only regular files and directories are allowed below .research"@, Some(full))
            &&& accepted && kind == EntryKind::Directory ==> {
                let counted = old(state).directories + 1;
                &&& final(state).discovered == old(state).discovered
                &&& counted > limits.scanned_directories ==> abandons(a, "RP_E_RESOURCE_SCANNED_DIRECTORIES_EXCEEDED"@,
                    "scanned directory limit exceeded"@, full)
                &&& counted <= limits.scanned_directories ==> final(state).directories == counted
                &&& counted <= limits.scanned_directories && old(state).visited@.contains(identity) ==>
                    final(state).visited == old(state).visited && reports(a, "RP_E_PATH_PROJECT_ESCAPE"@, "path_containment"@,
                        "directory filesystem identity was visited more than once"@, Some(full))
                &&& counted <= limits.scanned_directories && !old(state).visited@.contains(identity) ==>
                    final(state).visited@ == old(state).visited@.push(identity) && descends(a, rel)
            }
            &&& accepted && kind == EntryKind::RegularFile ==> {
                &&& final(state).directories == old(state).directories
                &&& final(state).visited == old(state).visited
                &&& layout_fits(rel, None) ==> final(state).discovered == old(state).discovered && a is Skip
                &&& !layout_fits(rel, None) ==> {
                    let counted = old(state).discovered + 1;
                    &&& counted > limits.canonical_files ==> abandons(a, "RP_E_RESOURCE_SCANNED_FILES_EXCEEDED"@,
                        "canonical file limit exceeded"@, full)
                    &&& counted <= limits.canonical_files ==> final(state).discovered == counted
                        && discovers(a, rel, full, if size <= usize::MAX { size as int } else { usize::MAX as int })
                }
            }
        },
{
    proof {
        reveal_strlit("RP_E_PATH_PROJECT_ESCAPE");
        reveal_strlit("RP_E_PATH_SYMLINK_FORBIDDEN");
        reveal_strlit("RP_E_PATH_NON_REGULAR_FILE");
        reveal_strlit("RP_E_RESOURCE_SCANNED_DIRECTORIES_EXCEEDED");
        reveal_strlit("RP_E_RESOURCE_SCANNED_FILES_EXCEEDED");
        reveal_strlit("path_containment");
        reveal_strlit("resource_limit");
        reveal_strlit("non-UTF-8 names are forbidden below .research");
        reveal_strlit("path is not a safe normalized project-relative path");
        reveal_strlit("symlinks are forbidden below .research");
        reveal_strlit("only regular files and directories are allowed below .research");
        reveal_strlit("scanned directory limit exceeded");
        reveal_strlit("directory filesystem identity was visited more than once");
        reveal_strlit("canonical file limit exceeded");
        reveal_strlit("/");
        reveal_strlit(".research/");
    }
    let text = match decode_text(name.as_slice()) {
        Some(t) => t,
        None => {
            return EntryAction::Report(path_finding(
                "RP_E_PATH_PROJECT_ESCAPE",
                "path_containment",
                "non-UTF-8 names are forbidden below .research",
                None,
            ));
        },
    };
    proof {
        vstd::utf8::encode_utf8_decode_utf8(text@);
        assert(text@ == decode_utf8(name@));
    }
    let mut relative = String::new();
    proof {
        reveal_strlit("");
    }
    if !crate::text::str_eq(directory, "") {
        string_push_str(&mut relative, directory);
        string_push_str(&mut relative, "/");
    }
    string_push_str(&mut relative, text);
    proof {
        if directory@.len() == 0 {
            assert(directory@ =~= ""@);
            assert(relative@ =~= text@);
        } else {
            assert(relative@ =~= directory@ + "/"@ + text@);
        }
    }
    let mut full = String::new();
    string_push_str(&mut full, ".research/");
    string_push_str(&mut full, relative.as_str());
    let path = match ProjectPath::new(full.as_str()) {
        Ok(p) => p,
        Err(_) => {
            return EntryAction::Report(path_finding(
                "RP_E_PATH_PROJECT_ESCAPE",
                "path_containment",
                "path is not a safe normalized project-relative path",
                None,
            ));
        },
    };
    match kind {
        EntryKind::Symlink => EntryAction::Report(path_finding(
            "RP_E_PATH_SYMLINK_FORBIDDEN",
            "path_containment",
            "symlinks are forbidden below .research",
            Some(path),
        )),
        EntryKind::Other => EntryAction::Report(path_finding(
            "RP_E_PATH_NON_REGULAR_FILE",
            "path_containment",
            "only regular files and directories are allowed below .research",
            Some(path),
        )),
        EntryKind::Directory => {
            if state.directories == usize::MAX || state.directories + 1 > limits.scanned_directories {
                return EntryAction::Abandon(resource_finding(
                    "RP_E_RESOURCE_SCANNED_DIRECTORIES_EXCEEDED",
                    "scanned directory limit exceeded",
                    Some(path),
                ));
            }
            state.directories = state.directories + 1;
            if contains_identity(&state.visited, identity) {
                EntryAction::Report(path_finding(
                    "RP_E_PATH_PROJECT_ESCAPE",
                    "path_containment",
                    "directory filesystem identity was visited more than once",
                    Some(path),
                ))
            } else {
                state.visited.push(identity);
                EntryAction::Descend(relative)
            }
        },
        EntryKind::RegularFile => {
            match expected_layout(relative.as_str()) {
                None => EntryAction::Skip,
                Some(e) => {
                    if state.discovered == usize::MAX || state.discovered + 1 > limits.canonical_files {
                        return EntryAction::Abandon(resource_finding(
                            "RP_E_RESOURCE_SCANNED_FILES_EXCEEDED",
                            "canonical file limit exceeded",
                            Some(path),
                        ));
                    }
                    state.discovered = state.discovered + 1;
                    let n: usize = if size <= usize::MAX as u64 { size as usize } else { usize::MAX };
                    EntryAction::Discover(relative, path, e, n)
                },
            }
        },
    }
}

/// A canonical file the scan discovered.
#[derive(Debug)]
pub struct Discovered {
    pub relative: String,
    pub path: ProjectPath,
    pub expected: ExpectedLayout,
    pub size: usize,
}

/// Discovered files in ascending order of their project paths' bytes.
pub open spec fn paths_ascending(s: Seq<Discovered>) -> bool {
    forall|i: int, j: int| 0 <= i < j < s.len() ==> !bytes_lt(encode_utf8((#[trigger] s[j]).path@), encode_utf8((#[trigger] s[i]).path@))
}

/// What the file budgets make of the sorted files `s`, up to the `k`th: the files kept,
/// the oversized files reported (by position), the bytes counted, and whether the
/// whole-project budget ran out (at the position given).
pub open spec fn budgeted(s: Seq<Discovered>, per_file: int, whole: int, k: int) -> (Seq<int>, Seq<int>, int, Option<int>)
    decreases k,
{
    if k <= 0 {
        (Seq::empty(), Seq::empty(), 0, None)
    } else {
        let prev = budgeted(s, per_file, whole, k - 1);
        if prev.3 is Some {
            prev
        } else if s[k - 1].size > per_file {
            (prev.0, prev.1.push(k - 1), prev.2, None)
        } else {
            let total = if prev.2 + s[k - 1].size > usize::MAX { usize::MAX as int } else { prev.2 + s[k - 1].size };
            if total > whole {
                (prev.0, prev.1, total, Some(k - 1))
            } else {
                (prev.0.push(k - 1), prev.1, total, None)
            }
        }
    }
}

fn insert_discovered(sorted: &mut Vec<Discovered>, x: Discovered)
    requires
        paths_ascending(old(sorted)@),
    ensures
        paths_ascending(final(sorted)@),
        final(sorted)@.to_multiset() == old(sorted)@.to_multiset().insert(x),
{
    let ghost s = sorted@;
    let mut p: usize = 0;
    while p < sorted.len() && compare_bytes(x.path.as_str().as_bytes(), sorted[p].path.as_str().as_bytes()) >= 0
        invariant
            p <= sorted@.len(),
            s == sorted@,
            forall|k: int| 0 <= k < p ==> !bytes_lt(encode_utf8(x.path@), encode_utf8((#[trigger] s[k]).path@)),
        decreases sorted.len() - p,
    {
        p = p + 1;
    }
    let ghost xv = x;
    sorted.insert(p, x);
    let ghost t2 = sorted@;
    assert(t2 =~= s.insert(p as int, xv));
    assert forall|i: int, j: int| 0 <= i < j < t2.len() implies !bytes_lt(encode_utf8((#[trigger] t2[j]).path@), encode_utf8((#[trigger] t2[i]).path@)) by {
        let key = |d: Discovered| encode_utf8(d.path@);
        lemma_bytes_lt_irreflexive(key(xv));
        if i < p && j == p {
        } else if i == p && j > p {
            if bytes_lt(key(t2[j]), key(xv)) {
                assert(t2[j] == s[j - 1]);
                assert(bytes_lt(key(xv), key(s[p as int])));
                if j - 1 > p {
                    assert(!bytes_lt(key(s[j - 1]), key(s[p as int])));
                }
                lemma_bytes_lt_transitive(key(s[j - 1]), key(xv), key(s[p as int]));
                lemma_bytes_lt_irreflexive(key(s[p as int]));
            }
        } else if i < p && j < p {
        } else if i < p && j > p {
            assert(t2[j] == s[j - 1]);
        } else {
            assert(t2[j] == s[j - 1]);
            assert(t2[i] == s[i - 1]);
        }
    }
}

/// `kept` and `reported` are what `admit_files` makes of `discovered` once sorted as `s`.
pub open spec fn admitted_as(s: Seq<Discovered>, discovered: Seq<Discovered>, limits: ProjectLimits, kept: Seq<Discovered>, reported: Seq<Finding>) -> bool {
    &&& paths_ascending(s)
            &&& s.to_multiset() == discovered.to_multiset()
            &&& {
                let b = budgeted(s, limits.yaml_bytes_per_object as int, limits.whole_project_yaml_bytes as int, s.len() as int);
                let has_descriptor = exists|i: int| 0 <= i < s.len() && (#[trigger] s[i]).relative@ == "project.yaml"@;
                let lead = if has_descriptor { 0int } else { 1int };
                &&& kept.len() == b.0.len()
                &&& forall|i: int| 0 <= i < b.0.len() ==> #[trigger] kept[i] == s[b.0[i]]
                &&& reported.len() == lead + b.1.len() + (if b.3 is Some { 1int } else { 0int })
                &&& !has_descriptor ==> scan_finding(reported[0], "RP_E_PROJECT_DESCRIPTOR_NOT_FOUND"@, "project_discovery"@,
                    ".research/project.yaml was not found"@, None)
                &&& forall|i: int| 0 <= i < b.1.len() ==> scan_finding(#[trigger] reported[lead + i], "RP_E_RESOURCE_FILE_SIZE_EXCEEDED"@,
                    "resource_limit"@, "canonical YAML file size limit exceeded"@, Some(s[b.1[i]].path))
                &&& b.3 matches Some(k) ==> scan_finding(reported.last(), "RP_E_RESOURCE_TOTAL_BYTES_EXCEEDED"@, "resource_limit"@,
                    "whole-project YAML byte limit exceeded"@, Some(s[k].path))
            }
        }

/// The files of a finished scan and its closing diagnostics. The files are put in
/// ascending path order; a scan without `project.yaml` reports the missing descriptor.
/// Then, in order, a file above the per-file budget is reported and left out, the
/// others are counted, and the first whose bytes take the count past the whole-project
/// budget is reported and ends the list.
pub fn admit_files(discovered: Vec<Discovered>, limits: &ProjectLimits) -> (r: (Vec<Discovered>, Vec<Finding>))
    ensures
        exists|s: Seq<Discovered>| #[trigger] admitted_as(s, discovered@, *limits, r.0@, r.1@),
{
    proof {
        reveal_strlit("RP_E_PROJECT_DESCRIPTOR_NOT_FOUND");
        reveal_strlit("project_discovery");
        reveal_strlit(".research/project.yaml was not found");
        reveal_strlit("RP_E_RESOURCE_FILE_SIZE_EXCEEDED");
        reveal_strlit("canonical YAML file size limit exceeded");
        reveal_strlit("RP_E_RESOURCE_TOTAL_BYTES_EXCEEDED");
        reveal_strlit("whole-project YAML byte limit exceeded");
        reveal_strlit("resource_limit");
        reveal_strlit("project.yaml");
        reveal_strlit("");
    }
    let ghost original = discovered@;
    let mut rest = discovered;
    let mut sorted: Vec<Discovered> = Vec::new();
    let ghost mut taken: Seq<Discovered> = Seq::empty();
    while rest.len() > 0
        invariant
            paths_ascending(sorted@),
            sorted@.to_multiset() == taken.to_multiset(),
            taken + rest@.reverse() == original.reverse(),
        decreases rest.len(),
    {
        let ghost before = rest@;
        let d = rest.pop().unwrap();
        proof {
            assert(before =~= rest@.push(d));
            assert(before.reverse() =~= seq![d] + rest@.reverse());
        }
        insert_discovered(&mut sorted, d);
        proof {
            assert(taken.push(d) + rest@.reverse() =~= taken + before.reverse());
            taken = taken.push(d);
        }
    }
    proof {
        assert(rest@.reverse() =~= Seq::<Discovered>::empty());
        assert(taken =~= original.reverse());
        original.lemma_reverse_to_multiset();
    }
    let ghost s = sorted@;
    let mut findings: Vec<Finding> = Vec::new();
    let mut found = false;
    let mut i: usize = 0;
    while i < sorted.len()
        invariant
            s == sorted@,
            i <= s.len(),
            found == exists|k: int| 0 <= k < i && (#[trigger] s[k]).relative@ == "project.yaml"@,
        decreases s.len() - i,
    {
        if crate::text::str_eq(sorted[i].relative.as_str(), "project.yaml") {
            found = true;
        }
        i = i + 1;
    }
    let ghost lead: int = if found { 0 } else { 1 };
    if !found {
        let f = crate::finding::Finding::new(
            "RP_E_PROJECT_DESCRIPTOR_NOT_FOUND",
            "project_discovery",
            Severity::Error,
            ".research/project.yaml was not found",
            None,
            "",
        );
        findings.push(f);
        proof {
            assert(findings@[0] == f);
            assert(f.error_code@ == "RP_E_PROJECT_DESCRIPTOR_NOT_FOUND"@);
            assert(f.finding_family@ == "project_discovery"@);
            assert(f.message@ == sanitized(".research/project.yaml was not found"@));
            assert(f.json_pointer@ == Seq::<char>::empty());
            assert(scan_finding(f, "RP_E_PROJECT_DESCRIPTOR_NOT_FOUND"@, "project_discovery"@,
                ".research/project.yaml was not found"@, None));
        }
    }
    proof {
        assert(found == exists|x: int| 0 <= x < s.len() && (#[trigger] s[x]).relative@ == "project.yaml"@);
    }
    let ghost per = limits.yaml_bytes_per_object as int;
    let ghost whole = limits.whole_project_yaml_bytes as int;
    let mut kept: Vec<Discovered> = Vec::new();
    let mut total: usize = 0;
    let mut rest2: Vec<Discovered> = Vec::new();
    let mut sorted = sorted;
    while sorted.len() > 0
        invariant
            sorted@.len() <= s.len(),
            sorted@ == s.subrange(0, sorted@.len() as int),
            rest2@ == s.subrange(sorted@.len() as int, s.len() as int).reverse(),
            found == exists|x: int| 0 <= x < s.len() && (#[trigger] s[x]).relative@ == "project.yaml"@,
            s.len() <= usize::MAX,
        decreases sorted.len(),
    {
        let ghost n0 = sorted@.len() as int;
        let d = sorted.pop().unwrap();
        rest2.push(d);
        proof {
            assert(sorted@ =~= s.subrange(0, n0 - 1));
            assert(rest2@ =~= s.subrange(n0 - 1, s.len() as int).reverse());
        }
    }
    let ghost ended: bool = false;
    let mut k: usize = 0;
    proof {
        assert(rest2@ =~= s.subrange(0, s.len() as int).reverse());
    }
    while rest2.len() > 0
        invariant
            k <= s.len(),
            rest2@ == s.subrange(k as int, s.len() as int).reverse(),
            budgeted(s, per, whole, k as int).3 is None,
            total as int == budgeted(s, per, whole, k as int).2,
            kept@.len() == budgeted(s, per, whole, k as int).0.len(),
            forall|q: int| 0 <= q < kept@.len() ==> #[trigger] kept@[q] == s[budgeted(s, per, whole, k as int).0[q]],
            findings@.len() == lead + budgeted(s, per, whole, k as int).1.len(),
            lead == 0 || scan_finding(findings@[0], "RP_E_PROJECT_DESCRIPTOR_NOT_FOUND"@, "project_discovery"@,
                ".research/project.yaml was not found"@, None),
            lead == 0 || lead == 1,
            forall|q: int| 0 <= q < budgeted(s, per, whole, k as int).1.len() ==> scan_finding(#[trigger] findings@[lead + q],
                "RP_E_RESOURCE_FILE_SIZE_EXCEEDED"@, "resource_limit"@, "canonical YAML file size limit exceeded"@,
                Some(s[budgeted(s, per, whole, k as int).1[q]].path)),
            per == limits.yaml_bytes_per_object as int,
            whole == limits.whole_project_yaml_bytes as int,
            found == exists|x: int| 0 <= x < s.len() && (#[trigger] s[x]).relative@ == "project.yaml"@,
            lead == (if found { 0int } else { 1int }),
            paths_ascending(s),
            s.to_multiset() == original.to_multiset(),
            original == discovered@,
            s.len() <= usize::MAX,
        decreases rest2.len(),
    {
        let ghost before = rest2@;
        let d = rest2.pop().unwrap();
        let ghost bk = budgeted(s, per, whole, k as int);
        proof {
            assert(d == s[k as int]) by {
                assert(before.last() == s.subrange(k as int, s.len() as int).reverse().last());
            }
            assert(rest2@ =~= s.subrange(k + 1, s.len() as int).reverse());
            assert(k < s.len());
        }
        let ghost fb = findings@;
        if d.size > limits.yaml_bytes_per_object {
            let f = resource_finding("RP_E_RESOURCE_FILE_SIZE_EXCEEDED", "canonical YAML file size limit exceeded", Some(d.path));
            findings.push(f);
            proof {
                let bn = budgeted(s, per, whole, k + 1);
                assert(bn.1 == bk.1.push(k as int));
                assert(lead == 0 || findings@[0] == fb[0]);
                assert forall|q: int| 0 <= q < bn.1.len() implies scan_finding(#[trigger] findings@[lead + q],
                    "RP_E_RESOURCE_FILE_SIZE_EXCEEDED"@, "resource_limit"@, "canonical YAML file size limit exceeded"@,
                    Some(s[bn.1[q]].path)) by {
                    if q < bk.1.len() {
                        assert(findings@[lead + q] == fb[lead + q]);
                        assert(bn.1[q] == bk.1[q]);
                    }
                }
            }
            k = k + 1;
            continue;
        }
        let next = total.saturating_add(d.size);
        if next > limits.whole_project_yaml_bytes {
            let f = resource_finding("RP_E_RESOURCE_TOTAL_BYTES_EXCEEDED", "whole-project YAML byte limit exceeded", Some(d.path));
            findings.push(f);
            proof {
                lemma_budget_stops(s, per, whole, k as int + 1, s.len() as int);
                let b = budgeted(s, per, whole, s.len() as int);
                assert(b == budgeted(s, per, whole, k + 1));
                assert(b.3 == Some(k as int));
                assert(lead == 0 || findings@[0] == fb[0]);
                assert forall|q: int| 0 <= q < b.1.len() implies scan_finding(#[trigger] findings@[lead + q],
                    "RP_E_RESOURCE_FILE_SIZE_EXCEEDED"@, "resource_limit"@, "canonical YAML file size limit exceeded"@,
                    Some(s[b.1[q]].path)) by {
                    assert(findings@[lead + q] == fb[lead + q]);
                }
                assert(findings@.last() == f);
                assert(scan_finding(f, "RP_E_RESOURCE_TOTAL_BYTES_EXCEEDED"@, "resource_limit"@,
                    "whole-project YAML byte limit exceeded"@, Some(s[k as int].path)));
                assert(kept@.len() == b.0.len());
                assert(forall|i: int| 0 <= i < b.0.len() ==> #[trigger] kept@[i] == s[b.0[i]]);
                assert(findings@.len() == lead + b.1.len() + 1);
                assert(lead == 0 || findings@[0] == fb[0]);
                assert(paths_ascending(s) && s.to_multiset() == original.to_multiset());
                let has_descriptor = exists|x: int| 0 <= x < s.len() && (#[trigger] s[x]).relative@ == "project.yaml"@;
                assert(has_descriptor == found);
                assert(!has_descriptor ==> scan_finding(findings@[0], "RP_E_PROJECT_DESCRIPTOR_NOT_FOUND"@, "project_discovery"@,
                    ".research/project.yaml was not found"@, None));
                assert(b.3 matches Some(kk) ==> scan_finding(findings@.last(), "RP_E_RESOURCE_TOTAL_BYTES_EXCEEDED"@, "resource_limit"@,
                    "whole-project YAML byte limit exceeded"@, Some(s[kk].path)));
                assert(admitted_as(s, original, *limits, kept@, findings@));
            }
            let r = (kept, findings);
            proof {
                assert(admitted_as(s, original, *limits, r.0@, r.1@));
            }
            return r;
        }
        total = next;
        kept.push(d);
        k = k + 1;
    }
    proof {
        assert(k == s.len());
        assert(paths_ascending(s) && s.to_multiset() == original.to_multiset());
        assert(admitted_as(s, original, *limits, kept@, findings@));
    }
    let r = (kept, findings);
    proof {
        assert(admitted_as(s, original, *limits, r.0@, r.1@));
    }
    r
}

/// Once the whole-project budget has run out, later files change nothing.
proof fn lemma_budget_stops(s: Seq<Discovered>, per: int, whole: int, k: int, m: int)
    requires
        0 < k <= m,
        budgeted(s, per, whole, k).3 is Some,
    ensures
        budgeted(s, per, whole, m) == budgeted(s, per, whole, k),
    decreases m - k,
{
    if m > k {
        lemma_budget_stops(s, per, whole, k, m - 1);
    }
}

} // verus!
