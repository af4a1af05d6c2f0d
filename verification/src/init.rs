//! Project initialization: the report, its errors, and the project's slug, title and
//! identifier. Creating the directory tree is the caller's I/O.
use vstd::prelude::*;

use crate::content::{raw_sha256_bytes, sha256_digest};
use crate::execution::ExecutionStop;
use crate::text::{str_chars, string_push, string_push_str};

verus! {

/// What an initialization created.
#[derive(Clone, Debug, PartialEq, Eq)]
pub struct InitReport {
    pub project_id: String,
    pub created_paths: Vec<String>,
}

/// Why an initialization did not complete.
#[derive(Debug)]
pub enum InitError {
    Stopped(ExecutionStop),
    Conflict,
    Io(String),
}

pub open spec fn init_error_message(e: InitError) -> Seq<char> {
    match e {
        InitError::Stopped(stop) => crate::execution::stop_message(stop),
        InitError::Conflict => ".research already exists; refusing to overwrite"@,
        InitError::Io(m) => m@,
    }
}

impl InitError {
    /// The human-readable description.
    pub fn message(&self) -> (m: String)
        ensures
            m@ == init_error_message(*self),
    {
        proof {
            reveal_strlit(".research already exists; refusing to overwrite");
        }
        let mut s = String::new();
        match self {
            InitError::Stopped(stop) => string_push_str(&mut s, stop.message()),
            InitError::Conflict => string_push_str(&mut s, ".research already exists; refusing to overwrite"),
            InitError::Io(m) => string_push_str(&mut s, m.as_str()),
        }
        s
    }
}

/// The characters `char::to_lowercase` yields for one character (Unicode's full
/// lowercase mapping).
pub uninterp spec fn lowercase_of(c: char) -> Seq<char>;

/// `char::to_lowercase`, collected.
#[verifier::external_body]
fn lowercase_chars(c: char) -> (v: Vec<char>)
    ensures
        v@ == lowercase_of(c),
{
    c.to_lowercase().collect()
}

/// The lowercase characters of a name, in order.
pub open spec fn lowercased(s: Seq<char>) -> Seq<char>
    decreases s.len(),
{
    if s.len() == 0 {
        Seq::empty()
    } else {
        lowercased(s.drop_last()) + lowercase_of(s.last())
    }
}

pub open spec fn is_ascii_alnum(c: char) -> bool {
    ('a' <= c && c <= 'z') || ('A' <= c && c <= 'Z') || ('0' <= c && c <= '9')
}

/// Slug state after reading `s`: the slug so far and whether a separator is pending.
pub open spec fn slug_state(s: Seq<char>) -> (Seq<char>, bool)
    decreases s.len(),
{
    if s.len() == 0 {
        (Seq::empty(), false)
    } else {
        let (slug, pending) = slug_state(s.drop_last());
        let c = s.last();
        if is_ascii_alnum(c) {
            (if pending && slug.len() > 0 { slug.push('-').push(c) } else { slug.push(c) }, false)
        } else {
            (slug, true)
        }
    }
}

/// The slug of a project named `name`: its lowercased ASCII letters and digits, with
/// one hyphen for each run of other characters between them; `research-project` for a
/// missing name or one without letters and digits.
pub open spec fn slug_of(name: Option<Seq<char>>) -> Seq<char> {
    let raw = match name {
        Some(n) => n,
        None => "research-project"@,
    };
    let slug = slug_state(lowercased(raw)).0;
    if slug.len() == 0 {
        "research-project"@
    } else {
        slug
    }
}

/// The slug of a project whose directory is named `name` (`None` where the final path
/// component is missing or not UTF-8).
pub fn project_slug(name: Option<&str>) -> (s: String)
    ensures
        s@ == slug_of(match name { Some(n) => Some(n@), None => None }),
{
    proof {
        reveal_strlit("research-project");
    }
    let raw = match name {
        Some(n) => n,
        None => "research-project",
    };
    let chars = str_chars(raw);
    let mut lower: Vec<char> = Vec::new();
    let mut i: usize = 0;
    proof {
        assert(chars@.subrange(0, 0) =~= Seq::<char>::empty());
        assert(lower@ =~= lowercased(Seq::<char>::empty()));
    }
    while i < chars.len()
        invariant
            chars@ == raw@,
            i <= chars@.len(),
            lower@ == lowercased(chars@.subrange(0, i as int)),
        decreases chars@.len() - i,
    {
        let more = lowercase_chars(chars[i]);
        let ghost before = lower@;
        let mut k: usize = 0;
        while k < more.len()
            invariant
                k <= more@.len(),
                lower@ == before + more@.subrange(0, k as int),
            decreases more@.len() - k,
        {
            lower.push(more[k]);
            assert(lower@ =~= before + more@.subrange(0, k + 1));
            k = k + 1;
        }
        proof {
            let next = chars@.subrange(0, i + 1);
            assert(next.drop_last() =~= chars@.subrange(0, i as int));
            assert(more@.subrange(0, more@.len() as int) =~= more@);
        }
        i = i + 1;
    }
    assert(chars@.subrange(0, chars@.len() as int) =~= chars@);
    let mut slug = String::new();
    let mut nonempty = false;
    let mut separator = false;
    let mut j: usize = 0;
    proof {
        assert(lower@.subrange(0, 0) =~= Seq::<char>::empty());
        assert(slug@ =~= Seq::<char>::empty());
    }
    while j < lower.len()
        invariant
            j <= lower@.len(),
            (slug@, separator) == slug_state(lower@.subrange(0, j as int)),
            nonempty == (slug@.len() > 0),
        decreases lower@.len() - j,
    {
        let c = lower[j];
        proof {
            let next = lower@.subrange(0, j + 1);
            assert(next.drop_last() =~= lower@.subrange(0, j as int));
            assert(next.last() == c);
        }
        if ('a' <= c && c <= 'z') || ('A' <= c && c <= 'Z') || ('0' <= c && c <= '9') {
            if separator && nonempty {
                string_push(&mut slug, '-');
            }
            string_push(&mut slug, c);
            nonempty = true;
            separator = false;
        } else {
            separator = true;
        }
        j = j + 1;
    }
    assert(lower@.subrange(0, lower@.len() as int) =~= lower@);
    if !nonempty {
        let mut d = String::new();
        string_push_str(&mut d, "research-project");
        d
    } else {
        slug
    }
}

/// Crockford's base-32 digit for a five-bit value.
pub open spec fn crockford(v: int) -> char {
    "0123456789ABCDEFGHJKMNPQRSTVWXYZ"@[v]
}

/// The big-endian value of a byte sequence.
pub open spec fn be_value(b: Seq<u8>) -> nat
    decreases b.len(),
{
    if b.len() == 0 {
        0
    } else {
        be_value(b.drop_last()) * 256 + (b.last() as nat)
    }
}

/// The 128 bits of a ULID: the low 48 bits of the millisecond time, then the 80
/// random bits.
pub open spec fn ulid_value(timestamp_ms: u64, randomness: Seq<u8>) -> int {
    (timestamp_ms as int % 0x1000000000000) * 0x100000000000000000000 + be_value(randomness)
}

/// Digit `g` of the 26-digit base-32 rendering of a 128-bit value (most significant
/// first; the first digit holds the top three bits).
pub open spec fn ulid_digit(n: u128, g: int) -> int {
    ((n >> ((5 * (25 - g)) as u128)) & 31) as int
}

proof fn lemma_be_bound(b: Seq<u8>)
    ensures
        be_value(b) < vstd::arithmetic::power2::pow2((8 * b.len()) as nat),
    decreases b.len(),
{
    vstd::arithmetic::power2::lemma2_to64();
    if b.len() > 0 {
        let prev = b.drop_last();
        lemma_be_bound(prev);
        let k: nat = (8 * prev.len()) as nat;
        let p = vstd::arithmetic::power2::pow2(k);
        vstd::arithmetic::power2::lemma_pow2_adds(k, 8);
        assert((8 * b.len()) as nat == k + 8);
        assert(be_value(b) == be_value(prev) * 256 + (b.last() as nat));
        assert(be_value(b) < p * 256) by (nonlinear_arith)
            requires
                be_value(b) == be_value(prev) * 256 + (b.last() as nat),
                b.last() < 256,
                be_value(prev) < p,
        ;
    }
}

/// The ULID of a millisecond time and ten random bytes, in Crockford base 32.
pub fn encode_ulid(timestamp_ms: u64, randomness: [u8; 10]) -> (s: String)
    ensures
        s@.len() == 26,
        0 <= ulid_value(timestamp_ms, randomness@) < 0x100000000000000000000000000000000,
        forall|g: int| 0 <= g < 26 ==> #[trigger] s@[g] == crockford(
            ulid_digit(ulid_value(timestamp_ms, randomness@) as u128, g),
        ),
{
    let mut low: u128 = 0;
    let mut i: usize = 0;
    proof {
        assert(randomness@.subrange(0, 0) =~= Seq::<u8>::empty());
    }
    while i < 10
        invariant
            i <= 10,
            randomness@.len() == 10,
            low as int == be_value(randomness@.subrange(0, i as int)),
        decreases 10 - i,
    {
        proof {
            let prefix = randomness@.subrange(0, i as int);
            lemma_be_bound(prefix);
            vstd::arithmetic::power2::lemma2_to64();
            vstd::arithmetic::power2::lemma_pow2_adds(64, 8);
            if i < 9 {
                vstd::arithmetic::power2::lemma_pow2_strictly_increases((8 * i) as nat, 72);
            }
            assert(low < 0x1000000000000000000);
            let next = randomness@.subrange(0, i + 1);
            assert(next.drop_last() =~= prefix);
            assert(next.last() == randomness[i as int]);
            assert(low * 256 + randomness[i as int] < 0x100000000000000000000) by (nonlinear_arith)
                requires
                    low < 0x1000000000000000000,
                    randomness[i as int] < 256,
            ;
        }
        low = low * 256 + randomness[i] as u128;
        i = i + 1;
    }
    proof {
        assert(randomness@.subrange(0, 10) =~= randomness@);
        lemma_be_bound(randomness@);
        vstd::arithmetic::power2::lemma2_to64();
        vstd::arithmetic::power2::lemma_pow2_adds(64, 16);
        assert(vstd::arithmetic::power2::pow2(80) == 0x100000000000000000000);
    }
    let time = (timestamp_ms % 0x1000000000000) as u128;
    assert(time * 0x100000000000000000000 + low < 0x100000000000000000000000000000000) by (nonlinear_arith)
        requires
            time < 0x1000000000000,
            low < 0x100000000000000000000,
    ;
    let n: u128 = time * 0x100000000000000000000 + low;
    let alphabet: [char; 32] = [
        '0', '1', '2', '3', '4', '5', '6', '7', '8', '9', 'A', 'B', 'C', 'D', 'E', 'F', 'G', 'H',
        'J', 'K', 'M', 'N', 'P', 'Q', 'R', 'S', 'T', 'V', 'W', 'X', 'Y', 'Z',
    ];
    proof {
        reveal_strlit("0123456789ABCDEFGHJKMNPQRSTVWXYZ");
        assert(alphabet@ =~= "0123456789ABCDEFGHJKMNPQRSTVWXYZ"@);
    }
    let mut out = String::new();
    let mut g: usize = 0;
    while g < 26
        invariant
            g <= 26,
            out@.len() == g,
            alphabet@ == "0123456789ABCDEFGHJKMNPQRSTVWXYZ"@,
            n as int == ulid_value(timestamp_ms, randomness@),
            forall|h: int| 0 <= h < g ==> #[trigger] out@[h] == crockford(ulid_digit(n, h)),
        decreases 26 - g,
    {
        let shift: u128 = (5 * (25 - g)) as u128;
        let v: u128 = (n >> shift) & 31;
        assert(v < 32) by (bit_vector)
            requires
                v == (n >> shift) & 31,
        ;
        string_push(&mut out, alphabet[v as usize]);
        g = g + 1;
    }
    out
}

/// The first ten bytes of the SHA-256 digest of `material`, and the project
/// identifier `proj_` + the ULID of `milliseconds` (negative times count as zero)
/// with those bytes as its random part.
pub fn init_project_id(material: &[u8], milliseconds: i64) -> (id: String)
    ensures
        id@.len() == 31,
        id@.subrange(0, 5) == "proj_"@,
        forall|g: int| 0 <= g < 26 ==> #[trigger] id@[5 + g] == crockford(
            ulid_digit(ulid_value(if milliseconds < 0 { 0 } else { milliseconds as u64 }, sha256_digest(material@).subrange(0, 10)) as u128, g),
        ),
{
    let timestamp: u64 = if milliseconds < 0 { 0 } else { milliseconds as u64 };
    let digest = raw_sha256_bytes(material);
    let mut randomness: [u8; 10] = [0u8; 10];
    let mut k: usize = 0;
    while k < 10
        invariant
            k <= 10,
            digest@.len() == 32,
            randomness@.len() == 10,
            forall|w: int| 0 <= w < k ==> randomness@[w] == digest@[w],
        decreases 10 - k,
    {
        randomness[k] = digest[k];
        k = k + 1;
    }
    assert(randomness@ =~= digest@.subrange(0, 10));
    let ulid = encode_ulid(timestamp, randomness);
    let mut id = String::new();
    proof {
        reveal_strlit("proj_");
    }
    string_push_str(&mut id, "proj_");
    string_push_str(&mut id, ulid.as_str());
    proof {
        assert(id@.subrange(0, 5) =~= "proj_"@);
        assert forall|g: int| 0 <= g < 26 implies #[trigger] id@[5 + g] == ulid@[g] by {}
    }
    id
}


pub open spec fn ascii_upper(c: char) -> char {
    if 'a' <= c && c <= 'z' {
        ((c as u32) - 32) as char
    } else {
        c
    }
}

/// The title of a slug: hyphens become spaces and each word starts upper-case.
pub open spec fn title_of(slug: Seq<char>) -> Seq<char> {
    Seq::new(slug.len(), |i: int| if slug[i] == '-' {
        ' '
    } else if i == 0 || slug[i - 1] == '-' {
        ascii_upper(slug[i])
    } else {
        slug[i]
    })
}

/// The project title derived from its slug.
pub fn project_title(slug: &str) -> (t: String)
    ensures
        t@ == title_of(slug@),
{
    let c = str_chars(slug);
    let mut t = String::new();
    let mut i: usize = 0;
    while i < c.len()
        invariant
            c@ == slug@,
            i <= c@.len(),
            t@ == title_of(slug@).subrange(0, i as int),
        decreases c@.len() - i,
    {
        let ch = c[i];
        let out = if ch == '-' {
            ' '
        } else if i == 0 || c[i - 1] == '-' {
            if 'a' <= ch && ch <= 'z' { ((ch as u8) - 32) as char } else { ch }
        } else {
            ch
        };
        string_push(&mut t, out);
        assert(t@ =~= title_of(slug@).subrange(0, i + 1));
        i = i + 1;
    }
    assert(title_of(slug@).subrange(0, c@.len() as int) =~= title_of(slug@));
    t
}

} // verus!
