//! Reading members, paths, texts and items out of JSON values.
use vstd::prelude::*;

use crate::report_json::JsonValue;
use crate::text::{split_on, split_str, str_chars, str_eq};

verus! {

/// The value of the last member of `entries` named `key`.
pub open spec fn member_value(entries: Seq<(String, JsonValue)>, key: Seq<char>) -> Option<JsonValue>
    decreases entries.len(),
{
    if entries.len() == 0 {
        None
    } else if entries.last().0@ == key {
        Some(entries.last().1)
    } else {
        member_value(entries.drop_last(), key)
    }
}

/// The member `key` of an object; nothing for other values.
pub open spec fn json_get(v: JsonValue, key: Seq<char>) -> Option<JsonValue> {
    match v {
        JsonValue::Object(entries) => member_value(entries@, key),
        _ => None,
    }
}

/// The value reached by following object members named by `path`.
pub open spec fn json_path(v: JsonValue, path: Seq<Seq<char>>) -> Option<JsonValue>
    decreases path.len(),
{
    if path.len() == 0 {
        Some(v)
    } else {
        match json_path(v, path.drop_last()) {
            Some(w) => json_get(w, path.last()),
            None => None,
        }
    }
}

/// The value at a pointer of member names: the empty pointer is the value itself,
/// any other starts with `/` and names one object member per segment.
pub open spec fn json_pointer(v: JsonValue, p: Seq<char>) -> Option<JsonValue> {
    if p.len() == 0 {
        Some(v)
    } else if p[0] != '/' {
        None
    } else {
        json_path(v, split_on(p, '/').drop_first())
    }
}

/// The text of a string value.
pub open spec fn as_text(v: Option<JsonValue>) -> Option<Seq<char>> {
    match v {
        Some(JsonValue::Text(t)) => Some(t@),
        _ => None,
    }
}

/// The items of an array value.
pub open spec fn as_items(v: Option<JsonValue>) -> Option<Seq<JsonValue>> {
    match v {
        Some(JsonValue::Array(items)) => Some(items@),
        _ => None,
    }
}

/// The member names of a path.
pub open spec fn path_view(path: Seq<&str>) -> Seq<Seq<char>> {
    path.map_values(|s: &str| s@)
}

/// Whether serde_json reads two number texts as the same number.
pub uninterp spec fn serde_same_number(a: Seq<char>, b: Seq<char>) -> bool;

/// `serde_json::from_str::<serde_json::Number>` on both texts, then `Number`'s `==`:
/// whether serde_json reads them as the same number. It depends on the texts alone.
#[verifier::external_body]
fn same_number(a: &str, b: &str) -> (r: bool)
    ensures
        r == serde_same_number(a@, b@),
{
    serde_json::from_str::<serde_json::Number>(a).ok() == serde_json::from_str::<serde_json::Number>(b).ok()
}

/// Equality of JSON values as serde_json has it: objects by their members, whatever
/// their order; arrays item by item; numbers by the number they write.
pub open spec fn json_eq(a: JsonValue, b: JsonValue) -> bool
    decreases a, 2nat,
{
    match (a, b) {
        (JsonValue::Null, JsonValue::Null) => true,
        (JsonValue::Bool(x), JsonValue::Bool(y)) => x == y,
        (JsonValue::Number(x), JsonValue::Number(y)) => serde_same_number(x@, y@),
        (JsonValue::Text(x), JsonValue::Text(y)) => x@ == y@,
        (JsonValue::Array(xs), JsonValue::Array(ys)) => xs@.len() == ys@.len() && items_eq(xs@, ys@),
        (JsonValue::Object(xs), JsonValue::Object(ys)) => xs@.len() == ys@.len() && members_in(xs@, ys@),
        _ => false,
    }
}

/// The items of `xs` equal those of `ys` at the same positions.
pub open spec fn items_eq(xs: Seq<JsonValue>, ys: Seq<JsonValue>) -> bool
    decreases xs, 1nat,
{
    if xs.len() == 0 {
        true
    } else {
        items_eq(xs.drop_last(), ys) && xs.len() <= ys.len() && json_eq(xs.last(), ys[xs.len() - 1])
    }
}

/// Every member of `xs` is found in `ys` with an equal value.
pub open spec fn members_in(xs: Seq<(String, JsonValue)>, ys: Seq<(String, JsonValue)>) -> bool
    decreases xs, 1nat,
{
    if xs.len() == 0 {
        true
    } else {
        &&& members_in(xs.drop_last(), ys)
        &&& match member_value(ys, xs.last().0@) {
            Some(w) => json_eq(xs.last().1, w),
            None => false,
        }
    }
}

/// Equality of optional members, as `Option<&Value>` compares.
pub open spec fn opt_json_eq(a: Option<JsonValue>, b: Option<JsonValue>) -> bool {
    match (a, b) {
        (None, None) => true,
        (Some(x), Some(y)) => json_eq(x, y),
        _ => false,
    }
}

impl JsonValue {
    /// The member `key` of an object (the last one, should a document repeat it).
    pub fn get(&self, key: &str) -> (r: Option<&JsonValue>)
        ensures
            match r {
                Some(x) => json_get(*self, key@) == Some(*x),
                None => json_get(*self, key@) is None,
            },
    {
        match self {
            JsonValue::Object(entries) => {
                let mut i = entries.len();
                proof {
                    assert(entries@.subrange(0, i as int) =~= entries@);
                }
                while i > 0
                    invariant
                        i <= entries@.len(),
                        json_get(*self, key@) == member_value(entries@, key@),
                        member_value(entries@, key@) == member_value(entries@.subrange(0, i as int), key@),
                    decreases i,
                {
                    proof {
                        let t = entries@.subrange(0, i as int);
                        assert(t.drop_last() =~= entries@.subrange(0, i - 1));
                        assert(t.last() == entries@[i - 1]);
                    }
                    if str_eq(entries[i - 1].0.as_str(), key) {
                        proof {
                            let t = entries@.subrange(0, i as int);
                            assert(t.last().0@ == key@);
                            assert(member_value(t, key@) == Some(t.last().1));
                        }
                        return Some(&entries[i - 1].1);
                    }
                    i = i - 1;
                }
                None
            },
            _ => None,
        }
    }

    /// The value reached by following the object members named by `path`.
    pub fn at_path(&self, path: &[&str]) -> (r: Option<&JsonValue>)
        ensures
            match r {
                Some(x) => json_path(*self, path_view(path@)) == Some(*x),
                None => json_path(*self, path_view(path@)) is None,
            },
    {
        let mut cur = self;
        let mut i: usize = 0;
        proof {
            assert(path_view(path@).subrange(0, 0) =~= Seq::<Seq<char>>::empty());
        }
        while i < path.len()
            invariant
                i <= path@.len(),
                json_path(*self, path_view(path@).subrange(0, i as int)) == Some(*cur),
            decreases path@.len() - i,
        {
            let ghost pv = path_view(path@);
            proof {
                let t = pv.subrange(0, i + 1);
                assert(t.drop_last() =~= pv.subrange(0, i as int));
                assert(t.last() == path@[i as int]@);
            }
            match cur.get(path[i]) {
                Some(next) => cur = next,
                None => {
                    proof {
                        lemma_path_stays_none(*self, pv, i + 1);
                    }
                    return None;
                },
            }
            i = i + 1;
        }
        proof {
            assert(path_view(path@).subrange(0, i as int) =~= path_view(path@));
        }
        Some(cur)
    }

    /// The value at a pointer of member names (see `json_pointer`).
    pub fn at_pointer(&self, pointer: &str) -> (r: Option<&JsonValue>)
        ensures
            match r {
                Some(x) => json_pointer(*self, pointer@) == Some(*x),
                None => json_pointer(*self, pointer@) is None,
            },
    {
        let c = str_chars(pointer);
        if c.len() == 0 {
            return Some(self);
        }
        if c[0] != '/' {
            return None;
        }
        let parts = split_str(pointer, '/');
        proof {
            crate::text::lemma_split_nonempty(pointer@, '/');
        }
        let ghost segs = split_on(pointer@, '/').drop_first();
        let mut cur = self;
        let mut i: usize = 1;
        proof {
            assert(segs.subrange(0, 0) =~= Seq::<Seq<char>>::empty());
        }
        while i < parts.len()
            invariant
                1 <= i <= parts@.len(),
                split_on(pointer@, '/').len() >= 1,
                parts@.len() == segs.len() + 1,
                segs == split_on(pointer@, '/').drop_first(),
                forall|k: int| 0 <= k < parts@.len() ==> (#[trigger] parts@[k])@ == split_on(pointer@, '/')[k],
                json_path(*self, segs.subrange(0, i - 1)) == Some(*cur),
            decreases parts@.len() - i,
        {
            proof {
                let t = segs.subrange(0, i as int);
                assert(t.drop_last() =~= segs.subrange(0, i - 1));
                assert(segs[i - 1] == split_on(pointer@, '/')[i as int]);
                assert(t.last() == parts@[i as int]@);
            }
            match cur.get(parts[i].as_str()) {
                Some(next) => cur = next,
                None => {
                    proof {
                        lemma_path_stays_none(*self, segs, i as int);
                    }
                    return None;
                },
            }
            i = i + 1;
        }
        proof {
            assert(segs.subrange(0, i - 1) =~= segs);
        }
        Some(cur)
    }

    /// The text of a string value.
    pub fn as_str(&self) -> (r: Option<&str>)
        ensures
            match r {
                Some(t) => as_text(Some(*self)) == Some(t@),
                None => as_text(Some(*self)) is None,
            },
    {
        match self {
            JsonValue::Text(t) => Some(t.as_str()),
            _ => None,
        }
    }

    /// The items of an array value.
    pub fn as_array(&self) -> (r: Option<&Vec<JsonValue>>)
        ensures
            match r {
                Some(items) => as_items(Some(*self)) == Some(items@),
                None => as_items(Some(*self)) is None,
            },
    {
        match self {
            JsonValue::Array(items) => Some(items),
            _ => None,
        }
    }
}

/// Equality of JSON values (see `json_eq`).
pub fn json_equal(a: &JsonValue, b: &JsonValue) -> (r: bool)
    ensures
        r == json_eq(*a, *b),
    decreases *a,
{
    match (a, b) {
        (JsonValue::Null, JsonValue::Null) => true,
        (JsonValue::Bool(x), JsonValue::Bool(y)) => *x == *y,
        (JsonValue::Number(x), JsonValue::Number(y)) => same_number(x.as_str(), y.as_str()),
        (JsonValue::Text(x), JsonValue::Text(y)) => str_eq(x.as_str(), y.as_str()),
        (JsonValue::Array(xs), JsonValue::Array(ys)) => {
            if xs.len() != ys.len() {
                return false;
            }
            let mut i: usize = 0;
            while i < xs.len()
                invariant
                    xs@.len() == ys@.len(),
                    json_eq(*a, *b) == items_eq(xs@, ys@),
                    i <= xs@.len(),
                    items_eq(xs@.subrange(0, i as int), ys@),
                    forall|k: int| 0 <= k < xs@.len() ==> decreases_to!(*a => #[trigger] xs@[k]),
                decreases xs@.len() - i,
            {
                proof {
                    let t = xs@.subrange(0, i + 1);
                    assert(t.drop_last() =~= xs@.subrange(0, i as int));
                    assert(t.last() == xs@[i as int]);
                }
                if !json_equal(&xs[i], &ys[i]) {
                    proof {
                        lemma_items_eq_prefix(xs@, ys@, i as int + 1);
                    }
                    return false;
                }
                i = i + 1;
            }
            proof {
                assert(xs@.subrange(0, i as int) =~= xs@);
            }
            true
        },
        (JsonValue::Object(xs), JsonValue::Object(ys)) => {
            if xs.len() != ys.len() {
                return false;
            }
            let mut i: usize = 0;
            while i < xs.len()
                invariant
                    xs@.len() == ys@.len(),
                    json_eq(*a, *b) == members_in(xs@, ys@),
                    forall|k: Seq<char>| #[trigger] json_get(*b, k) == member_value(ys@, k),
                    i <= xs@.len(),
                    members_in(xs@.subrange(0, i as int), ys@),
                    forall|k: int| 0 <= k < xs@.len() ==> decreases_to!(*a => (#[trigger] xs@[k]).1),
                decreases xs@.len() - i,
            {
                proof {
                    let t = xs@.subrange(0, i + 1);
                    assert(t.drop_last() =~= xs@.subrange(0, i as int));
                    assert(t.last() == xs@[i as int]);
                }
                let found = b.get(xs[i].0.as_str());
                let same = match found {
                    Some(w) => json_equal(&xs[i].1, w),
                    None => false,
                };
                if !same {
                    proof {
                        lemma_members_in_prefix(xs@, ys@, i as int + 1);
                    }
                    return false;
                }
                i = i + 1;
            }
            proof {
                assert(xs@.subrange(0, i as int) =~= xs@);
            }
            true
        },
        _ => false,
    }
}

proof fn lemma_items_eq_prefix(xs: Seq<JsonValue>, ys: Seq<JsonValue>, n: int)
    requires
        0 < n <= xs.len(),
        !items_eq(xs.subrange(0, n), ys),
    ensures
        !items_eq(xs, ys),
    decreases xs.len() - n,
{
    if n < xs.len() {
        let t = xs.subrange(0, n + 1);
        assert(t.drop_last() =~= xs.subrange(0, n));
        lemma_items_eq_prefix(xs, ys, n + 1);
    } else {
        assert(xs.subrange(0, n) =~= xs);
    }
}

proof fn lemma_members_in_prefix(xs: Seq<(String, JsonValue)>, ys: Seq<(String, JsonValue)>, n: int)
    requires
        0 < n <= xs.len(),
        !members_in(xs.subrange(0, n), ys),
    ensures
        !members_in(xs, ys),
    decreases xs.len() - n,
{
    if n < xs.len() {
        let t = xs.subrange(0, n + 1);
        assert(t.drop_last() =~= xs.subrange(0, n));
        lemma_members_in_prefix(xs, ys, n + 1);
    } else {
        assert(xs.subrange(0, n) =~= xs);
    }
}

/// Once a prefix of a path reaches nothing, every longer prefix does too.
proof fn lemma_path_stays_none(v: JsonValue, path: Seq<Seq<char>>, n: int)
    requires
        0 < n <= path.len(),
        json_path(v, path.subrange(0, n)) is None,
    ensures
        json_path(v, path) is None,
    decreases path.len() - n,
{
    if n < path.len() {
        let t = path.subrange(0, n + 1);
        assert(t.drop_last() =~= path.subrange(0, n));
        lemma_path_stays_none(v, path, n + 1);
    } else {
        assert(path.subrange(0, n) =~= path);
    }
}

} // verus!
