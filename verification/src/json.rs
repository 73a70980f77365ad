//! Structural JSON values and the subset-match comparator used for
//! optional body matching.

use vstd::prelude::*;
use crate::text::str_eq;

verus! {

/// A JSON document as plain values.
///
/// Numbers are held as signed integers; fractional numbers are outside
/// the comparator's scope.  A value parsed from a JSON document is
/// well-formed in the sense of [`spec_json_wf`]: every object's field
/// names are pairwise distinct.  The comparator reads the first field
/// with a given name, so on objects with duplicate names it sees only
/// the first.
pub enum JsonValue {
    Null,
    Bool(bool),
    Int(i64),
    Str(String),
    Arr(Vec<JsonValue>),
    Obj(Vec<(String, JsonValue)>),
}

/// The documented invariant of [`JsonValue`]: every object, at every
/// depth, has pairwise-distinct field names, as a JSON document's maps
/// cannot hold duplicates.
pub open spec fn spec_json_wf(v: JsonValue) -> bool
    decreases v,
{
    match v {
        JsonValue::Arr(vs) => forall|i: int|
            0 <= i < vs@.len() ==> spec_json_wf(#[trigger] vs@[i]),
        JsonValue::Obj(fs) => {
            &&& forall|i: int, j: int| 0 <= i < j < fs@.len() ==> fs@[i].0@ != fs@[j].0@
            &&& forall|i: int| 0 <= i < fs@.len() ==> spec_json_wf((#[trigger] fs@[i]).1)
        },
        _ => true,
    }
}

/// The value under the first field named `key`, if any.
pub open spec fn json_obj_get(fields: Seq<(String, JsonValue)>, key: Seq<char>) -> Option<
    JsonValue,
>
    decreases fields.len(),
{
    if fields.len() == 0 {
        None
    } else if fields[0].0@ == key {
        Some(fields[0].1)
    } else {
        json_obj_get(fields.drop_first(), key)
    }
}

/// Subset matching of `actual` against `expected`: objects match when
/// every expected field is present and matches, arrays match pointwise at
/// equal length, the string `*` matches anything, and other scalars match
/// by equality.
pub open spec fn spec_json_matches(actual: JsonValue, expected: JsonValue) -> bool
    decreases expected,
{
    match expected {
        JsonValue::Str(s) => {
            if s@ == "*"@ {
                true
            } else {
                actual matches JsonValue::Str(a) && a@ == s@
            }
        },
        JsonValue::Null => actual is Null,
        JsonValue::Bool(b) => actual matches JsonValue::Bool(ab) && ab == b,
        JsonValue::Int(n) => actual matches JsonValue::Int(an) && an == n,
        JsonValue::Arr(evs) => actual matches JsonValue::Arr(avs) && avs@.len() == evs@.len()
            && forall|i: int|
            0 <= i < evs@.len() ==> spec_json_matches(avs@[i], #[trigger] evs@[i]),
        JsonValue::Obj(efs) => actual matches JsonValue::Obj(afs) && forall|i: int|
            0 <= i < efs@.len() ==> (match json_obj_get(afs@, (#[trigger] efs@[i]).0@) {
                Some(av) => spec_json_matches(av, efs@[i].1),
                None => false,
            }),
    }
}

/// Finds the first field named `key` in an object's field list.
fn obj_get<'a>(fields: &'a Vec<(String, JsonValue)>, key: &str) -> (r: Option<&'a JsonValue>)
    ensures
        match r {
            Some(v) => json_obj_get(fields@, key@) == Some(*v),
            None => json_obj_get(fields@, key@) is None,
        },
{
    let n = fields.len();
    let mut i: usize = 0;
    while i < n
        invariant
            n == fields@.len(),
            0 <= i <= n,
            forall|j: int| 0 <= j < i ==> fields@[j].0@ != key@,
        decreases n - i,
    {
        if str_eq(fields[i].0.as_str(), key) {
            proof {
                lemma_json_obj_get_at(fields@, key@, i as int);
            }
            return Some(&fields[i].1);
        }
        i += 1;
    }
    proof {
        lemma_json_obj_get_none(fields@, key@);
    }
    None
}

/// The first field with the key determines [`json_obj_get`].
proof fn lemma_json_obj_get_at(fields: Seq<(String, JsonValue)>, key: Seq<char>, i: int)
    requires
        0 <= i < fields.len(),
        fields[i].0@ == key,
        forall|j: int| 0 <= j < i ==> fields[j].0@ != key,
    ensures
        json_obj_get(fields, key) == Some(fields[i].1),
    decreases i,
{
    if i > 0 {
        let t = fields.drop_first();
        assert(forall|j: int| 0 <= j < t.len() ==> t[j] == fields[j + 1]);
        assert(t[i - 1] == fields[i]);
        assert forall|j: int| 0 <= j < i - 1 implies t[j].0@ != key by {
            assert(t[j] == fields[j + 1]);
        }
        lemma_json_obj_get_at(t, key, i - 1);
    }
}

/// Without the key, [`json_obj_get`] finds nothing.
proof fn lemma_json_obj_get_none(fields: Seq<(String, JsonValue)>, key: Seq<char>)
    requires
        forall|j: int| 0 <= j < fields.len() ==> fields[j].0@ != key,
    ensures
        json_obj_get(fields, key) is None,
    decreases fields.len(),
{
    if fields.len() > 0 {
        let t = fields.drop_first();
        assert(forall|j: int| 0 <= j < t.len() ==> t[j] == fields[j + 1]);
        lemma_json_obj_get_none(t, key);
    }
}

/// Checks whether `actual` matches `expected` under subset matching.
pub fn json_matches(actual: &JsonValue, expected: &JsonValue) -> (r: bool)
    ensures
        r == spec_json_matches(*actual, *expected),
    decreases *expected,
{
    match expected {
        JsonValue::Str(s) => {
            if str_eq(s.as_str(), "*") {
                true
            } else {
                match actual {
                    JsonValue::Str(a) => str_eq(a.as_str(), s.as_str()),
                    _ => false,
                }
            }
        },
        JsonValue::Null => matches!(actual, JsonValue::Null),
        JsonValue::Bool(b) => {
            match actual {
                JsonValue::Bool(ab) => *ab == *b,
                _ => false,
            }
        },
        JsonValue::Int(n) => {
            match actual {
                JsonValue::Int(an) => *an == *n,
                _ => false,
            }
        },
        JsonValue::Arr(evs) => {
            match actual {
                JsonValue::Arr(avs) => {
                    if avs.len() != evs.len() {
                        return false;
                    }
                    let n = evs.len();
                    let mut i: usize = 0;
                    while i < n
                        invariant
                            *expected == JsonValue::Arr(*evs),
                            *actual == JsonValue::Arr(*avs),
                            n == evs@.len() == avs@.len(),
                            0 <= i <= n,
                            forall|j: int|
                                0 <= j < i ==> spec_json_matches(avs@[j], #[trigger] evs@[j]),
                        decreases n - i,
                    {
                        proof {
                            assert(*expected == JsonValue::Arr(*evs));
                            assert(decreases_to!(*expected => (*expected)->Arr_0));
                            assert((*expected)->Arr_0 == *evs);
                            assert(decreases_to!(*evs => evs@));
                            assert(decreases_to!(evs@ => evs@[i as int]));
                        }
                        if !json_matches(&avs[i], &evs[i]) {
                            return false;
                        }
                        i += 1;
                    }
                    true
                },
                _ => false,
            }
        },
        JsonValue::Obj(efs) => {
            match actual {
                JsonValue::Obj(afs) => {
                    let n = efs.len();
                    let mut i: usize = 0;
                    while i < n
                        invariant
                            *expected == JsonValue::Obj(*efs),
                            *actual == JsonValue::Obj(*afs),
                            n == efs@.len(),
                            0 <= i <= n,
                            forall|j: int|
                                0 <= j < i ==> (match json_obj_get(
                                    afs@,
                                    (#[trigger] efs@[j]).0@,
                                ) {
                                    Some(av) => spec_json_matches(av, efs@[j].1),
                                    None => false,
                                }),
                        decreases n - i,
                    {
                        proof {
                            assert(*expected == JsonValue::Obj(*efs));
                            assert(decreases_to!(*expected => (*expected)->Obj_0));
                            assert((*expected)->Obj_0 == *efs);
                            assert(decreases_to!(*efs => efs@));
                            assert(decreases_to!(efs@ => efs@[i as int]));
                            assert(decreases_to!(efs@[i as int] => efs@[i as int].1));
                        }
                        match obj_get(afs, efs[i].0.as_str()) {
                            Some(av) => {
                                if !json_matches(av, &efs[i].1) {
                                    return false;
                                }
                            },
                            None => {
                                return false;
                            },
                        }
                        i += 1;
                    }
                    true
                },
                _ => false,
            }
        },
    }
}

} // verus!
