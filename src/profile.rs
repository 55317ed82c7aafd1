//! What a profile says about the values seen at one place of the documents,
//! and how a value changes it, as mathematical functions.
use vstd::prelude::*;

use crate::value::{find, keys_of, lemma_index_in, put, Json};

verus! {

broadcast use vstd::seq::group_seq_axioms;

/// The kind of a JSON value.
#[derive(Clone, Copy, Debug, PartialEq, Eq, Structural)]
pub enum JsonType {
    STRING,
    NUMBER,
    OBJECT,
    ARRAY,
    TRUE,
    FALSE,
    NULL,
}

pub open spec fn type_of(v: Json) -> JsonType {
    match v {
        Json::Str(_) => JsonType::STRING,
        Json::Num(_) => JsonType::NUMBER,
        Json::Obj(_) => JsonType::OBJECT,
        Json::Arr(_) => JsonType::ARRAY,
        Json::True => JsonType::TRUE,
        Json::False => JsonType::FALSE,
        Json::Null => JsonType::NULL,
    }
}

pub open spec fn is_complex(v: Json) -> bool {
    v is Obj || v is Arr
}

/// The set of the elements of a sequence.
pub open spec fn set_of<T>(s: Seq<T>) -> Set<T> {
    Set::new(|x: T| s.contains(x))
}

/// The summary of the values seen at one place.
pub struct Profile {
    /// The kinds of the values seen.
    pub types: Set<JsonType>,
    /// The number literals seen, in order.
    pub numbers: Seq<Seq<char>>,
    /// The distinct strings seen.
    pub strings: Set<Seq<char>>,
    pub shape: Shape,
}

/// What a profile of arrays or of objects adds.
pub enum Shape {
    /// The profile of the elements that are arrays, and of those that are objects.
    Array { arrays: Option<Box<Profile>>, objects: Option<Box<Profile>> },
    /// For each key with primitive values the kinds seen under it; for each key
    /// with arrays or objects their profile; the keys seen more than once.
    Object {
        primitives: Seq<(Seq<char>, Set<JsonType>)>,
        complex: Seq<(Seq<char>, Profile)>,
        nonobligatory: Set<Seq<char>>,
    },
}

pub open spec fn empty_array() -> Profile {
    Profile {
        types: Set::empty(),
        numbers: Seq::empty(),
        strings: Set::empty(),
        shape: Shape::Array { arrays: None, objects: None },
    }
}

pub open spec fn empty_object() -> Profile {
    Profile {
        types: Set::empty(),
        numbers: Seq::empty(),
        strings: Set::empty(),
        shape: Shape::Object {
            primitives: Seq::empty(),
            complex: Seq::empty(),
            nonobligatory: Set::empty(),
        },
    }
}

/// The kind of `v` is noted.
pub open spec fn with_type(p: Profile, v: Json) -> Profile {
    Profile { types: p.types.insert(type_of(v)), ..p }
}

/// A number's literal joins the numbers, a string joins the strings.
pub open spec fn record_primitive(p: Profile, v: Json) -> Profile {
    match v {
        Json::Num(t) => Profile { numbers: p.numbers.push(t), ..p },
        Json::Str(t) => Profile { strings: p.strings.insert(t), ..p },
        _ => p,
    }
}

/// A fresh profile for `v`: an object's or an array's profile from its
/// members or elements; for any other value, the profile of an array that
/// holds just that value.
pub open spec fn from_json(v: Json) -> Profile
    decreases v, 2int,
{
    match v {
        Json::Obj(m) => merge(empty_object(), v),
        Json::Arr(a) => merge(empty_array(), v),
        _ => record_primitive(with_type(empty_array(), v), v),
    }
}

/// `p` after `v`: an array merged into an array profile, or an object into an
/// object profile, adds each element or member; any other value is noted by
/// its kind and, for a number or a string, its content.
pub open spec fn merge(p: Profile, v: Json) -> Profile
    decreases v, 1int,
{
    match v {
        Json::Arr(a) => if p.shape is Array {
            merge_items(p, a, a.len() as int)
        } else {
            with_type(p, v)
        },
        Json::Obj(m) => if p.shape is Object {
            merge_members(p, m, m.len() as int)
        } else {
            with_type(p, v)
        },
        _ => record_primitive(with_type(p, v), v),
    }
}

/// The first `n` elements of `a` added to `p`, in order.
pub open spec fn merge_items(p: Profile, a: Seq<Json>, n: int) -> Profile
    decreases a, n,
{
    if n <= 0 || n > a.len() {
        p
    } else {
        item_step(merge_items(p, a, n - 1), a[n - 1])
    }
}

/// The first `n` members of `m` added to `p`, in order.
pub open spec fn merge_members(p: Profile, m: Seq<(Seq<char>, Json)>, n: int) -> Profile
    decreases m, n,
{
    if n <= 0 || n > m.len() {
        p
    } else {
        member_step(merge_members(p, m, n - 1), m[n - 1].0, m[n - 1].1)
    }
}

/// A nested profile after `x`: the one there takes it, or a fresh one starts.
pub open spec fn child(q: Option<Box<Profile>>, x: Json) -> Profile
    decreases x, 3int,
{
    match q {
        Some(b) => merge(*b, x),
        None => from_json(x),
    }
}

/// One element `x` added to an array profile.
pub open spec fn item_step(p: Profile, x: Json) -> Profile
    decreases x, 4int,
{
    let p1 = with_type(p, x);
    match p1.shape {
        Shape::Array { arrays, objects } => if x is Arr {
            Profile {
                shape: Shape::Array { arrays: Some(Box::new(child(arrays, x))), objects },
                ..p1
            }
        } else if x is Obj {
            Profile {
                shape: Shape::Array { arrays, objects: Some(Box::new(child(objects, x))) },
                ..p1
            }
        } else {
            record_primitive(p1, x)
        },
        _ => p1,
    }
}

/// One member `k`: `x` added to an object profile. A key met before, with
/// values of any kind, is marked nonobligatory.
pub open spec fn member_step(p: Profile, k: Seq<char>, x: Json) -> Profile
    decreases x, 4int,
{
    let p1 = with_type(p, x);
    match p1.shape {
        Shape::Object { primitives, complex, nonobligatory } => {
            let nonobligatory = if find(primitives, k) >= 0 || find(complex, k) >= 0 {
                nonobligatory.insert(k)
            } else {
                nonobligatory
            };
            if is_complex(x) {
                let i = find(complex, k);
                let q = if i >= 0 {
                    merge(complex[i].1, x)
                } else {
                    from_json(x)
                };
                Profile {
                    shape: Shape::Object { primitives, complex: put(complex, k, q), nonobligatory },
                    ..p1
                }
            } else {
                let i = find(primitives, k);
                let ts = if i >= 0 {
                    primitives[i].1
                } else {
                    Set::empty()
                };
                record_primitive(
                    Profile {
                        shape: Shape::Object {
                            primitives: put(primitives, k, ts.insert(type_of(x))),
                            complex,
                            nonobligatory,
                        },
                        ..p1
                    },
                    x,
                )
            }
        },
        _ => p1,
    }
}

/// `k` is a key of an object profile, with primitive values or not.
pub open spec fn known_key(p: Profile, k: Seq<char>) -> bool {
    keys_of(p.shape->Object_primitives).contains(k) || keys_of(p.shape->Object_complex).contains(k)
}

proof fn lemma_put_keys<V>(m: Seq<(Seq<char>, V)>, k: Seq<char>, v: V, j: Seq<char>)
    ensures
        keys_of(put(m, k, v)).contains(j) == (keys_of(m).contains(j) || j == k),
{
    lemma_index_in(keys_of(m), k);
    let i = find(m, k);
    if i >= 0 {
        assert(keys_of(put(m, k, v)) =~= keys_of(m));
    } else {
        assert(keys_of(put(m, k, v)) =~= keys_of(m).push(k));
        assert(keys_of(m).push(k)[keys_of(m).len() as int] == k);
        if keys_of(m).contains(j) {
            let t = choose|t: int| 0 <= t < keys_of(m).len() && keys_of(m)[t] == j;
            assert(keys_of(m).push(k)[t] == j);
        }
    }
}

/// The profile after the first `n` members: it holds the keys it held and
/// those of the members, and marks a member's key where the profile held it
/// before.
proof fn lemma_recurring_prefix(p: Profile, m: Seq<(Seq<char>, Json)>, n: int, k: Seq<char>)
    requires
        p.shape is Object,
        keys_of(m).no_duplicates(),
        0 <= n <= m.len(),
    ensures
        merge_members(p, m, n).shape is Object,
        known_key(merge_members(p, m, n), k) == (known_key(p, k) || keys_of(m).take(n).contains(
            k,
        )),
        merge_members(p, m, n).shape->Object_nonobligatory.contains(k) == (
        p.shape->Object_nonobligatory.contains(k) || (keys_of(m).take(n).contains(k)
            && known_key(p, k))),
    decreases n,
{
    if n > 0 {
        let q = merge_members(p, m, n - 1);
        let kk = m[n - 1].0;
        let x = m[n - 1].1;
        lemma_recurring_prefix(p, m, n - 1, k);
        lemma_recurring_prefix(p, m, n - 1, kk);
        let prims = q.shape->Object_primitives;
        let complex = q.shape->Object_complex;
        lemma_index_in(keys_of(prims), kk);
        lemma_index_in(keys_of(complex), kk);
        let r = member_step(q, kk, x);
        assert(r == merge_members(p, m, n));
        let km = keys_of(m);
        let pre = km.take(n - 1);
        let cur = km.take(n);
        assert(cur =~= pre.push(kk));
        assert(km[n - 1] == kk);
        assert(!pre.contains(kk)) by {
            if pre.contains(kk) {
                let t = choose|t: int| 0 <= t < pre.len() && #[trigger] pre[t] == kk;
                assert(km[t] == km[n - 1]);
            }
        }
        assert(cur.contains(k) == (pre.contains(k) || k == kk)) by {
            if cur.contains(k) && k != kk {
                let t = choose|t: int| 0 <= t < cur.len() && #[trigger] cur[t] == k;
                assert(pre[t] == k);
            }
            if pre.contains(k) {
                let t = choose|t: int| 0 <= t < pre.len() && #[trigger] pre[t] == k;
                assert(cur[t] == k);
            }
            if k == kk {
                assert(cur[n - 1] == k);
            }
        }
        if is_complex(x) {
            let i = find(complex, kk);
            let c = if i >= 0 {
                merge(complex[i].1, x)
            } else {
                from_json(x)
            };
            lemma_put_keys(complex, kk, c, k);
        } else {
            let i = find(prims, kk);
            let ts = if i >= 0 {
                prims[i].1
            } else {
                Set::empty()
            };
            lemma_put_keys(prims, kk, ts.insert(type_of(x)), k);
        }
    }
}

/// The rule for keys that are likely not obligatory: merging an object whose
/// keys are distinct into a profile of objects marks exactly the keys marked
/// before and the object's keys that the profile already held, whatever the
/// kinds of their values.
pub proof fn lemma_recurring_keys(p: Profile, m: Seq<(Seq<char>, Json)>, k: Seq<char>)
    requires
        p.shape is Object,
        keys_of(m).no_duplicates(),
    ensures
        merge(p, Json::Obj(m)).shape->Object_nonobligatory.contains(k) == (
        p.shape->Object_nonobligatory.contains(k) || (keys_of(m).contains(k) && known_key(p, k))),
        known_key(merge(p, Json::Obj(m)), k) == (known_key(p, k) || keys_of(m).contains(k)),
{
    lemma_recurring_prefix(p, m, m.len() as int, k);
    assert(keys_of(m).take(m.len() as int) =~= keys_of(m));
}

} // verus!
