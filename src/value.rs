//! JSON values, their mathematical model, and parse errors.
use vstd::prelude::*;

verus! {

broadcast use vstd::std_specs::vec::group_vec_axioms;

/// A parsed JSON value. Numbers keep the exact text of their literal, strings
/// the text between their quotes as written, escape sequences included. An
/// object lists its members in the order their keys first appear, each key
/// once.
#[derive(Debug, PartialEq)]
pub enum JsonValue {
    STRING(String),
    NUMBER(String),
    OBJECT(Vec<(String, JsonValue)>),
    ARRAY(Vec<JsonValue>),
    TRUE,
    FALSE,
    NULL,
}

/// Mathematical model of a JSON value.
pub enum Json {
    Str(Seq<char>),
    Num(Seq<char>),
    Obj(Seq<(Seq<char>, Json)>),
    Arr(Seq<Json>),
    True,
    False,
    Null,
}

impl JsonValue {
    /// The model of this value, nested values included.
    pub open spec fn deep(&self) -> Json
        decreases self,
    {
        match self {
            JsonValue::STRING(s) => Json::Str(s@),
            JsonValue::NUMBER(s) => Json::Num(s@),
            JsonValue::OBJECT(m) => Json::Obj(
                Seq::new(
                    m.len() as nat,
                    |i: int|
                        if 0 <= i < m.len() {
                            (m[i].0@, m[i].1.deep())
                        } else {
                            (Seq::empty(), Json::Null)
                        },
                ),
            ),
            JsonValue::ARRAY(v) => Json::Arr(
                Seq::new(
                    v.len() as nat,
                    |i: int|
                        if 0 <= i < v.len() {
                            v[i].deep()
                        } else {
                            Json::Null
                        },
                ),
            ),
            JsonValue::TRUE => Json::True,
            JsonValue::FALSE => Json::False,
            JsonValue::NULL => Json::Null,
        }
    }
}

/// The models of a sequence of values.
pub open spec fn deep_items(v: Seq<JsonValue>) -> Seq<Json> {
    v.map_values(|x: JsonValue| x.deep())
}

/// The models of a sequence of members.
pub open spec fn deep_members(m: Seq<(String, JsonValue)>) -> Seq<(Seq<char>, Json)> {
    m.map_values(|p: (String, JsonValue)| (p.0@, p.1.deep()))
}

/// Where parsing stopped and why.
#[derive(Debug)]
pub struct ParseError {
    pub row: usize,
    pub col: usize,
    pub msg: String,
}

/// The keys of an association list, in order.
pub open spec fn keys_of<V>(m: Seq<(Seq<char>, V)>) -> Seq<Seq<char>> {
    m.map_values(|p: (Seq<char>, V)| p.0)
}

/// Position of the last occurrence of `k` in `keys`, or -1.
pub open spec fn index_in(keys: Seq<Seq<char>>, k: Seq<char>) -> int
    decreases keys.len(),
{
    if keys.len() == 0 {
        -1
    } else if keys.last() == k {
        keys.len() - 1
    } else {
        index_in(keys.drop_last(), k)
    }
}

/// Position of key `k` in an association list, or -1.
pub open spec fn find<V>(m: Seq<(Seq<char>, V)>, k: Seq<char>) -> int {
    index_in(keys_of(m), k)
}

/// `k` takes value `v`: in its place where it is there, at the end otherwise.
pub open spec fn put<V>(m: Seq<(Seq<char>, V)>, k: Seq<char>, v: V) -> Seq<(Seq<char>, V)> {
    let i = find(m, k);
    if i >= 0 {
        m.update(i, (k, v))
    } else {
        m.push((k, v))
    }
}

/// Where `index_in` finds a key, and that it finds every key there is.
pub(crate) proof fn lemma_index_in(keys: Seq<Seq<char>>, k: Seq<char>)
    ensures
        (index_in(keys, k) >= 0) == keys.contains(k),
        index_in(keys, k) >= 0 ==> index_in(keys, k) < keys.len() && keys[index_in(keys, k)] == k,
    decreases keys.len(),
{
    if keys.len() > 0 && keys.last() != k {
        lemma_index_in(keys.drop_last(), k);
        if keys.contains(k) {
            let j = choose|j: int| 0 <= j < keys.len() && #[trigger] keys[j] == k;
            assert(keys.drop_last()[j] == k);
        }
        if keys.drop_last().contains(k) {
            let j = choose|j: int| 0 <= j < keys.drop_last().len() && #[trigger] keys.drop_last()[j] == k;
            assert(keys[j] == k);
        }
    } else if keys.len() > 0 {
        assert(keys[keys.len() - 1] == k);
    }
}

/// Putting a member keeps the keys distinct.
pub proof fn lemma_put_distinct<V>(m: Seq<(Seq<char>, V)>, k: Seq<char>, v: V)
    requires
        keys_of(m).no_duplicates(),
    ensures
        keys_of(put(m, k, v)).no_duplicates(),
{
    lemma_index_in(keys_of(m), k);
    if find(m, k) >= 0 {
        assert(keys_of(put(m, k, v)) =~= keys_of(m));
    } else {
        assert(keys_of(put(m, k, v)) =~= keys_of(m).push(k));
    }
}

/// Puts a member into an object's list of members: an existing key takes the
/// new value in its place, a new key goes at the end.
pub fn put_member(m: &mut Vec<(String, JsonValue)>, key: String, v: JsonValue)
    ensures
        deep_members(final(m)@) == put(deep_members(old(m)@), key@, v.deep()),
{
    let ghost dm = deep_members(m@);
    let ghost keys = keys_of(dm);
    let mut i: usize = m.len();
    assert(keys.take(i as int) =~= keys);
    while i > 0
        invariant
            i <= m.len(),
            m@ == old(m)@,
            dm == deep_members(m@),
            keys == keys_of(dm),
            index_in(keys, key@) == index_in(keys.take(i as int), key@),
        decreases i,
    {
        assert(keys.take(i as int).drop_last() =~= keys.take(i - 1));
        if m[i - 1].0 == key {
            let ghost kv = key@;
            let ghost vv = v.deep();
            m.set(i - 1, (key, v));
            assert(deep_members(m@) =~= dm.update(i - 1, (kv, vv)));
            return;
        }
        i = i - 1;
    }
    let ghost kv = key@;
    let ghost vv = v.deep();
    m.push((key, v));
    assert(deep_members(m@) =~= dm.push((kv, vv)));
}

} // verus!
