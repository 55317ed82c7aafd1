//! Profiles of JSON documents: which kinds of values occur at each place,
//! the numbers and strings seen there, and for objects which keys recur.
use vstd::prelude::*;

use crate::profile::{
    child, empty_array, empty_object, from_json, item_step, member_step, merge, merge_items,
    merge_members, record_primitive, set_of, type_of, with_type, JsonType, Profile, Shape,
};
use crate::value::{deep_items, deep_members, index_in, keys_of, Json, JsonValue};

verus! {

broadcast use vstd::std_specs::vec::group_vec_axioms;

/// The profile of the values seen at one place.
pub struct JsonComplexTypeStats {
    values_types: Vec<JsonType>,
    numbers: Vec<String>,
    strings: Vec<String>,
    type_stats: JsonSpecificTypeStats,
}

/// What a profile of arrays or of objects adds.
pub enum JsonSpecificTypeStats {
    ARRAY(Box<JsonArrayStats>),
    OBJECT(Box<JsonObjectStats>),
}

/// The profiles of the elements that are arrays and of those that are objects.
pub struct JsonArrayStats {
    inner_arrays_stats: Option<Box<JsonComplexTypeStats>>,
    inner_objects_stats: Option<Box<JsonComplexTypeStats>>,
}

/// Per key: the kinds of its primitive values, or the profile of its arrays
/// and objects; and the keys met more than once.
pub struct JsonObjectStats {
    primitives_keys: Vec<(String, Vec<JsonType>)>,
    complex_stats: Vec<(String, JsonComplexTypeStats)>,
    nonobligatory: Vec<String>,
}

/// The contents of a sequence of strings.
pub open spec fn views(v: Seq<String>) -> Seq<Seq<char>> {
    v.map_values(|x: String| x@)
}

/// The keys of a list of pairs.
pub open spec fn key_views<V>(m: Seq<(String, V)>) -> Seq<Seq<char>> {
    m.map_values(|p: (String, V)| p.0@)
}

/// The model of a nested profile, where there is one.
pub open spec fn model_of(b: Option<Box<JsonComplexTypeStats>>) -> Option<Box<Profile>> {
    match b {
        Some(s) => Some(Box::new(s.model())),
        None => None,
    }
}

impl JsonComplexTypeStats {
    /// What this profile says, as a mathematical value.
    pub closed spec fn model(&self) -> Profile
        decreases self,
    {
        Profile {
            types: set_of(self.values_types@),
            numbers: views(self.numbers@),
            strings: set_of(views(self.strings@)),
            shape: match self.type_stats {
                JsonSpecificTypeStats::ARRAY(a) => Shape::Array {
                    arrays: match a.inner_arrays_stats {
                        Some(s) => Some(Box::new(s.model())),
                        None => None,
                    },
                    objects: match a.inner_objects_stats {
                        Some(s) => Some(Box::new(s.model())),
                        None => None,
                    },
                },
                JsonSpecificTypeStats::OBJECT(o) => Shape::Object {
                    primitives: Seq::new(
                        o.primitives_keys.len() as nat,
                        |i: int|
                            if 0 <= i < o.primitives_keys.len() {
                                (o.primitives_keys[i].0@, set_of(o.primitives_keys[i].1@))
                            } else {
                                (Seq::empty(), Set::empty())
                            },
                    ),
                    complex: Seq::new(
                        o.complex_stats.len() as nat,
                        |i: int|
                            if 0 <= i < o.complex_stats.len() {
                                (o.complex_stats[i].0@, o.complex_stats[i].1.model())
                            } else {
                                (Seq::empty(), empty_array())
                            },
                    ),
                    nonobligatory: set_of(views(o.nonobligatory@)),
                },
            },
        }
    }
}

fn type_of_value(v: &JsonValue) -> (r: JsonType)
    ensures
        r == type_of(v.deep()),
{
    match v {
        JsonValue::STRING(_) => JsonType::STRING,
        JsonValue::NUMBER(_) => JsonType::NUMBER,
        JsonValue::OBJECT(_) => JsonType::OBJECT,
        JsonValue::ARRAY(_) => JsonType::ARRAY,
        JsonValue::TRUE => JsonType::TRUE,
        JsonValue::FALSE => JsonType::FALSE,
        JsonValue::NULL => JsonType::NULL,
    }
}

fn add_type(types: &mut Vec<JsonType>, t: JsonType)
    ensures
        set_of(final(types)@) == set_of(old(types)@).insert(t),
{
    let mut i: usize = 0;
    while i < types.len()
        invariant
            i <= types.len(),
            types@ == old(types)@,
            forall|j: int| 0 <= j < i ==> types@[j] != t,
        decreases types.len() - i,
    {
        if types[i] == t {
            assert(set_of(types@).insert(t) =~= set_of(types@));
            return;
        }
        i = i + 1;
    }
    types.push(t);
    assert(set_of(types@) =~= set_of(old(types)@).insert(t)) by {
        assert(types@.last() == t);
        assert forall|x: JsonType| old(types)@.contains(x) implies types@.contains(x) by {
            let j = choose|j: int| 0 <= j < old(types)@.len() && old(types)@[j] == x;
            assert(types@[j] == x);
        }
    }
}

fn add_string(strings: &mut Vec<String>, s: &String)
    ensures
        set_of(views(final(strings)@)) == set_of(views(old(strings)@)).insert(s@),
{
    let mut i: usize = 0;
    while i < strings.len()
        invariant
            i <= strings.len(),
            strings@ == old(strings)@,
        decreases strings.len() - i,
    {
        if strings[i] == *s {
            assert(views(strings@)[i as int] == s@);
            assert(set_of(views(strings@)).insert(s@) =~= set_of(views(strings@)));
            return;
        }
        i = i + 1;
    }
    strings.push(s.clone());
    let ghost vs = views(strings@);
    let ghost olds = views(old(strings)@);
    assert(vs =~= olds.push(s@));
    assert(set_of(vs) =~= set_of(olds).insert(s@)) by {
        assert(vs.last() == s@);
        assert forall|x: Seq<char>| olds.contains(x) implies vs.contains(x) by {
            let j = choose|j: int| 0 <= j < olds.len() && olds[j] == x;
            assert(vs[j] == x);
        }
    }
}

/// Where key `k` stands in the list of pairs `m`.
fn find_key<V>(m: &Vec<(String, V)>, k: &String) -> (r: Option<usize>)
    ensures
        match r {
            Some(i) => i == index_in(key_views(m@), k@) && i < m.len() && m@[i as int].0@ == k@,
            None => index_in(key_views(m@), k@) == -1,
        },
{
    let ghost keys = key_views(m@);
    let mut i: usize = m.len();
    assert(keys.take(i as int) =~= keys);
    while i > 0
        invariant
            i <= m.len(),
            keys == key_views(m@),
            index_in(keys, k@) == index_in(keys.take(i as int), k@),
        decreases i,
    {
        assert(keys.take(i as int).drop_last() =~= keys.take(i - 1));
        if m[i - 1].0 == *k {
            return Some(i - 1);
        }
        i = i - 1;
    }
    None
}

/// A number's literal joins `numbers`, a string joins `strings`.
fn record_value(numbers: &mut Vec<String>, strings: &mut Vec<String>, v: &JsonValue)
    ensures
        ({
            let p = Profile {
                types: Set::empty(),
                numbers: views(old(numbers)@),
                strings: set_of(views(old(strings)@)),
                shape: Shape::Array { arrays: None, objects: None },
            };
            let q = record_primitive(p, v.deep());
            &&& views(final(numbers)@) == q.numbers
            &&& set_of(views(final(strings)@)) == q.strings
        }),
{
    match v {
        JsonValue::NUMBER(t) => {
            numbers.push(t.clone());
            assert(views(numbers@) =~= views(old(numbers)@).push(t@));
        },
        JsonValue::STRING(t) => {
            add_string(strings, t);
        },
        _ => {},
    }
}

impl JsonComplexTypeStats {
    /// An empty profile of arrays.
    pub fn array() -> (r: Self)
        ensures
            r.model() == empty_array(),
    {
        let r = JsonComplexTypeStats {
            values_types: Vec::new(),
            numbers: Vec::new(),
            strings: Vec::new(),
            type_stats: JsonSpecificTypeStats::ARRAY(
                Box::new(JsonArrayStats { inner_arrays_stats: None, inner_objects_stats: None }),
            ),
        };
        assert(r.model().types =~= Set::empty());
        assert(r.model().numbers =~= Seq::empty());
        assert(r.model().strings =~= Set::empty());
        r
    }

    /// An empty profile of objects.
    pub fn object() -> (r: Self)
        ensures
            r.model() == empty_object(),
    {
        let r = JsonComplexTypeStats {
            values_types: Vec::new(),
            numbers: Vec::new(),
            strings: Vec::new(),
            type_stats: JsonSpecificTypeStats::OBJECT(
                Box::new(
                    JsonObjectStats {
                        primitives_keys: Vec::new(),
                        complex_stats: Vec::new(),
                        nonobligatory: Vec::new(),
                    },
                ),
            ),
        };
        assert(r.model().types =~= Set::empty());
        assert(r.model().numbers =~= Seq::empty());
        assert(r.model().strings =~= Set::empty());
        assert(r.model().shape->Object_primitives =~= Seq::empty());
        assert(r.model().shape->Object_complex =~= Seq::empty());
        assert(r.model().shape->Object_nonobligatory =~= Set::empty());
        r
    }

    pub fn is_array_type(&self) -> (r: bool)
        ensures
            r == self.model().shape is Array,
    {
        match self.type_stats {
            JsonSpecificTypeStats::ARRAY(_) => true,
            _ => false,
        }
    }

    pub fn is_object_type(&self) -> (r: bool)
        ensures
            r == self.model().shape is Object,
    {
        match self.type_stats {
            JsonSpecificTypeStats::OBJECT(_) => true,
            _ => false,
        }
    }

    /// The kind of `v` noted, and a number's or a string's content.
    fn noted(self, v: &JsonValue) -> (r: Self)
        ensures
            r.model() == record_primitive(with_type(self.model(), v.deep()), v.deep()),
    {
        let JsonComplexTypeStats { mut values_types, mut numbers, mut strings, type_stats } = self;
        add_type(&mut values_types, type_of_value(v));
        record_value(&mut numbers, &mut strings, v);
        let r = JsonComplexTypeStats { values_types, numbers, strings, type_stats };
        proof {
            let q = record_primitive(with_type(self.model(), v.deep()), v.deep());
            assert(r.model().types == q.types);
            assert(r.model().numbers == q.numbers);
            assert(r.model().strings == q.strings);
            assert(r.model().shape == q.shape);
        }
        r
    }

    /// A fresh profile for `v`.
    fn from_value(v: &JsonValue) -> (r: Self)
        ensures
            r.model() == from_json(v.deep()),
        decreases v.deep(), 2int,
    {
        match v {
            JsonValue::OBJECT(_) => Self::object().merge_value(v),
            JsonValue::ARRAY(_) => Self::array().merge_value(v),
            _ => Self::array().noted(v),
        }
    }

    /// The nested profile `q` after `x`.
    fn child(q: Option<Box<Self>>, x: &JsonValue) -> (r: Self)
        ensures
            r.model() == child(model_of(q), x.deep()),
        decreases x.deep(), 3int,
    {
        match q {
            Some(b) => (*b).merge_value(x),
            None => Self::from_value(x),
        }
    }

    /// `v` merged into this profile.
    fn merge_value(self, v: &JsonValue) -> (r: Self)
        ensures
            r.model() == merge(self.model(), v.deep()),
        decreases v.deep(), 1int,
    {
        match v {
            JsonValue::ARRAY(a) => {
                if !self.is_array_type() {
                    return self.noted(v);
                }
                let ghost items = v.deep()->Arr_0;
                let mut st = self;
                let mut i: usize = 0;
                while i < a.len()
                    invariant
                        i <= a.len(),
                        items == v.deep()->Arr_0,
                        v.deep() is Arr,
                        items.len() == a.len(),
                        forall|j: int| 0 <= j < a.len() ==> items[j] == a[j].deep(),
                        st.model() == merge_items(self.model(), items, i as int),
                    decreases a.len() - i,
                {
                    proof {
                        let d = v.deep();
                        assert(d is Arr);
                        assert(decreases_to!(d => d->Arr_0));
                        assert(decreases_to!(items => items[i as int]));
                    }
                    st = st.item_step(&a[i]);
                    i = i + 1;
                }
                st
            },
            JsonValue::OBJECT(m) => {
                if !self.is_object_type() {
                    return self.noted(v);
                }
                let ghost members = v.deep()->Obj_0;
                let mut st = self;
                let mut i: usize = 0;
                while i < m.len()
                    invariant
                        i <= m.len(),
                        members == v.deep()->Obj_0,
                        v.deep() is Obj,
                        members.len() == m.len(),
                        forall|j: int|
                            0 <= j < m.len() ==> members[j] == (m[j].0@, m[j].1.deep()),
                        st.model() == merge_members(self.model(), members, i as int),
                    decreases m.len() - i,
                {
                    proof {
                        let d = v.deep();
                        assert(d is Obj);
                        assert(decreases_to!(d => d->Obj_0));
                        assert(decreases_to!(members => members[i as int]));
                        assert(decreases_to!(members[i as int] => members[i as int].1));
                    }
                    st = st.member_step(&m[i].0, &m[i].1);
                    i = i + 1;
                }
                st
            },
            _ => self.noted(v),
        }
    }

    /// One element added to a profile of arrays.
    fn item_step(self, x: &JsonValue) -> (r: Self)
        ensures
            r.model() == item_step(self.model(), x.deep()),
        decreases x.deep(), 4int,
    {
        let JsonComplexTypeStats { mut values_types, mut numbers, mut strings, type_stats } = self;
        add_type(&mut values_types, type_of_value(x));
        match type_stats {
            JsonSpecificTypeStats::ARRAY(b) => {
                let JsonArrayStats { inner_arrays_stats, inner_objects_stats } = *b;
                let shape = match x {
                    JsonValue::ARRAY(_) => {
                        let c = Self::child(inner_arrays_stats, x);
                        JsonArrayStats {
                            inner_arrays_stats: Some(Box::new(c)),
                            inner_objects_stats,
                        }
                    },
                    JsonValue::OBJECT(_) => {
                        let c = Self::child(inner_objects_stats, x);
                        JsonArrayStats {
                            inner_arrays_stats,
                            inner_objects_stats: Some(Box::new(c)),
                        }
                    },
                    _ => {
                        record_value(&mut numbers, &mut strings, x);
                        JsonArrayStats { inner_arrays_stats, inner_objects_stats }
                    },
                };
                JsonComplexTypeStats {
                    values_types,
                    numbers,
                    strings,
                    type_stats: JsonSpecificTypeStats::ARRAY(Box::new(shape)),
                }
            },
            JsonSpecificTypeStats::OBJECT(b) => JsonComplexTypeStats {
                values_types,
                numbers,
                strings,
                type_stats: JsonSpecificTypeStats::OBJECT(b),
            },
        }
    }

    /// One member added to a profile of objects.
    fn member_step(self, k: &String, x: &JsonValue) -> (r: Self)
        ensures
            r.model() == member_step(self.model(), k@, x.deep()),
        decreases x.deep(), 4int,
    {
        let JsonComplexTypeStats { mut values_types, mut numbers, mut strings, type_stats } = self;
        add_type(&mut values_types, type_of_value(x));
        match type_stats {
            JsonSpecificTypeStats::OBJECT(b) => {
                let JsonObjectStats { mut primitives_keys, mut complex_stats, mut nonobligatory } =
                    *b;
                let ghost old_prims = self.model().shape->Object_primitives;
                let ghost old_complex = self.model().shape->Object_complex;
                assert(keys_of(old_prims) =~= key_views(primitives_keys@));
                assert(keys_of(old_complex) =~= key_views(complex_stats@));
                let pi = find_key(&primitives_keys, k);
                let ci = find_key(&complex_stats, k);
                if pi.is_some() || ci.is_some() {
                    add_string(&mut nonobligatory, k);
                }
                match x {
                    JsonValue::ARRAY(_) | JsonValue::OBJECT(_) => {
                        match ci {
                            Some(i) => {
                                let ghost before = complex_stats@;
                                let (key, st) = complex_stats.remove(i);
                                let st2 = st.merge_value(x);
                                let ghost entry = (key, st2);
                                complex_stats.insert(i, (key, st2));
                                assert(complex_stats@ =~= before.update(i as int, entry));
                            },
                            None => {
                                let st = Self::from_value(x);
                                complex_stats.push((k.clone(), st));
                            },
                        }
                    },
                    _ => {
                        let t = type_of_value(x);
                        match pi {
                            Some(i) => {
                                let ghost before = primitives_keys@;
                                let (key, mut ts) = primitives_keys.remove(i);
                                add_type(&mut ts, t);
                                let ghost entry = (key, ts);
                                primitives_keys.insert(i, (key, ts));
                                assert(primitives_keys@ =~= before.update(i as int, entry));
                            },
                            None => {
                                let mut ts: Vec<JsonType> = Vec::new();
                                assert(set_of(ts@) =~= Set::<JsonType>::empty());
                                add_type(&mut ts, t);
                                primitives_keys.push((k.clone(), ts));
                            },
                        }
                        record_value(&mut numbers, &mut strings, x);
                    },
                }
                let r = JsonComplexTypeStats {
                    values_types,
                    numbers,
                    strings,
                    type_stats: JsonSpecificTypeStats::OBJECT(
                        Box::new(JsonObjectStats { primitives_keys, complex_stats, nonobligatory }),
                    ),
                };
                proof {
                    let q = member_step(self.model(), k@, x.deep());
                    assert(r.model().types == q.types);
                    assert(r.model().numbers == q.numbers);
                    assert(r.model().strings == q.strings);
                    assert(r.model().shape->Object_nonobligatory
                        == q.shape->Object_nonobligatory);
                    assert(r.model().shape->Object_primitives =~= q.shape->Object_primitives);
                    assert(r.model().shape->Object_complex =~= q.shape->Object_complex);
                }
                r
            },
            JsonSpecificTypeStats::ARRAY(b) => JsonComplexTypeStats {
                values_types,
                numbers,
                strings,
                type_stats: JsonSpecificTypeStats::ARRAY(b),
            },
        }
    }
}

impl JsonComplexTypeStats {
    /// The profile of an object's members.
    pub fn from_object(object: Vec<(String, JsonValue)>) -> (r: Self)
        ensures
            r.model() == merge(empty_object(), Json::Obj(deep_members(object@))),
    {
        let v = JsonValue::OBJECT(object);
        assert(v.deep() == Json::Obj(deep_members(object@))) by {
            assert(v.deep()->Obj_0 =~= deep_members(object@));
        }
        Self::object().merge_value(&v)
    }

    /// The profile of an array's elements.
    pub fn from_array(array: Vec<JsonValue>) -> (r: Self)
        ensures
            r.model() == merge(empty_array(), Json::Arr(deep_items(array@))),
    {
        let v = JsonValue::ARRAY(array);
        assert(v.deep() == Json::Arr(deep_items(array@))) by {
            assert(v.deep()->Arr_0 =~= deep_items(array@));
        }
        Self::array().merge_value(&v)
    }

    /// This profile after `value`: an array merged into a profile of arrays,
    /// or an object into a profile of objects, adds its elements or members;
    /// any other value is noted by its kind, and by its content where it is a
    /// number or a string.
    pub fn merge_stats(self, value: JsonValue) -> (r: Self)
        ensures
            r.model() == merge(self.model(), value.deep()),
    {
        self.merge_value(&value)
    }

    /// A fresh profile for a document: of an object or of an array by what it
    /// holds; any other value makes the profile of an array that holds it.
    pub fn from_json(json: JsonValue) -> (r: Self)
        ensures
            r.model() == from_json(json.deep()),
    {
        Self::from_value(&json)
    }

    /// The kinds of the values seen, each once.
    pub fn value_types(&self) -> (r: &Vec<JsonType>)
        ensures
            set_of(r@) == self.model().types,
    {
        &self.values_types
    }

    /// The literals of the numbers seen, in order.
    pub fn number_literals(&self) -> (r: &Vec<String>)
        ensures
            views(r@) == self.model().numbers,
    {
        &self.numbers
    }

    /// The distinct strings seen.
    pub fn strings(&self) -> (r: &Vec<String>)
        ensures
            set_of(views(r@)) == self.model().strings,
    {
        &self.strings
    }

    /// The profile of the elements that are arrays, in a profile of arrays.
    pub fn inner_arrays(&self) -> (r: Option<&JsonComplexTypeStats>)
        ensures
            match self.model().shape {
                Shape::Array { arrays, .. } => match arrays {
                    Some(p) => r is Some && r->0.model() == *p,
                    None => r is None,
                },
                _ => r is None,
            },
    {
        match &self.type_stats {
            JsonSpecificTypeStats::ARRAY(a) => match &a.inner_arrays_stats {
                Some(b) => Some(&**b),
                None => None,
            },
            _ => None,
        }
    }

    /// The profile of the elements that are objects, in a profile of arrays.
    pub fn inner_objects(&self) -> (r: Option<&JsonComplexTypeStats>)
        ensures
            match self.model().shape {
                Shape::Array { objects, .. } => match objects {
                    Some(p) => r is Some && r->0.model() == *p,
                    None => r is None,
                },
                _ => r is None,
            },
    {
        match &self.type_stats {
            JsonSpecificTypeStats::ARRAY(a) => match &a.inner_objects_stats {
                Some(b) => Some(&**b),
                None => None,
            },
            _ => None,
        }
    }

    /// In a profile of objects: each key with primitive values and the kinds
    /// seen under it.
    pub fn primitive_keys(&self) -> (r: Option<&Vec<(String, Vec<JsonType>)>>)
        ensures
            match self.model().shape {
                Shape::Object { primitives, .. } => r is Some && r->0.len() == primitives.len()
                    && forall|i: int|
                    0 <= i < primitives.len() ==> (#[trigger] r->0@[i]).0@ == primitives[i].0
                        && set_of(r->0@[i].1@) == primitives[i].1,
                _ => r is None,
            },
    {
        match &self.type_stats {
            JsonSpecificTypeStats::OBJECT(o) => Some(&o.primitives_keys),
            _ => None,
        }
    }

    /// In a profile of objects: each key with arrays or objects as values and
    /// their profile.
    pub fn complex_keys(&self) -> (r: Option<&Vec<(String, JsonComplexTypeStats)>>)
        ensures
            match self.model().shape {
                Shape::Object { complex, .. } => r is Some && r->0.len() == complex.len()
                    && forall|i: int|
                    0 <= i < complex.len() ==> (#[trigger] r->0@[i]).0@ == complex[i].0
                        && r->0@[i].1.model() == complex[i].1,
                _ => r is None,
            },
    {
        match &self.type_stats {
            JsonSpecificTypeStats::OBJECT(o) => Some(&o.complex_stats),
            _ => None,
        }
    }

    /// In a profile of objects: the keys that are likely nonobligatory.
    pub fn nonobligatory(&self) -> (r: Option<&Vec<String>>)
        ensures
            match self.model().shape {
                Shape::Object { nonobligatory, .. } => r is Some && set_of(views(r->0@))
                    == nonobligatory,
                _ => r is None,
            },
    {
        match &self.type_stats {
            JsonSpecificTypeStats::OBJECT(o) => Some(&o.nonobligatory),
            _ => None,
        }
    }

    /// In a profile of objects: the keys that are likely mandatory, each once.
    /// They are the keys seen, with primitive values or not, that are not
    /// nonobligatory.
    pub fn mandatory_keys(&self) -> (r: Vec<String>)
        ensures
            match self.model().shape {
                Shape::Object { primitives, complex, nonobligatory } => set_of(views(r@)) == set_of(
                    keys_of(primitives),
                ).union(set_of(keys_of(complex))).difference(nonobligatory),
                _ => r@.len() == 0,
            },
    {
        let mut out: Vec<String> = Vec::new();
        match &self.type_stats {
            JsonSpecificTypeStats::OBJECT(o) => {
                let ghost prims = self.model().shape->Object_primitives;
                let ghost complex = self.model().shape->Object_complex;
                let ghost non = self.model().shape->Object_nonobligatory;
                let ghost pk = set_of(keys_of(prims));
                let ghost ck = set_of(keys_of(complex));
                assert(keys_of(prims) =~= key_views(o.primitives_keys@));
                assert(keys_of(complex) =~= key_views(o.complex_stats@));
                let mut i: usize = 0;
                while i < o.primitives_keys.len()
                    invariant
                        i <= o.primitives_keys.len(),
                        keys_of(prims) == key_views(o.primitives_keys@),
                        non == set_of(views(o.nonobligatory@)),
                        set_of(views(out@)) == set_of(keys_of(prims).take(i as int)).difference(
                            non,
                        ),
                    decreases o.primitives_keys.len() - i,
                {
                    let k = &o.primitives_keys[i].0;
                    let ghost before = set_of(views(out@));
                    if !contains_string(&o.nonobligatory, k) {
                        add_string(&mut out, k);
                    }
                    assert(set_of(keys_of(prims).take(i + 1)) =~= set_of(
                        keys_of(prims).take(i as int),
                    ).insert(k@)) by {
                        assert(keys_of(prims).take(i + 1) =~= keys_of(prims).take(i as int).push(
                            k@,
                        ));
                        lemma_set_of_push(keys_of(prims).take(i as int), k@);
                    }
                    assert(set_of(views(out@)) =~= set_of(keys_of(prims).take(i + 1)).difference(
                        non,
                    ));
                    i = i + 1;
                }
                assert(keys_of(prims).take(i as int) =~= keys_of(prims));
                let mut j: usize = 0;
                while j < o.complex_stats.len()
                    invariant
                        j <= o.complex_stats.len(),
                        keys_of(complex) == key_views(o.complex_stats@),
                        non == set_of(views(o.nonobligatory@)),
                        set_of(views(out@)) == pk.union(set_of(keys_of(complex).take(j as int))).difference(
                            non,
                        ),
                    decreases o.complex_stats.len() - j,
                {
                    let k = &o.complex_stats[j].0;
                    if !contains_string(&o.nonobligatory, k) {
                        add_string(&mut out, k);
                    }
                    assert(set_of(keys_of(complex).take(j + 1)) =~= set_of(
                        keys_of(complex).take(j as int),
                    ).insert(k@)) by {
                        assert(keys_of(complex).take(j + 1) =~= keys_of(complex).take(
                            j as int,
                        ).push(k@));
                        lemma_set_of_push(keys_of(complex).take(j as int), k@);
                    }
                    assert(set_of(views(out@)) =~= pk.union(
                        set_of(keys_of(complex).take(j + 1)),
                    ).difference(non));
                    j = j + 1;
                }
                assert(keys_of(complex).take(j as int) =~= keys_of(complex));
            },
            _ => {},
        }
        out
    }
}

proof fn lemma_set_of_push<T>(s: Seq<T>, x: T)
    ensures
        set_of(s.push(x)) == set_of(s).insert(x),
{
    assert(s.push(x).last() == x);
    assert forall|y: T| s.contains(y) implies s.push(x).contains(y) by {
        let j = choose|j: int| 0 <= j < s.len() && s[j] == y;
        assert(s.push(x)[j] == y);
    }
    assert(set_of(s.push(x)) =~= set_of(s).insert(x));
}

fn contains_string(v: &Vec<String>, s: &String) -> (r: bool)
    ensures
        r == set_of(views(v@)).contains(s@),
{
    let mut i: usize = 0;
    while i < v.len()
        invariant
            i <= v.len(),
            forall|j: int| 0 <= j < i ==> v@[j]@ != s@,
        decreases v.len() - i,
    {
        if v[i] == *s {
            assert(views(v@)[i as int] == s@);
            return true;
        }
        i = i + 1;
    }
    assert(!views(v@).contains(s@)) by {
        if views(v@).contains(s@) {
            let j = choose|j: int| 0 <= j < views(v@).len() && views(v@)[j] == s@;
            assert(v@[j]@ == s@);
        }
    }
    false
}

} // verus!
