//! Dynamic values: what workflow variables and expression literals hold.

use vstd::prelude::*;
use crate::float::Float64;
use crate::float::nearest_double;
use crate::float::SIGN_BIT;
use crate::text::str_equal;
use crate::text::str_less;
use crate::text::text_below;

verus! {

/// The key of an object entry.
#[derive(Debug, PartialEq, Eq, PartialOrd, Ord, Hash)]
pub struct JsonKey(pub String);

impl JsonKey {
    pub fn as_ref(&self) -> (s: &str)
        ensures
            s@ == self.0@,
    {
        self.0.as_str()
    }
}

/// A number, with the form in which it was written kept.
#[derive(Debug, Clone, Copy)]
pub enum JsonNumber {
    PosInt(u64),
    NegInt(i64),
    Float(Float64),
}

/// An object: keys with their values, in the order of insertion.  A key is
/// looked up from the front, so that of two entries with one key only the
/// first is seen.  [`JsonObject::insert`] never adds a key twice, and keeps
/// an object [`JsonObject::well_formed`]; entries written by hand, or read
/// from tokens, may hold a key twice, and [`JsonValue::is_well_keyed`] tells.
#[derive(Debug)]
pub struct JsonObject {
    pub entries: Vec<(String, JsonValue)>,
}

/// A dynamically typed value.
#[derive(Debug)]
pub enum JsonValue {
    Null,
    Bool(bool),
    Number(JsonNumber),
    String(String),
    Array(Vec<JsonValue>),
    Object(JsonObject),
}

/// What a value is: the mathematical tree that a [`JsonValue`] stores.  An
/// object is the sequence of its entries.
pub enum JsonModel {
    Null,
    Bool(bool),
    Number(JsonNumber),
    String(Seq<char>),
    Array(Seq<JsonModel>),
    Object(Seq<(Seq<char>, JsonModel)>),
}

/// The entries of an object.
pub type Entries = Seq<(Seq<char>, JsonModel)>;

/// `i` is the first place in `entries` that holds `key`.
pub open spec fn first_at(entries: Entries, key: Seq<char>, i: int) -> bool {
    &&& 0 <= i < entries.len()
    &&& entries[i].0 == key
    &&& forall|j: int| 0 <= j < i ==> (#[trigger] entries[j]).0 != key
}

/// Some entry of `entries` holds `key`.
pub open spec fn has_key(entries: Entries, key: Seq<char>) -> bool {
    exists|i: int| 0 <= i < entries.len() && (#[trigger] entries[i]).0 == key
}

/// The first place in `entries` that holds `key`, where there is one.
pub open spec fn first_index(entries: Entries, key: Seq<char>) -> int {
    choose|i: int| first_at(entries, key, i)
}

/// The value found under `key`: that of the first entry that holds it.
pub open spec fn lookup(entries: Entries, key: Seq<char>) -> Option<JsonModel> {
    if has_key(entries, key) {
        Some(entries[first_index(entries, key)].1)
    } else {
        None
    }
}

/// No key occurs twice.
pub open spec fn distinct_keys(entries: Entries) -> bool {
    forall|i: int, j: int|
        0 <= i < j < entries.len() ==> (#[trigger] entries[i]).0 != (#[trigger] entries[j]).0
}

/// `entries` with `value` under `key`: in place of the value that was found
/// there, or as a new last entry.
pub open spec fn inserted(entries: Entries, key: Seq<char>, value: JsonModel) -> Entries {
    if has_key(entries, key) {
        entries.update(first_index(entries, key), (key, value))
    } else {
        entries.push((key, value))
    }
}

/// A first place is the only first place, and what is looked up is found there.
pub proof fn lemma_first_at(entries: Entries, key: Seq<char>, i: int)
    requires
        first_at(entries, key, i),
    ensures
        has_key(entries, key),
        first_index(entries, key) == i,
        lookup(entries, key) == Some(entries[i].1),
{
    let c = first_index(entries, key);
    assert(first_at(entries, key, c));
    if c < i {
        assert(entries[c].0 != key);
    }
    if i < c {
        assert(entries[i].0 != key);
    }
}

/// A key that is held somewhere is held at a first place.
pub proof fn lemma_has_key_first(entries: Entries, key: Seq<char>)
    requires
        has_key(entries, key),
    ensures
        first_at(entries, key, first_index(entries, key)),
{
    let w = choose|i: int| 0 <= i < entries.len() && (#[trigger] entries[i]).0 == key;
    lemma_first_below(entries, key, w);
}

proof fn lemma_first_below(entries: Entries, key: Seq<char>, w: int)
    requires
        0 <= w < entries.len(),
        entries[w].0 == key,
    ensures
        exists|i: int| first_at(entries, key, i),
    decreases w,
{
    if exists|j: int| 0 <= j < w && (#[trigger] entries[j]).0 == key {
        let j = choose|j: int| 0 <= j < w && (#[trigger] entries[j]).0 == key;
        lemma_first_below(entries, key, j);
    } else {
        assert(first_at(entries, key, w));
    }
}

/// After an insertion the key holds the new value, every other key holds
/// what it held, and keys that were distinct stay distinct.
pub proof fn lemma_inserted(entries: Entries, key: Seq<char>, value: JsonModel, other: Seq<char>)
    ensures
        lookup(inserted(entries, key, value), other) == (if other == key {
            Some(value)
        } else {
            lookup(entries, other)
        }),
        distinct_keys(entries) ==> distinct_keys(inserted(entries, key, value)),
        inserted(entries, key, value).len() == entries.len() + (if has_key(entries, key) {
            0int
        } else {
            1int
        }),
{
    let after = inserted(entries, key, value);
    let n = entries.len() as int;
    let at: int = if has_key(entries, key) {
        lemma_has_key_first(entries, key);
        first_index(entries, key)
    } else {
        n
    };
    assert(first_at(after, key, at)) by {
        assert forall|j: int| 0 <= j < at implies (#[trigger] after[j]).0 != key by {
            assert(entries[j].0 != key);
        }
    }
    lemma_first_at(after, key, at);
    if other != key {
        if has_key(entries, other) {
            lemma_has_key_first(entries, other);
            let f = first_index(entries, other);
            assert(first_at(after, other, f)) by {
                assert forall|j: int| 0 <= j < f implies (#[trigger] after[j]).0 != other by {
                    assert(entries[j].0 != other);
                }
            }
            lemma_first_at(after, other, f);
        } else {
            if has_key(after, other) {
                let w = choose|w: int| 0 <= w < after.len() && (#[trigger] after[w]).0 == other;
                assert(entries[w].0 == other);
            }
        }
    }
    if distinct_keys(entries) {
        assert forall|a: int, b: int| 0 <= a < b < after.len() implies (#[trigger] after[a]).0 != (
        #[trigger] after[b]).0 by {
            if has_key(entries, key) {
                assert(entries[a].0 != entries[b].0);
                if a == at {
                    assert(entries[a].0 == key);
                }
                if b == at {
                    assert(entries[b].0 == key);
                }
            } else if b < n {
                assert(entries[a].0 != entries[b].0);
            } else {
                assert(entries[a].0 != key);
            }
        }
    }
}

impl JsonNumber {
    /// The double that stands for the number when numbers are compared:
    /// an integer stands for the double nearest to it.
    pub open spec fn projection(self) -> Float64 {
        match self {
            JsonNumber::PosInt(n) => Float64 { bits: nearest_double(n) },
            JsonNumber::NegInt(n) => if n >= 0 {
                Float64 { bits: nearest_double(n as u64) }
            } else {
                Float64 { bits: (SIGN_BIT + nearest_double((-n) as u64)) as u64 }
            },
            JsonNumber::Float(f) => f,
        }
    }

    /// Two numbers are the same when their projections are.
    pub open spec fn same(self, other: JsonNumber) -> bool {
        self.projection().same(other.projection())
    }

    /// A number is below another when its projection is.
    pub open spec fn below(self, other: JsonNumber) -> bool {
        self.projection().below(other.projection())
    }

    pub fn as_f64(&self) -> (f: Float64)
        ensures
            f == self.projection(),
    {
        match self {
            JsonNumber::PosInt(n) => Float64::from_u64(*n),
            JsonNumber::NegInt(n) => Float64::from_i64(*n),
            JsonNumber::Float(f) => *f,
        }
    }

    /// Numeric equality.
    pub fn same_as(&self, other: &JsonNumber) -> (r: bool)
        ensures
            r == self.same(*other),
    {
        self.as_f64().same_as(&other.as_f64())
    }

    /// Numeric `<`.
    pub fn less_than(&self, other: &JsonNumber) -> (r: bool)
        ensures
            r == self.below(*other),
    {
        self.as_f64().less_than(&other.as_f64())
    }

    /// Numeric `<=`.
    pub fn at_most(&self, other: &JsonNumber) -> (r: bool)
        ensures
            r == (self.below(*other) || self.same(*other)),
    {
        self.as_f64().at_most(&other.as_f64())
    }

    /// The number a double stands for: a whole number that is zero or
    /// positive as `PosInt`, a negative one as `NegInt`, where it fits; any
    /// other double as it is.
    pub open spec fn of_double(f: Float64) -> JsonNumber {
        match f.whole_spec() {
            crate::float::Whole::Unsigned(n) => JsonNumber::PosInt(n),
            crate::float::Whole::Signed(n) => JsonNumber::NegInt(n),
            crate::float::Whole::Neither => JsonNumber::Float(f),
        }
    }

    pub fn from_f64(f: Float64) -> (n: JsonNumber)
        ensures
            n == JsonNumber::of_double(f),
    {
        match f.whole() {
            crate::float::Whole::Unsigned(n) => JsonNumber::PosInt(n),
            crate::float::Whole::Signed(n) => JsonNumber::NegInt(n),
            crate::float::Whole::Neither => JsonNumber::Float(f),
        }
    }
}


/// What a value is.
pub open spec fn model_of(value: JsonValue) -> JsonModel
    decreases value,
{
    match value {
        JsonValue::Null => JsonModel::Null,
        JsonValue::Bool(b) => JsonModel::Bool(b),
        JsonValue::Number(n) => JsonModel::Number(n),
        JsonValue::String(s) => JsonModel::String(s@),
        JsonValue::Array(items) => JsonModel::Array(
            Seq::new(
                items@.len(),
                |i: int|
                    if 0 <= i < items@.len() {
                        model_of(items@[i])
                    } else {
                        JsonModel::Null
                    },
            ),
        ),
        JsonValue::Object(object) => JsonModel::Object(
            Seq::new(
                object.entries@.len(),
                |i: int|
                    if 0 <= i < object.entries@.len() {
                        (object.entries@[i].0@, model_of(object.entries@[i].1))
                    } else {
                        (Seq::empty(), JsonModel::Null)
                    },
            ),
        ),
    }
}

impl View for JsonValue {
    type V = JsonModel;

    open spec fn view(&self) -> JsonModel {
        model_of(*self)
    }
}

impl View for JsonObject {
    type V = Entries;

    /// The entries of the object, in their order.
    open spec fn view(&self) -> Entries {
        Seq::new(
            self.entries@.len(),
            |i: int|
                if 0 <= i < self.entries@.len() {
                    (self.entries@[i].0@, self.entries@[i].1@)
                } else {
                    (Seq::empty(), JsonModel::Null)
                },
        )
    }
}

/// What an array value is: the sequence of what its items are.
pub proof fn lemma_array_view(v: JsonValue)
    requires
        v is Array,
    ensures
        v@ is Array,
        v@->Array_0.len() == v->Array_0@.len(),
        forall|i: int| 0 <= i < v->Array_0@.len() ==> v@->Array_0[i] == (#[trigger] v->Array_0@[i])@,
{
    reveal_with_fuel(model_of, 2);
}

/// What an object value is: the entries of its object.
pub proof fn lemma_object_view(v: JsonValue)
    requires
        v is Object,
    ensures
        v@ == JsonModel::Object(v->Object_0@),
{
    reveal_with_fuel(model_of, 2);
    assert(v@->Object_0 =~= v->Object_0@);
}

impl JsonObject {
    /// No key occurs twice: the number of entries is the number of keys.
    pub open spec fn well_formed(&self) -> bool {
        distinct_keys(self@)
    }

    pub fn new() -> (o: JsonObject)
        ensures
            o@ == Seq::<(Seq<char>, JsonModel)>::empty(),
    {
        let o = JsonObject { entries: Vec::new() };
        assert(o@ =~= Seq::<(Seq<char>, JsonModel)>::empty());
        o
    }

    pub fn len(&self) -> (n: usize)
        ensures
            n == self@.len(),
    {
        self.entries.len()
    }

    /// The first place that holds `key`.
    pub fn position(&self, key: &str) -> (r: Option<usize>)
        ensures
            match r {
                Some(i) => first_at(self@, key@, i as int),
                None => !has_key(self@, key@),
            },
    {
        let mut i: usize = 0;
        while i < self.entries.len()
            invariant
                i <= self.entries@.len(),
                forall|j: int| 0 <= j < i ==> (#[trigger] self@[j]).0 != key@,
            decreases self.entries@.len() - i,
        {
            if str_equal(self.entries[i].0.as_str(), key) {
                assert(self@[i as int].0 == key@);
                return Some(i);
            }
            assert(self@[i as int].0 != key@);
            i += 1;
        }
        None
    }

    pub fn contains_key(&self, key: &str) -> (r: bool)
        ensures
            r == has_key(self@, key@),
    {
        self.position(key).is_some()
    }

    /// The value under `key`.
    pub fn get(&self, key: &str) -> (r: Option<&JsonValue>)
        ensures
            match r {
                Some(v) => lookup(self@, key@) == Some(v@),
                None => lookup(self@, key@) is None,
            },
    {
        match self.position(key) {
            Some(i) => {
                proof {
                    lemma_first_at(self@, key@, i as int);
                }
                Some(&self.entries[i].1)
            },
            None => None,
        }
    }

    /// Whether no key occurs twice.
    pub fn has_distinct_keys(&self) -> (r: bool)
        ensures
            r == self.well_formed(),
    {
        let mut j: usize = 0;
        while j < self.entries.len()
            invariant
                j <= self.entries@.len(),
                forall|a: int, b: int|
                    0 <= a < b < j ==> (#[trigger] self@[a]).0 != (#[trigger] self@[b]).0,
            decreases self.entries@.len() - j,
        {
            match self.position(self.entries[j].0.as_str()) {
                Some(i) => {
                    assert(self@[j as int].0 == self.entries@[j as int].0@);
                    if i != j {
                        assert(self@[i as int].0 == self@[j as int].0);
                        return false;
                    }
                },
                None => {
                    assert(self@[j as int].0 == self.entries@[j as int].0@);
                    return false;
                },
            }
            j += 1;
        }
        true
    }

    /// Puts `value` under `key`: in place of the value that was found there,
    /// or as a new last entry.  Returns whether the key was there before.
    pub fn insert(&mut self, key: String, value: JsonValue) -> (replaced: bool)
        ensures
            final(self)@ == inserted(old(self)@, key@, value@),
            replaced == has_key(old(self)@, key@),
            old(self).well_formed() ==> final(self).well_formed(),
    {
        let ghost before = self@;
        proof {
            lemma_inserted(before, key@, value@, key@);
        }
        match self.position(key.as_str()) {
            Some(i) => {
                proof {
                    lemma_first_at(before, key@, i as int);
                }
                self.entries.set(i, (key, value));
                assert(self@ =~= before.update(i as int, (key@, value@)));
                true
            },
            None => {
                self.entries.push((key, value));
                assert(self@ =~= before.push((key@, value@)));
                false
            },
        }
    }
}

/// Equality of values: numbers by their projections, strings by their
/// characters, arrays place by place, objects key by key.  Values of
/// different kinds are never the same, and a NaN is not the same as itself.
pub open spec fn value_same(a: JsonModel, b: JsonModel) -> bool
    decreases a,
{
    match a {
        JsonModel::Null => b is Null,
        JsonModel::Bool(x) => b matches JsonModel::Bool(y) && x == y,
        JsonModel::Number(x) => b matches JsonModel::Number(y) && x.same(y),
        JsonModel::String(x) => b matches JsonModel::String(y) && x == y,
        JsonModel::Array(x) => b matches JsonModel::Array(y) && x.len() == y.len() && forall|
            i: int,
        |
            0 <= i < x.len() ==> value_same(#[trigger] x[i], y[i]),
        JsonModel::Object(x) => b matches JsonModel::Object(y) && x.len() == y.len() && forall|
            i: int,
        |
            0 <= i < x.len() ==> entry_same(#[trigger] x[i], y),
    }
}

/// The entry's key is held by `other`, with a value that is the same.
pub open spec fn entry_same(entry: (Seq<char>, JsonModel), other: Entries) -> bool
    decreases entry,
{
    has_key(other, entry.0) && value_same(entry.1, other[first_index(other, entry.0)].1)
}

/// No object in the value holds a key twice.
pub open spec fn well_keyed(v: JsonModel) -> bool
    decreases v,
{
    match v {
        JsonModel::Array(items) => forall|i: int|
            0 <= i < items.len() ==> well_keyed(#[trigger] items[i]),
        JsonModel::Object(entries) => distinct_keys(entries) && forall|i: int|
            0 <= i < entries.len() ==> well_keyed((#[trigger] entries[i]).1),
        _ => true,
    }
}

/// The keys of the entries, in their order.
pub open spec fn keys_of(entries: Entries) -> Seq<Seq<char>> {
    Seq::new(entries.len(), |i: int| entries[i].0)
}

/// Of two runs of entries with distinct keys and of one length, where every
/// key of the first is held by the second, every key of the second is held
/// by the first.
pub proof fn lemma_same_keys(x: Entries, y: Entries)
    requires
        distinct_keys(x),
        distinct_keys(y),
        x.len() == y.len(),
        forall|i: int| 0 <= i < x.len() ==> has_key(y, (#[trigger] x[i]).0),
    ensures
        forall|j: int| 0 <= j < y.len() ==> has_key(x, (#[trigger] y[j]).0),
{
    let kx = keys_of(x);
    let ky = keys_of(y);
    assert(kx.no_duplicates()) by {
        assert forall|i: int, j: int|
            0 <= i < kx.len() && 0 <= j < kx.len() && i != j implies kx[i] != kx[j] by {
            if i < j {
                assert(x[i].0 != x[j].0);
            } else {
                assert(x[j].0 != x[i].0);
            }
        }
    }
    assert(ky.no_duplicates()) by {
        assert forall|i: int, j: int|
            0 <= i < ky.len() && 0 <= j < ky.len() && i != j implies ky[i] != ky[j] by {
            if i < j {
                assert(y[i].0 != y[j].0);
            } else {
                assert(y[j].0 != y[i].0);
            }
        }
    }
    kx.unique_seq_to_set();
    ky.unique_seq_to_set();
    vstd::seq_lib::seq_to_set_is_finite(kx);
    vstd::seq_lib::seq_to_set_is_finite(ky);
    assert(kx.to_set().subset_of(ky.to_set())) by {
        assert forall|k: Seq<char>| kx.to_set().contains(k) implies ky.to_set().contains(k) by {
            let i = choose|i: int| 0 <= i < kx.len() && kx[i] == k;
            assert(has_key(y, x[i].0));
            let w = choose|w: int| 0 <= w < y.len() && (#[trigger] y[w]).0 == x[i].0;
            assert(ky[w] == k);
        }
    }
    vstd::set_lib::lemma_subset_equality(kx.to_set(), ky.to_set());
    assert forall|j: int| 0 <= j < y.len() implies has_key(x, (#[trigger] y[j]).0) by {
        assert(ky[j] == y[j].0);
        assert(ky.to_set().contains(y[j].0));
        assert(kx.to_set().contains(y[j].0));
        let i = choose|i: int| 0 <= i < kx.len() && kx[i] == y[j].0;
        assert(x[i].0 == y[j].0);
    }
}

/// Among entries with distinct keys each entry is found under its key.
pub proof fn lemma_found_at(entries: Entries, i: int)
    requires
        distinct_keys(entries),
        0 <= i < entries.len(),
    ensures
        has_key(entries, entries[i].0),
        first_index(entries, entries[i].0) == i,
{
    assert forall|j: int| 0 <= j < i implies (#[trigger] entries[j]).0 != entries[i].0 by {}
    lemma_first_at(entries, entries[i].0, i);
}

/// On values in which no object holds a key twice, being the same does not
/// depend on the side: where `a` is the same as `b`, `b` is the same as
/// `a`.  With a key held twice it may: `{a, a}` finds all its keys in
/// `{a, b}`, but not the other way round.
pub proof fn law_value_same_symmetric(a: JsonModel, b: JsonModel)
    requires
        well_keyed(a),
        well_keyed(b),
        value_same(a, b),
    ensures
        value_same(b, a),
    decreases a,
{
    match a {
        JsonModel::Array(x) => {
            let y = b->Array_0;
            assert forall|i: int| 0 <= i < y.len() implies value_same(#[trigger] y[i], x[i]) by {
                assert(value_same(x[i], y[i]));
                assert(well_keyed(x[i]));
                assert(well_keyed(y[i]));
                law_value_same_symmetric(x[i], y[i]);
            }
        },
        JsonModel::Object(x) => {
            let y = b->Object_0;
            assert forall|i: int| 0 <= i < x.len() implies has_key(y, (#[trigger] x[i]).0) by {
                assert(entry_same(x[i], y));
            }
            lemma_same_keys(x, y);
            assert forall|j: int| 0 <= j < y.len() implies entry_same(#[trigger] y[j], x) by {
                assert(has_key(x, y[j].0));
                lemma_has_key_first(x, y[j].0);
                let i = first_index(x, y[j].0);
                assert(entry_same(x[i], y));
                lemma_found_at(y, j);
                assert(first_index(y, x[i].0) == j);
                assert(value_same(x[i].1, y[j].1));
                assert(well_keyed(x[i].1));
                assert(well_keyed(y[j].1));
                law_value_same_symmetric(x[i].1, y[j].1);
            }
        },
        _ => {},
    }
}

/// Putting a well-keyed value into a well-keyed object leaves it well
/// keyed.
pub proof fn lemma_inserted_well_keyed(entries: Entries, key: Seq<char>, value: JsonModel)
    requires
        well_keyed(JsonModel::Object(entries)),
        well_keyed(value),
    ensures
        well_keyed(JsonModel::Object(inserted(entries, key, value))),
{
    lemma_inserted(entries, key, value, key);
    let after = inserted(entries, key, value);
    if has_key(entries, key) {
        lemma_has_key_first(entries, key);
    }
    assert forall|i: int| 0 <= i < after.len() implies well_keyed((#[trigger] after[i]).1) by {
        if i < entries.len() && after[i] != (key, value) {
            assert(after[i] == entries[i]);
            assert(well_keyed(entries[i].1));
        }
    }
}

/// The number that a literal stands for, from what it can be read as: as an
/// unsigned integer where it can be, else as a signed integer, else as a
/// double; zero where it can be read as none of them.
pub fn number_of_parts(unsigned: Option<u64>, signed: Option<i64>, double: Option<Float64>) -> (n:
    JsonNumber)
    ensures
        n == (match (unsigned, signed, double) {
            (Some(u), _, _) => JsonNumber::PosInt(u),
            (None, Some(i), _) => JsonNumber::NegInt(i),
            (None, None, Some(f)) => JsonNumber::Float(f),
            (None, None, None) => JsonNumber::PosInt(0),
        }),
{
    match (unsigned, signed, double) {
        (Some(u), _, _) => JsonNumber::PosInt(u),
        (None, Some(i), _) => JsonNumber::NegInt(i),
        (None, None, Some(f)) => JsonNumber::Float(f),
        (None, None, None) => JsonNumber::PosInt(0),
    }
}

/// The order of values: numbers by their projections, strings by their
/// encodings, `false` before `true`.  Values of different kinds, and values
/// of any other kind, are not ordered.
pub open spec fn value_below(a: JsonModel, b: JsonModel) -> bool {
    match (a, b) {
        (JsonModel::Number(x), JsonModel::Number(y)) => x.below(y),
        (JsonModel::String(x), JsonModel::String(y)) => text_below(x, y),
        (JsonModel::Bool(x), JsonModel::Bool(y)) => !x && y,
        _ => false,
    }
}

/// `a <= b` in the order of values.
pub open spec fn value_at_most(a: JsonModel, b: JsonModel) -> bool {
    match (a, b) {
        (JsonModel::Number(x), JsonModel::Number(y)) => x.below(y) || x.same(y),
        (JsonModel::String(x), JsonModel::String(y)) => text_below(x, y) || x == y,
        (JsonModel::Bool(x), JsonModel::Bool(y)) => !x || y,
        _ => false,
    }
}

impl JsonValue {
    /// An empty object.
    pub fn map() -> (v: JsonValue)
        ensures
            v@ == JsonModel::Object(Seq::empty()),
    {
        let v = JsonValue::Object(JsonObject::new());
        proof {
            lemma_object_view(v);
        }
        v
    }

    pub fn is_null(&self) -> (r: bool)
        ensures
            r == (self@ is Null),
    {
        match self {
            JsonValue::Null => true,
            _ => false,
        }
    }

    pub fn is_object(&self) -> (r: bool)
        ensures
            r == (self@ is Object),
    {
        match self {
            JsonValue::Object(_) => true,
            _ => false,
        }
    }

    pub fn as_object(&self) -> (r: Option<&JsonObject>)
        ensures
            match r {
                Some(o) => self@ == JsonModel::Object(o@) && *self == JsonValue::Object(*o),
                None => !(self@ is Object),
            },
    {
        match self {
            JsonValue::Object(v) => {
                proof {
                    lemma_object_view(*self);
                }
                Some(v)
            },
            _ => None,
        }
    }

    pub fn is_array(&self) -> (r: bool)
        ensures
            r == (self@ is Array),
    {
        match self {
            JsonValue::Array(_) => true,
            _ => false,
        }
    }

    pub fn as_array(&self) -> (r: Option<&[JsonValue]>)
        ensures
            match r {
                Some(items) => self@ matches JsonModel::Array(models) && models.len()
                    == items@.len() && forall|i: int|
                    0 <= i < items@.len() ==> (#[trigger] items@[i])@ == models[i],
                None => !(self@ is Array),
            },
    {
        match self {
            JsonValue::Array(v) => {
                proof {
                    lemma_array_view(*self);
                }
                Some(v.as_slice())
            },
            _ => None,
        }
    }

    pub fn as_bool(&self) -> (r: Option<bool>)
        ensures
            match r {
                Some(b) => self@ == JsonModel::Bool(b),
                None => !(self@ is Bool),
            },
    {
        match self {
            JsonValue::Bool(b) => Some(*b),
            _ => None,
        }
    }

    pub fn as_number(&self) -> (r: Option<&JsonNumber>)
        ensures
            match r {
                Some(n) => self@ == JsonModel::Number(*n),
                None => !(self@ is Number),
            },
    {
        match self {
            JsonValue::Number(n) => Some(n),
            _ => None,
        }
    }

    pub fn as_str(&self) -> (r: Option<&str>)
        ensures
            match r {
                Some(s) => self@ == JsonModel::String(s@),
                None => !(self@ is String),
            },
    {
        match self {
            JsonValue::String(s) => Some(s.as_str()),
            _ => None,
        }
    }

    /// The double, where the value is a number written as one.
    pub fn as_f64(&self) -> (r: Option<Float64>)
        ensures
            match r {
                Some(f) => self@ == JsonModel::Number(JsonNumber::Float(f)),
                None => !(self@ matches JsonModel::Number(JsonNumber::Float(_))),
            },
    {
        match self {
            JsonValue::Number(n) => match n {
                JsonNumber::Float(v) => Some(*v),
                _ => None,
            },
            _ => None,
        }
    }

    /// The integer, where the value is a number written as a signed one.
    pub fn as_i64(&self) -> (r: Option<i64>)
        ensures
            match r {
                Some(n) => self@ == JsonModel::Number(JsonNumber::NegInt(n)),
                None => !(self@ matches JsonModel::Number(JsonNumber::NegInt(_))),
            },
    {
        match self {
            JsonValue::Number(n) => match n {
                JsonNumber::NegInt(v) => Some(*v),
                _ => None,
            },
            _ => None,
        }
    }

    /// The integer, where the value is a number written as an unsigned one.
    pub fn as_u64(&self) -> (r: Option<u64>)
        ensures
            match r {
                Some(n) => self@ == JsonModel::Number(JsonNumber::PosInt(n)),
                None => !(self@ matches JsonModel::Number(JsonNumber::PosInt(_))),
            },
    {
        match self {
            JsonValue::Number(n) => match n {
                JsonNumber::PosInt(v) => Some(*v),
                _ => None,
            },
            _ => None,
        }
    }

    /// The object, for writing.
    pub fn as_object_mut(&mut self) -> (r: Option<&mut JsonObject>)
        ensures
            match r {
                Some(o) => *old(self) == JsonValue::Object(*o) && *final(self)
                    == JsonValue::Object(*final(o)),
                None => !(*old(self) is Object) && *final(self) == *old(self),
            },
    {
        match self {
            JsonValue::Object(obj) => Some(obj),
            _ => None,
        }
    }

    /// Whether no object in the value holds a key twice.
    pub fn is_well_keyed(&self) -> (r: bool)
        ensures
            r == well_keyed(self@),
        decreases *self,
    {
        match self {
            JsonValue::Array(items) => {
                proof {
                    lemma_array_view(*self);
                }
                let mut i: usize = 0;
                while i < items.len()
                    invariant
                        *self == JsonValue::Array(*items),
                        self@ is Array,
                        self@->Array_0.len() == items@.len(),
                        forall|j: int|
                            0 <= j < items@.len() ==> self@->Array_0[j] == (#[trigger] items@[j])@,
                        i <= items@.len(),
                        forall|j: int| 0 <= j < i ==> well_keyed(#[trigger] self@->Array_0[j]),
                    decreases items@.len() - i,
                {
                    proof {
                        assert(self->Array_0 == *items);
                    }
                    if !items[i].is_well_keyed() {
                        assert(!well_keyed(self@->Array_0[i as int]));
                        return false;
                    }
                    i += 1;
                }
                true
            },
            JsonValue::Object(object) => {
                proof {
                    lemma_object_view(*self);
                }
                if !object.has_distinct_keys() {
                    return false;
                }
                let mut i: usize = 0;
                while i < object.entries.len()
                    invariant
                        *self == JsonValue::Object(*object),
                        self@ == JsonModel::Object(object@),
                        distinct_keys(object@),
                        i <= object.entries@.len(),
                        forall|j: int| 0 <= j < i ==> well_keyed((#[trigger] object@[j]).1),
                    decreases object.entries@.len() - i,
                {
                    proof {
                        assert(self->Object_0 == *object);
                    }
                    if !object.entries[i].1.is_well_keyed() {
                        assert(!well_keyed(object@[i as int].1));
                        return false;
                    }
                    i += 1;
                }
                true
            },
            _ => true,
        }
    }

    /// Whether two values are the same.
    pub fn same_as(&self, other: &JsonValue) -> (r: bool)
        ensures
            r == value_same(self@, other@),
        decreases *self,
    {
        match self {
            JsonValue::Null => other.is_null(),
            JsonValue::Bool(x) => match other {
                JsonValue::Bool(y) => *x == *y,
                _ => false,
            },
            JsonValue::Number(x) => match other {
                JsonValue::Number(y) => x.same_as(y),
                _ => false,
            },
            JsonValue::String(x) => match other {
                JsonValue::String(y) => str_equal(x.as_str(), y.as_str()),
                _ => false,
            },
            JsonValue::Array(x) => match other {
                JsonValue::Array(y) => {
                    proof {
                        lemma_array_view(*self);
                        lemma_array_view(*other);
                    }
                    if x.len() != y.len() {
                        return false;
                    }
                    let mut i: usize = 0;
                    while i < x.len()
                        invariant
                            *self == JsonValue::Array(*x),
                            *other == JsonValue::Array(*y),
                            x@.len() == y@.len(),
                            i <= x@.len(),
                            self@ is Array,
                            other@ is Array,
                            self@->Array_0.len() == x@.len(),
                            other@->Array_0.len() == y@.len(),
                            forall|j: int|
                                0 <= j < x@.len() ==> self@->Array_0[j] == (#[trigger] x@[j])@,
                            forall|j: int|
                                0 <= j < y@.len() ==> other@->Array_0[j] == (#[trigger] y@[j])@,
                            forall|j: int|
                                0 <= j < i ==> value_same(
                                    #[trigger] self@->Array_0[j],
                                    other@->Array_0[j],
                                ),
                        decreases x@.len() - i,
                    {
                        proof {
                            assert(self->Array_0 == *x);
                        }
                        if !x[i].same_as(&y[i]) {
                            assert(!value_same(self@->Array_0[i as int], other@->Array_0[i as int]));
                            return false;
                        }
                        i += 1;
                    }
                    true
                },
                _ => false,
            },
            JsonValue::Object(x) => match other {
                JsonValue::Object(y) => {
                    proof {
                        lemma_object_view(*self);
                        lemma_object_view(*other);
                    }
                    if x.entries.len() != y.entries.len() {
                        return false;
                    }
                    let mut i: usize = 0;
                    while i < x.entries.len()
                        invariant
                            *self == JsonValue::Object(*x),
                            *other == JsonValue::Object(*y),
                            self@ == JsonModel::Object(x@),
                            other@ == JsonModel::Object(y@),
                            x.entries@.len() == y.entries@.len(),
                            i <= x.entries@.len(),
                            forall|j: int| 0 <= j < i ==> entry_same(#[trigger] x@[j], y@),
                        decreases x.entries@.len() - i,
                    {
                        proof {
                            assert(self->Object_0 == *x);
                        }
                        match y.get(x.entries[i].0.as_str()) {
                            Some(w) => {
                                if !x.entries[i].1.same_as(w) {
                                    assert(!entry_same(x@[i as int], y@));
                                    return false;
                                }
                            },
                            None => {
                                assert(!entry_same(x@[i as int], y@));
                                return false;
                            },
                        }
                        i += 1;
                    }
                    true
                },
                _ => false,
            },
        }
    }

    /// Whether `self` comes before `other` in the order of values.
    pub fn less_than(&self, other: &JsonValue) -> (r: bool)
        ensures
            r == value_below(self@, other@),
    {
        match (self, other) {
            (JsonValue::Number(x), JsonValue::Number(y)) => x.less_than(y),
            (JsonValue::String(x), JsonValue::String(y)) => str_less(x.as_str(), y.as_str()),
            (JsonValue::Bool(x), JsonValue::Bool(y)) => !*x && *y,
            _ => false,
        }
    }

    /// Whether `self` comes before `other` or is the same.
    pub fn at_most(&self, other: &JsonValue) -> (r: bool)
        ensures
            r == value_at_most(self@, other@),
    {
        match (self, other) {
            (JsonValue::Number(x), JsonValue::Number(y)) => x.at_most(y),
            (JsonValue::String(x), JsonValue::String(y)) => {
                str_less(x.as_str(), y.as_str()) || str_equal(x.as_str(), y.as_str())
            },
            (JsonValue::Bool(x), JsonValue::Bool(y)) => !*x || *y,
            _ => false,
        }
    }
}

} // verus!
