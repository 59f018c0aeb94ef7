//! The JSON tree that the engine works on, and its mathematical model.
//!
//! [`JsonValue`] is the tree held in memory; [`Json`] is what it stands for, and
//! every contract in this crate speaks of the latter. An object is a sequence
//! of entries in the order in which their keys were first inserted; a key is
//! looked up at its first entry, and no operation of this module ever gives an
//! object a second entry under a key it already has.
use crate::text::{first_where, lemma_first_where, lemma_first_where_is, str_eq};
use vstd::prelude::*;

verus! {

broadcast use vstd::std_specs::vec::axiom_vec_index_decreases;

/// What a [`Number`] stands for.
pub enum JsonNumber {
    /// An integer.
    Int(int),
    /// A number that is not held as an integer, by its JSON text.
    Float(Seq<char>),
}

/// What a [`JsonValue`] stands for.
pub enum Json {
    Null,
    Bool(bool),
    Number(JsonNumber),
    String(Seq<char>),
    Array(Seq<Json>),
    Object(Seq<(Seq<char>, Json)>),
}

/// The test for being an entry under `key`.
pub open spec fn keyed(key: Seq<char>) -> spec_fn((Seq<char>, Json)) -> bool {
    |e: (Seq<char>, Json)| e.0 == key
}

/// The index of the first entry under `key`, or `entries.len()` where there is none.
pub open spec fn position(entries: Seq<(Seq<char>, Json)>, key: Seq<char>) -> int {
    first_where(entries, keyed(key))
}

/// Whether some entry stands under `key`.
pub open spec fn has_key(entries: Seq<(Seq<char>, Json)>, key: Seq<char>) -> bool {
    0 <= position(entries, key) < entries.len()
}

/// The value under `key`.
pub open spec fn lookup(entries: Seq<(Seq<char>, Json)>, key: Seq<char>) -> Option<Json> {
    if has_key(entries, key) {
        Some(entries[position(entries, key)].1)
    } else {
        None
    }
}

/// The entries with `value` under `key`: in the place of the value that was
/// there, or as a new last entry.
pub open spec fn put(entries: Seq<(Seq<char>, Json)>, key: Seq<char>, value: Json) -> Seq<
    (Seq<char>, Json),
> {
    if has_key(entries, key) {
        entries.update(position(entries, key), (key, value))
    } else {
        entries.push((key, value))
    }
}

/// The entries after each of `pairs` was put into them, first to last.
pub open spec fn put_all(
    entries: Seq<(Seq<char>, Json)>,
    pairs: Seq<(Seq<char>, Json)>,
) -> Seq<(Seq<char>, Json)>
    decreases pairs.len(),
{
    if pairs.len() == 0 {
        entries
    } else {
        put(put_all(entries, pairs.drop_last()), pairs.last().0, pairs.last().1)
    }
}

/// The keys of the entries, in their order.
pub open spec fn keys(entries: Seq<(Seq<char>, Json)>) -> Seq<Seq<char>> {
    Seq::new(entries.len(), |i: int| entries[i].0)
}

/// Whether no two entries share a key.
pub open spec fn distinct_keys(entries: Seq<(Seq<char>, Json)>) -> bool {
    forall|i: int, j: int|
        0 <= i < j < entries.len() ==> (#[trigger] entries[i]).0 != (#[trigger] entries[j]).0
}

impl Json {
    /// The entries of an object; none for any other value.
    pub open spec fn entries(self) -> Seq<(Seq<char>, Json)> {
        match self {
            Json::Object(entries) => entries,
            _ => Seq::empty(),
        }
    }

    /// The member under `key` of an object; `None` for any other value.
    pub open spec fn get(self, key: Seq<char>) -> Option<Json> {
        lookup(self.entries(), key)
    }

    /// The text of a string; `None` for any other value.
    pub open spec fn as_str(self) -> Option<Seq<char>> {
        match self {
            Json::String(s) => Some(s),
            _ => None,
        }
    }

    /// Whether every object in the tree has distinct keys.
    pub open spec fn well_formed(self) -> bool
        decreases self,
    {
        match self {
            Json::Array(items) => forall|i: int|
                0 <= i < items.len() ==> (#[trigger] items[i]).well_formed(),
            Json::Object(entries) => {
                &&& distinct_keys(entries)
                &&& forall|i: int|
                    0 <= i < entries.len() ==> (#[trigger] entries[i]).1.well_formed()
            },
            _ => true,
        }
    }
}

/// `position` is in range, lands on an entry under the key, and passes none.
pub proof fn lemma_position(entries: Seq<(Seq<char>, Json)>, key: Seq<char>)
    ensures
        0 <= position(entries, key) <= entries.len(),
        has_key(entries, key) ==> entries[position(entries, key)].0 == key,
        forall|j: int| 0 <= j < position(entries, key) ==> (#[trigger] entries[j]).0 != key,
        has_key(entries, key) <==> exists|j: int|
            0 <= j < entries.len() && (#[trigger] entries[j]).0 == key,
{
    lemma_first_where(entries, keyed(key));
    let p = position(entries, key);
    assert forall|j: int| 0 <= j < p implies (#[trigger] entries[j]).0 != key by {
        assert(!keyed(key)(entries[j]));
    }
    if p < entries.len() {
        assert(keyed(key)(entries[p]));
    }
}

/// The first entry under `key` is at `i`, if one is there and none before.
pub proof fn lemma_position_is(entries: Seq<(Seq<char>, Json)>, key: Seq<char>, i: int)
    requires
        0 <= i <= entries.len(),
        i < entries.len() ==> entries[i].0 == key,
        forall|j: int| 0 <= j < i ==> (#[trigger] entries[j]).0 != key,
    ensures
        position(entries, key) == i,
{
    assert forall|j: int| 0 <= j < i implies !keyed(key)(#[trigger] entries[j]) by {
        assert(entries[j].0 != key);
    }
    lemma_first_where_is(entries, keyed(key), i);
}

/// After `put`, the key holds the value, every other key holds what it held,
/// and the keys are those of before, with the new key last where it is new.
pub proof fn lemma_put(
    entries: Seq<(Seq<char>, Json)>,
    key: Seq<char>,
    value: Json,
    other: Seq<char>,
)
    ensures
        lookup(put(entries, key, value), key) == Some(value),
        other != key ==> lookup(put(entries, key, value), other) == lookup(entries, other),
        has_key(put(entries, key, value), other) <==> other == key || has_key(entries, other),
        has_key(entries, key) ==> keys(put(entries, key, value)) == keys(entries),
        !has_key(entries, key) ==> keys(put(entries, key, value)) == keys(entries).push(key),
        distinct_keys(entries) ==> distinct_keys(put(entries, key, value)),
{
    let after = put(entries, key, value);
    let p = position(entries, key);
    lemma_position(entries, key);
    lemma_position(entries, other);
    lemma_position_is(after, key, p);
    let q = position(entries, other);
    if other != key {
        lemma_position_is(after, other, if q < entries.len() {
            q
        } else {
            after.len() as int
        });
    }
    if has_key(entries, key) {
        assert(keys(after) =~= keys(entries));
    } else {
        assert(keys(after) =~= keys(entries).push(key));
    }
}

/// How a [`Number`] is held.
#[derive(Debug, PartialEq, Eq)]
enum Repr {
    /// An integer that is not negative.
    PosInt(u64),
    /// An integer below zero.
    NegInt(i64),
    /// Any other number, by its JSON text.
    Float(String),
}

/// A JSON number: an integer from `i64::MIN` to `u64::MAX`, or a number held
/// by its JSON text because it is not such an integer.
#[derive(Debug, PartialEq, Eq)]
pub struct Number {
    repr: Repr,
}

impl View for Number {
    type V = JsonNumber;

    closed spec fn view(&self) -> JsonNumber {
        match self.repr {
            Repr::PosInt(n) => JsonNumber::Int(n as int),
            Repr::NegInt(n) => JsonNumber::Int(n as int),
            Repr::Float(text) => JsonNumber::Float(text@),
        }
    }
}

impl Number {
    /// The number `n`.
    pub fn from_i64(n: i64) -> (r: Number)
        ensures
            r@ == JsonNumber::Int(n as int),
    {
        if n < 0 {
            Number { repr: Repr::NegInt(n) }
        } else {
            Number { repr: Repr::PosInt(n as u64) }
        }
    }

    /// The number `n`.
    pub fn from_u64(n: u64) -> (r: Number)
        ensures
            r@ == JsonNumber::Int(n as int),
    {
        Number { repr: Repr::PosInt(n) }
    }

    /// The number whose JSON text is `text`.
    pub fn from_float_text(text: String) -> (r: Number)
        ensures
            r@ == JsonNumber::Float(text@),
    {
        Number { repr: Repr::Float(text) }
    }

    /// The number that `unsigned` gives, else the one that `signed` gives,
    /// else the one whose JSON text is `text`.
    pub fn from_parts(unsigned: Option<u64>, signed: Option<i64>, text: String) -> (r: Number)
        ensures
            r@ == match (unsigned, signed) {
                (Some(n), _) => JsonNumber::Int(n as int),
                (None, Some(n)) => JsonNumber::Int(n as int),
                (None, None) => JsonNumber::Float(text@),
            },
    {
        match (unsigned, signed) {
            (Some(n), _) => Number::from_u64(n),
            (None, Some(n)) => Number::from_i64(n),
            (None, None) => Number::from_float_text(text),
        }
    }

    /// Whether the number is held as an integer.
    pub fn is_integer(&self) -> (r: bool)
        ensures
            r == (self@ is Int),
    {
        match &self.repr {
            Repr::PosInt(_) => true,
            Repr::NegInt(_) => true,
            Repr::Float(_) => false,
        }
    }

    /// The number as an integer of 64 signed bits, where it is one.
    pub fn as_i64(&self) -> (r: Option<i64>)
        ensures
            r == int_in_i64(self@),
    {
        match &self.repr {
            Repr::PosInt(n) => if *n <= 0x7fff_ffff_ffff_ffff {
                Some(*n as i64)
            } else {
                None
            },
            Repr::NegInt(n) => Some(*n),
            Repr::Float(_) => None,
        }
    }

    /// The number as an integer of 64 unsigned bits, where it is one.
    pub fn as_u64(&self) -> (r: Option<u64>)
        ensures
            r == match self@ {
                JsonNumber::Int(n) if 0 <= n <= u64::MAX => Some(n as u64),
                _ => None,
            },
    {
        match &self.repr {
            Repr::PosInt(n) => Some(*n),
            Repr::NegInt(n) => if *n >= 0 {
                Some(*n as u64)
            } else {
                None
            },
            Repr::Float(_) => None,
        }
    }

    /// The JSON text of a number that is not held as an integer.
    pub fn float_text(&self) -> (r: Option<&String>)
        ensures
            match self@ {
                JsonNumber::Float(text) => r.is_some() && r.unwrap()@ == text,
                JsonNumber::Int(_) => r.is_none(),
            },
    {
        match &self.repr {
            Repr::Float(text) => Some(text),
            _ => None,
        }
    }
}

/// The integer of 64 signed bits that a number is, if it is one.
pub open spec fn int_in_i64(n: JsonNumber) -> Option<i64> {
    match n {
        JsonNumber::Int(v) if i64::MIN <= v <= i64::MAX => Some(v as i64),
        _ => None,
    }
}

impl Clone for Number {
    fn clone(&self) -> (r: Self)
        ensures
            r@ == self@,
    {
        match &self.repr {
            Repr::PosInt(n) => Number { repr: Repr::PosInt(*n) },
            Repr::NegInt(n) => Number { repr: Repr::NegInt(*n) },
            Repr::Float(text) => Number { repr: Repr::Float(text.clone()) },
        }
    }
}

/// A JSON object: entries in the order in which their keys were first
/// inserted, at most one under each key.
#[derive(Debug, PartialEq, Eq)]
pub struct Object {
    entries: Vec<(String, JsonValue)>,
}

/// A JSON value.
#[derive(Debug, PartialEq, Eq)]
pub enum JsonValue {
    Null,
    Bool(bool),
    Number(Number),
    String(String),
    Array(Vec<JsonValue>),
    Object(Object),
}

impl View for Object {
    type V = Seq<(Seq<char>, Json)>;

    closed spec fn view(&self) -> Seq<(Seq<char>, Json)>
        decreases self,
    {
        Seq::new(
            self.entries@.len(),
            |i: int|
                if 0 <= i < self.entries@.len() {
                    (self.entries@[i].0@, self.entries@[i].1@)
                } else {
                    (Seq::empty(), Json::Null)
                },
        )
    }
}

impl View for JsonValue {
    type V = Json;

    open spec fn view(&self) -> Json
        decreases self,
    {
        match self {
            JsonValue::Null => Json::Null,
            JsonValue::Bool(b) => Json::Bool(*b),
            JsonValue::Number(n) => Json::Number(n@),
            JsonValue::String(s) => Json::String(s@),
            JsonValue::Array(items) => Json::Array(array_view(items@)),
            JsonValue::Object(o) => Json::Object(o@),
        }
    }
}

/// What pairs of a key and a value stand for.
pub open spec fn pairs_view(pairs: Seq<(String, JsonValue)>) -> Seq<(Seq<char>, Json)> {
    Seq::new(pairs.len(), |i: int| (pairs[i].0@, pairs[i].1@))
}

/// What the items of an array stand for.
pub open spec fn array_view(items: Seq<JsonValue>) -> Seq<Json>
    decreases items,
{
    Seq::new(
        items.len(),
        |i: int|
            if 0 <= i < items.len() {
                items[i]@
            } else {
                Json::Null
            },
    )
}

impl Object {
    /// An object without entries.
    pub fn new() -> (r: Object)
        ensures
            r@ == Seq::<(Seq<char>, Json)>::empty(),
            distinct_keys(r@),
    {
        let r = Object { entries: Vec::new() };
        assert(r@ =~= Seq::<(Seq<char>, Json)>::empty());
        r
    }

    /// The object that comes of putting the pairs, one after the other, into
    /// an object without entries.
    pub fn from_pairs(pairs: Vec<(String, JsonValue)>) -> (r: Object)
        ensures
            r@ == put_all(Seq::empty(), pairs_view(pairs@)),
            distinct_keys(r@),
    {
        let mut pairs = pairs;
        let ghost all = pairs_view(pairs@);
        let mut rev: Vec<(String, JsonValue)> = Vec::new();
        while pairs.len() > 0
            invariant
                pairs_view(pairs@) + pairs_view(rev@).reverse() == all,
            decreases pairs.len(),
        {
            let ghost before = pairs_view(pairs@);
            let ghost rev_before = pairs_view(rev@);
            let last = pairs.pop().unwrap();
            rev.push(last);
            assert(pairs_view(pairs@) =~= before.drop_last());
            assert(pairs_view(rev@) =~= rev_before.push(before.last()));
            assert(pairs_view(pairs@) + pairs_view(rev@).reverse() =~= before
                + rev_before.reverse());
        }
        assert(pairs_view(rev@).reverse() =~= all);
        let mut out = Object::new();
        assert(all.take(0) =~= Seq::empty());
        while rev.len() > 0
            invariant
                pairs_view(rev@).reverse() == all.skip(all.len() - rev@.len()),
                rev@.len() <= all.len(),
                out@ == put_all(Seq::empty(), all.take(all.len() - rev@.len())),
                distinct_keys(out@),
            decreases rev.len(),
        {
            let ghost done = all.len() - rev@.len();
            let ghost rev_before = pairs_view(rev@);
            let ghost held = out@;
            let (key, value) = rev.pop().unwrap();
            proof {
                assert(rev_before.reverse()[0] == rev_before.last());
                assert((key@, value@) == all[done]);
                assert(all.take(done + 1).drop_last() =~= all.take(done));
                assert(pairs_view(rev@) =~= rev_before.drop_last());
                assert(rev_before.drop_last().reverse() =~= rev_before.reverse().drop_first());
                assert(all.skip(done).drop_first() =~= all.skip(done + 1));
                lemma_put(held, key@, value@, key@);
            }
            out.insert(key, value);
        }
        assert(all.take(all.len() as int) =~= all);
        out
    }

    /// The number of entries.
    pub fn len(&self) -> (r: usize)
        ensures
            r == self@.len(),
    {
        self.entries.len()
    }

    /// Whether the object has no entry.
    pub fn is_empty(&self) -> (r: bool)
        ensures
            r == (self@.len() == 0),
    {
        self.entries.len() == 0
    }

    /// The key of entry `i`.
    pub fn key_at(&self, i: usize) -> (r: &String)
        requires
            i < self@.len(),
        ensures
            r@ == self@[i as int].0,
    {
        &self.entries[i].0
    }

    /// The value of entry `i`.
    pub fn value_at(&self, i: usize) -> (r: &JsonValue)
        requires
            i < self@.len(),
        ensures
            r@ == self@[i as int].1,
    {
        &self.entries[i].1
    }

    /// The value of entry `i`, to be changed in place: the entry keeps its
    /// key and its place, and no other entry changes.
    pub fn value_at_mut(&mut self, i: usize) -> (r: &mut JsonValue)
        requires
            i < old(self)@.len(),
        ensures
            r@ == old(self)@[i as int].1,
            final(self)@ == old(self)@.update(i as int, (old(self)@[i as int].0, final(r)@)),
            keys(final(self)@) == keys(old(self)@),
    {
        &mut self.entries[i].1
    }

    /// The index of the entry under `key`.
    pub fn position(&self, key: &str) -> (r: Option<usize>)
        ensures
            match r {
                Some(i) => has_key(self@, key@) && i == position(self@, key@),
                None => !has_key(self@, key@),
            },
    {
        let mut i: usize = 0;
        while i < self.entries.len()
            invariant
                i <= self.entries.len(),
                forall|j: int| 0 <= j < i ==> (#[trigger] self@[j]).0 != key@,
            decreases self.entries.len() - i,
        {
            if str_eq(self.entries[i].0.as_str(), key) {
                proof {
                    lemma_position_is(self@, key@, i as int);
                }
                return Some(i);
            }
            i += 1;
        }
        proof {
            lemma_position_is(self@, key@, i as int);
        }
        None
    }

    /// Whether an entry stands under `key`.
    pub fn contains_key(&self, key: &str) -> (r: bool)
        ensures
            r == has_key(self@, key@),
    {
        self.position(key).is_some()
    }

    /// The value under `key`.
    pub fn get(&self, key: &str) -> (r: Option<&JsonValue>)
        ensures
            match r {
                Some(v) => lookup(self@, key@) == Some(v@),
                None => lookup(self@, key@).is_none(),
            },
    {
        match self.position(key) {
            Some(i) => Some(&self.entries[i].1),
            None => None,
        }
    }

    /// Puts `value` under `key`: in the place of the value that was there, or
    /// as a new last entry.
    pub fn insert(&mut self, key: String, value: JsonValue)
        ensures
            final(self)@ == put(old(self)@, key@, value@),
            distinct_keys(old(self)@) ==> distinct_keys(final(self)@),
    {
        proof {
            lemma_put(self@, key@, value@, key@);
        }
        match self.position(key.as_str()) {
            Some(i) => {
                proof {
                    lemma_position(self@, key@);
                }
                let slot = &mut self.entries[i];
                slot.1 = value;
                assert(self@ =~= put(old(self)@, key@, value@));
            },
            None => {
                self.entries.push((key, value));
                assert(self@ =~= put(old(self)@, key@, value@));
            },
        }
    }
}

impl Clone for Object {
    fn clone(&self) -> (r: Self)
        ensures
            r@ == self@,
        decreases self,
    {
        let mut out: Vec<(String, JsonValue)> = Vec::new();
        let mut i: usize = 0;
        while i < self.entries.len()
            invariant
                i <= self.entries.len(),
                out@.len() == i,
                forall|j: int|
                    0 <= j < i ==> (#[trigger] out@[j]).0@ == self.entries@[j].0@ && out@[j].1@
                        == self.entries@[j].1@,
            decreases self.entries.len() - i,
        {
            let key = self.entries[i].0.clone();
            let value = self.entries[i].1.clone();
            out.push((key, value));
            i += 1;
        }
        let r = Object { entries: out };
        assert(r@ =~= self@);
        r
    }
}

impl Clone for JsonValue {
    #[verifier::loop_isolation(false)]
    fn clone(&self) -> (r: Self)
        ensures
            r@ == self@,
        decreases self,
    {
        match self {
            JsonValue::Null => JsonValue::Null,
            JsonValue::Bool(b) => JsonValue::Bool(*b),
            JsonValue::Number(n) => JsonValue::Number(n.clone()),
            JsonValue::String(s) => JsonValue::String(s.clone()),
            JsonValue::Array(items) => {
                let mut out: Vec<JsonValue> = Vec::new();
                let mut i: usize = 0;
                while i < items.len()
                    invariant
                        i <= items.len(),
                        out@.len() == i,
                        forall|j: int| 0 <= j < i ==> (#[trigger] out@[j])@ == items@[j]@,
                    decreases items.len() - i,
                {
                    out.push(items[i].clone());
                    i += 1;
                }
                assert(array_view(out@) =~= array_view(items@));
                JsonValue::Array(out)
            },
            JsonValue::Object(o) => JsonValue::Object(o.clone()),
        }
    }
}

impl Json {
    /// The object with `value` in the place of what `key` held; the value
    /// itself where it is no object or has no such key.
    pub open spec fn with_member(self, key: Seq<char>, value: Json) -> Json {
        match self {
            Json::Object(entries) if has_key(entries, key) => Json::Object(
                entries.update(position(entries, key), (key, value)),
            ),
            _ => self,
        }
    }
}

impl JsonValue {
    /// The string value with the text `s`.
    pub fn text(s: &str) -> (r: JsonValue)
        ensures
            r@ == Json::String(s@),
    {
        JsonValue::String(s.to_owned())
    }

    /// The number value `n`.
    pub fn integer(n: i64) -> (r: JsonValue)
        ensures
            r@ == Json::Number(JsonNumber::Int(n as int)),
    {
        JsonValue::Number(Number::from_i64(n))
    }

    /// Whether the value is an object.
    pub fn is_object(&self) -> (r: bool)
        ensures
            r == (self@ is Object),
    {
        match self {
            JsonValue::Object(_) => true,
            _ => false,
        }
    }

    /// The object that the value is, if it is one.
    pub fn as_object(&self) -> (r: Option<&Object>)
        ensures
            match r {
                Some(o) => self@ == Json::Object(o@),
                None => !(self@ is Object),
            },
    {
        match self {
            JsonValue::Object(o) => Some(o),
            _ => None,
        }
    }

    /// The object that the value is, to be changed in place.
    pub fn as_object_mut(&mut self) -> (r: Option<&mut Object>)
        ensures
            match r {
                Some(o) => old(self)@ == Json::Object(o@) && final(self)@ == Json::Object(
                    final(o)@,
                ),
                None => !(old(self)@ is Object) && final(self)@ == old(self)@,
            },
    {
        match self {
            JsonValue::Object(o) => Some(o),
            _ => None,
        }
    }

    /// The items of the array that the value is, if it is one.
    pub fn as_array(&self) -> (r: Option<&Vec<JsonValue>>)
        ensures
            match r {
                Some(items) => self@ == Json::Array(array_view(items@)),
                None => !(self@ is Array),
            },
    {
        match self {
            JsonValue::Array(items) => Some(items),
            _ => None,
        }
    }

    /// The text of the string that the value is, if it is one.
    pub fn as_str(&self) -> (r: Option<&str>)
        ensures
            match r {
                Some(s) => self@.as_str() == Some(s@),
                None => self@.as_str().is_none(),
            },
    {
        match self {
            JsonValue::String(s) => Some(s.as_str()),
            _ => None,
        }
    }

    /// The truth value that the value is, if it is one.
    pub fn as_bool(&self) -> (r: Option<bool>)
        ensures
            r == match self@ {
                Json::Bool(b) => Some(b),
                _ => None,
            },
    {
        match self {
            JsonValue::Bool(b) => Some(*b),
            _ => None,
        }
    }

    /// The integer of 64 signed bits that the value is, if it is one.
    pub fn as_i64(&self) -> (r: Option<i64>)
        ensures
            r == match self@ {
                Json::Number(n) => int_in_i64(n),
                _ => None,
            },
    {
        match self {
            JsonValue::Number(n) => n.as_i64(),
            _ => None,
        }
    }

    /// The member under `key`, where the value is an object that has one.
    pub fn get(&self, key: &str) -> (r: Option<&JsonValue>)
        ensures
            match r {
                Some(v) => self@.get(key@) == Some(v@),
                None => self@.get(key@).is_none(),
            },
    {
        match self {
            JsonValue::Object(o) => o.get(key),
            _ => {
                proof {
                    lemma_position(Seq::empty(), key@);
                }
                None
            },
        }
    }

    /// The member under `key`, to be changed in place, where the value is an
    /// object that has one. Nothing else of the value changes.
    pub fn get_mut(&mut self, key: &str) -> (r: Option<&mut JsonValue>)
        ensures
            match r {
                Some(v) => old(self)@.get(key@) == Some(v@) && final(self)@ == old(
                    self,
                )@.with_member(key@, final(v)@),
                None => old(self)@.get(key@).is_none() && final(self)@ == old(self)@,
            },
    {
        match self {
            JsonValue::Object(o) => {
                match o.position(key) {
                    Some(i) => {
                        proof {
                            lemma_position(o@, key@);
                        }
                        Some(o.value_at_mut(i))
                    },
                    None => None,
                }
            },
            _ => {
                proof {
                    lemma_position(Seq::empty(), key@);
                }
                None
            },
        }
    }
}

/// Putting back the member that is under a key changes nothing.
pub proof fn lemma_with_member_same(j: Json, key: Seq<char>)
    ensures
        j.get(key) matches Some(member) ==> j.with_member(key, member) == j,
{
    lemma_position(j.entries(), key);
    if let Some(member) = j.get(key) {
        let entries = j.entries();
        assert(entries.update(position(entries, key), (key, member)) =~= entries);
    }
}

/// After a member was replaced, its key holds the new value, every other key
/// holds what it held, and the keys are those of before.
pub proof fn lemma_with_member(j: Json, key: Seq<char>, value: Json, other: Seq<char>)
    requires
        j.get(key).is_some(),
    ensures
        j.with_member(key, value).get(key) == Some(value),
        other != key ==> j.with_member(key, value).get(other) == j.get(other),
        keys(j.with_member(key, value).entries()) == keys(j.entries()),
{
    let entries = j.entries();
    lemma_position(entries, key);
    lemma_position(entries, other);
    let after = j.with_member(key, value).entries();
    lemma_position_is(after, key, position(entries, key));
    lemma_position_is(after, other, position(entries, other));
    assert(keys(after) =~= keys(entries));
}

/// Replacing a member by a well-formed value keeps a well-formed object well formed.
pub proof fn lemma_with_member_well_formed(j: Json, key: Seq<char>, value: Json)
    requires
        j.well_formed(),
        value.well_formed(),
    ensures
        j.with_member(key, value).well_formed(),
{
    let entries = j.entries();
    lemma_position(entries, key);
    if j is Object && has_key(entries, key) {
        let p = position(entries, key);
        let after = entries.update(p, (key, value));
        assert forall|i: int| 0 <= i < after.len() implies (#[trigger] after[i]).1.well_formed() by {
            if i != p {
                assert(after[i] == entries[i]);
            }
        }
        assert forall|a: int, b: int| 0 <= a < b < after.len() implies (#[trigger] after[a]).0 != (
        #[trigger] after[b]).0 by {
            assert(after[a].0 == entries[a].0 && after[b].0 == entries[b].0);
        }
    }
}

/// Putting a well-formed value into well-formed entries keeps them well formed.
pub proof fn lemma_put_well_formed(entries: Seq<(Seq<char>, Json)>, key: Seq<char>, value: Json)
    requires
        Json::Object(entries).well_formed(),
        value.well_formed(),
    ensures
        Json::Object(put(entries, key, value)).well_formed(),
{
    lemma_position(entries, key);
    lemma_put(entries, key, value, key);
    let after = put(entries, key, value);
    let p = position(entries, key);
    assert forall|i: int| 0 <= i < after.len() implies (#[trigger] after[i]).1.well_formed() by {
        if i != p {
            assert(after[i] == entries[i]);
        }
    }
}

/// A member of a well-formed value is well formed.
pub proof fn lemma_member_well_formed(j: Json, key: Seq<char>)
    requires
        j.well_formed(),
    ensures
        j.get(key) matches Some(member) ==> member.well_formed(),
{
    lemma_position(j.entries(), key);
    if j.get(key).is_some() {
        if let Json::Object(entries) = j {
            assert(entries[position(entries, key)].1.well_formed());
        }
    }
}

/// The value of an entry of an object is smaller than the object.
pub proof fn lemma_entry_decreases(v: Json, i: int)
    requires
        v is Object,
        0 <= i < v->Object_0.len(),
    ensures
        decreases_to!(v => v->Object_0[i].1),
{
    assert(decreases_to!(v => v->Object_0));
    assert(decreases_to!(v->Object_0 => v->Object_0[i]));
    assert(decreases_to!(v->Object_0[i] => v->Object_0[i].1));
}

/// An item of an array is smaller than the array.
pub proof fn lemma_item_decreases(v: Json, i: int)
    requires
        v is Array,
        0 <= i < v->Array_0.len(),
    ensures
        decreases_to!(v => v->Array_0[i]),
{
    assert(decreases_to!(v => v->Array_0));
    assert(decreases_to!(v->Array_0 => v->Array_0[i]));
}

} // verus!
