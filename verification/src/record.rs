//! The dynamic value model used as a record payload.
//!
//! A record payload is a [`ValueMap`] from string keys to [`Value`]s. Keys are
//! unique; insertion order is kept only as the wire order, it carries no
//! meaning. A float is stored as its IEEE-754 bit pattern so that the whole
//! model is made of plain values.

use vstd::prelude::*;
use vstd::string::StringSliceAdditionalSpecFns;

verus! {

broadcast use vstd::utf8::encode_utf8_decode_utf8, vstd::utf8::encode_utf8_valid_utf8;

/// A tagged dynamic value: the payload side of a record.
#[derive(Debug, PartialEq)]
pub enum Value {
    /// Boolean
    Bool(bool),
    /// Signed integer
    Int(i64),
    /// Unsigned integer
    Uint(u64),
    /// 64-bit IEEE-754 float, stored as its bit pattern
    /// (`f64::to_bits` on the producer side)
    Float(u64),
    /// String
    Str(String),
    /// Object
    Object(ValueMap),
    /// Array
    Array(Vec<Value>),
}

/// A mapping from string keys to values, keys unique.
#[derive(Debug, PartialEq)]
pub struct ValueMap {
    entries: Vec<(String, Value)>,
}

impl View for ValueMap {
    type V = Seq<(String, Value)>;

    closed spec fn view(&self) -> Seq<(String, Value)> {
        self.entries@
    }
}

/// A map is measurably larger than its sequence of entries, so a
/// specification that walks a [`Value`] may recurse from an object into
/// its entries.
pub broadcast proof fn lemma_valuemap_view_decreases(m: ValueMap)
    ensures
        #[trigger] (decreases_to!(m => m@)),
{
    assert(decreases_to!(m => m.entries));
    assert(decreases_to!(m.entries => m.entries@));
}

/// Whether some entry of `s` has the key `k`.
pub open spec fn has_key(s: Seq<(String, Value)>, k: Seq<char>) -> bool {
    exists|i: int| 0 <= i < s.len() && s[i].0@ == k
}

/// The index of the entry of `s` with key `k`, where one exists.
pub open spec fn key_index(s: Seq<(String, Value)>, k: Seq<char>) -> int {
    choose|i: int| 0 <= i < s.len() && s[i].0@ == k
}

/// The value stored under key `k`, if any.
pub open spec fn spec_get(s: Seq<(String, Value)>, k: Seq<char>) -> Option<Value> {
    if has_key(s, k) {
        Some(s[key_index(s, k)].1)
    } else {
        None
    }
}

/// No two entries of `s` share a key.
pub open spec fn keys_unique(s: Seq<(String, Value)>) -> bool {
    forall|i: int, j: int| 0 <= i < j < s.len() ==> s[i].0@ != s[j].0@
}

/// `s` with the entry `kv` set: replacing the entry with the same key
/// in place, or appended at the end when the key is new.
pub open spec fn spec_insert(s: Seq<(String, Value)>, kv: (String, Value)) -> Seq<
    (String, Value),
> {
    if has_key(s, kv.0@) {
        s.update(key_index(s, kv.0@), kv)
    } else {
        s.push(kv)
    }
}

/// The entries of an empty map, with each element of `es` inserted in turn.
pub open spec fn spec_insert_all(s: Seq<(String, Value)>, es: Seq<(String, Value)>) -> Seq<
    (String, Value),
>
    decreases es.len(),
{
    if es.len() == 0 {
        s
    } else {
        spec_insert_all(spec_insert(s, es[0]), es.drop_first())
    }
}

/// String equality by byte comparison; two `&str` are equal exactly when
/// their character sequences are.
pub fn str_eq(a: &str, b: &str) -> (r: bool)
    ensures
        r == (a@ == b@),
{
    let ab = a.as_bytes();
    let bb = b.as_bytes();
    if ab.len() != bb.len() {
        proof {
            if a@ == b@ {
                assert(a.spec_bytes() == b.spec_bytes());
            }
        }
        return false;
    }
    let n = ab.len();
    let mut i: usize = 0;
    while i < n
        invariant
            n == ab@.len() == bb@.len(),
            ab@ == a.spec_bytes(),
            bb@ == b.spec_bytes(),
            i <= n,
            forall|j: int| 0 <= j < i ==> ab@[j] == bb@[j],
        decreases n - i,
    {
        if ab[i] != bb[i] {
            proof {
                if a@ == b@ {
                    assert(a.spec_bytes() == b.spec_bytes());
                }
            }
            return false;
        }
        i += 1;
    }
    proof {
        assert(a.spec_bytes() =~= b.spec_bytes());
        assert(vstd::utf8::decode_utf8(a.spec_bytes()) == a@);
        assert(vstd::utf8::decode_utf8(b.spec_bytes()) == b@);
    }
    true
}

impl ValueMap {
    /// All keys are distinct.
    pub open spec fn wf(&self) -> bool {
        keys_unique(self@)
    }

    /// Create an empty ValueMap object.
    pub fn new() -> (r: Self)
        ensures
            r@ == Seq::<(String, Value)>::empty(),
            r.wf(),
    {
        Self { entries: Vec::new() }
    }

    /// Create a ValueMap object from existing key-value pairs, inserted in order;
    /// on a repeated key the later value wins.
    pub fn new_with(map: Vec<(String, Value)>) -> (r: Self)
        ensures
            r@ == spec_insert_all(Seq::<(String, Value)>::empty(), map@),
            r.wf(),
    {
        let mut rest = map;
        let mut r = Self::new();
        while rest.len() > 0
            invariant
                r.wf(),
                spec_insert_all(r@, rest@) == spec_insert_all(
                    Seq::<(String, Value)>::empty(),
                    map@,
                ),
            decreases rest@.len(),
        {
            let ghost before = rest@;
            let (k, v) = rest.remove(0);
            proof {
                assert(before[0] == (k, v));
                assert(before.drop_first() =~= rest@);
            }
            r.insert_pair(k, v);
        }
        r
    }

    /// The number of entries.
    pub fn len(&self) -> (r: usize)
        ensures
            r == self@.len(),
    {
        self.entries.len()
    }

    /// Whether the map holds no entry.
    pub fn is_empty(&self) -> (r: bool)
        ensures
            r == (self@.len() == 0),
    {
        self.entries.len() == 0
    }

    /// The entries in wire order.
    pub fn entries(&self) -> (r: &Vec<(String, Value)>)
        ensures
            r@ == self@,
    {
        &self.entries
    }

    /// Set `key` to `value`, replacing any entry with the same key.
    pub fn insert(&mut self, key: String, value: Value)
        requires
            old(self).wf(),
        ensures
            final(self)@ == spec_insert(old(self)@, (key, value)),
            final(self).wf(),
    {
        self.insert_pair(key, value)
    }

    fn insert_pair(&mut self, key: String, value: Value)
        requires
            old(self).wf(),
        ensures
            final(self)@ == spec_insert(old(self)@, (key, value)),
            final(self).wf(),
    {
        let n = self.entries.len();
        let mut i: usize = 0;
        while i < n
            invariant
                n == self.entries@.len(),
                i <= n,
                old(self).wf(),
                self == old(self),
                forall|j: int| 0 <= j < i ==> self.entries@[j].0@ != key@,
            decreases n - i,
        {
            if str_eq(self.entries[i].0.as_str(), key.as_str()) {
                proof {
                    let s = old(self)@;
                    assert(s[i as int].0@ == key@);
                    assert(has_key(s, key@));
                    let w = key_index(s, key@);
                    assert(s[w].0@ == key@);
                    if w != i as int {
                        assert(false);
                    }
                }
                self.entries.set(i, (key, value));
                proof {
                    assert(self@ =~= spec_insert(old(self)@, (key, value)));
                }
                return ;
            }
            i += 1;
        }
        proof {
            assert(!has_key(old(self)@, key@));
        }
        self.entries.push((key, value));
        proof {
            assert(self@ =~= spec_insert(old(self)@, (key, value)));
            assert forall|a: int, b: int| 0 <= a < b < self@.len() implies self@[a].0@
                != self@[b].0@ by {
                if b == self@.len() - 1 {
                    assert(self@[a] == old(self)@[a]);
                }
            }
        }
    }

    /// Look up `key`.
    pub fn get(&self, key: &str) -> (r: Option<&Value>)
        requires
            self.wf(),
        ensures
            match r {
                Some(v) => spec_get(self@, key@) == Some(*v),
                None => spec_get(self@, key@) is None,
            },
    {
        let n = self.entries.len();
        let mut i: usize = 0;
        while i < n
            invariant
                n == self.entries@.len(),
                self.wf(),
                i <= n,
                forall|j: int| 0 <= j < i ==> self.entries@[j].0@ != key@,
            decreases n - i,
        {
            if str_eq(self.entries[i].0.as_str(), key) {
                proof {
                    let s = self@;
                    assert(s[i as int].0@ == key@);
                    assert(has_key(s, key@));
                    let w = key_index(s, key@);
                    assert(s[w].0@ == key@);
                    if w != i as int {
                        assert(false);
                    }
                }
                return Some(&self.entries[i].1);
            }
            i += 1;
        }
        proof {
            assert(!has_key(self@, key@));
        }
        None
    }
}

impl Default for ValueMap {
    fn default() -> (r: Self)
        ensures
            r@ == Seq::<(String, Value)>::empty(),
            r.wf(),
    {
        Self::new()
    }
}

impl From<bool> for Value {
    fn from(value: bool) -> (r: Self) {
        Self::Bool(value)
    }
}

impl vstd::std_specs::convert::FromSpecImpl<bool> for Value {
    open spec fn obeys_from_spec() -> bool {
        true
    }

    open spec fn from_spec(v: bool) -> Value {
        Value::Bool(v)
    }
}

impl From<i32> for Value {
    fn from(value: i32) -> (r: Self) {
        Self::Int(value as i64)
    }
}

impl vstd::std_specs::convert::FromSpecImpl<i32> for Value {
    open spec fn obeys_from_spec() -> bool {
        true
    }

    open spec fn from_spec(v: i32) -> Value {
        Value::Int(v as i64)
    }
}

impl From<i64> for Value {
    fn from(value: i64) -> (r: Self) {
        Self::Int(value)
    }
}

impl vstd::std_specs::convert::FromSpecImpl<i64> for Value {
    open spec fn obeys_from_spec() -> bool {
        true
    }

    open spec fn from_spec(v: i64) -> Value {
        Value::Int(v)
    }
}

impl From<u32> for Value {
    fn from(value: u32) -> (r: Self) {
        Self::Uint(value as u64)
    }
}

impl vstd::std_specs::convert::FromSpecImpl<u32> for Value {
    open spec fn obeys_from_spec() -> bool {
        true
    }

    open spec fn from_spec(v: u32) -> Value {
        Value::Uint(v as u64)
    }
}

impl From<u64> for Value {
    fn from(value: u64) -> (r: Self) {
        Self::Uint(value)
    }
}

impl vstd::std_specs::convert::FromSpecImpl<u64> for Value {
    open spec fn obeys_from_spec() -> bool {
        true
    }

    open spec fn from_spec(v: u64) -> Value {
        Value::Uint(v)
    }
}

impl From<String> for Value {
    fn from(value: String) -> (r: Self) {
        Self::Str(value)
    }
}

impl vstd::std_specs::convert::FromSpecImpl<String> for Value {
    open spec fn obeys_from_spec() -> bool {
        true
    }

    open spec fn from_spec(v: String) -> Value {
        Value::Str(v)
    }
}

impl<'a> From<&'a str> for Value {
    fn from(value: &'a str) -> (r: Self)
        ensures
            r matches Value::Str(s) && s@ == value@,
    {
        Self::Str(value.to_owned())
    }
}

impl<'a> vstd::std_specs::convert::FromSpecImpl<&'a str> for Value {
    open spec fn obeys_from_spec() -> bool {
        false
    }

    open spec fn from_spec(v: &'a str) -> Value {
        arbitrary()
    }
}

impl From<ValueMap> for Value {
    fn from(value: ValueMap) -> (r: Self) {
        Self::Object(value)
    }
}

impl vstd::std_specs::convert::FromSpecImpl<ValueMap> for Value {
    open spec fn obeys_from_spec() -> bool {
        true
    }

    open spec fn from_spec(v: ValueMap) -> Value {
        Value::Object(v)
    }
}

impl From<Vec<Value>> for Value {
    fn from(value: Vec<Value>) -> (r: Self) {
        Self::Array(value)
    }
}

impl vstd::std_specs::convert::FromSpecImpl<Vec<Value>> for Value {
    open spec fn obeys_from_spec() -> bool {
        true
    }

    open spec fn from_spec(v: Vec<Value>) -> Value {
        Value::Array(v)
    }
}

} // verus!
