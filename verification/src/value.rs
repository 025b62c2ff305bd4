//! The values of a document, and their mathematical model.

use crate::number::{denotes_number, is_decimal_literal, minimal, minimal_literal};
use crate::text::{chars_of, decimal, push_decimal, string_of};
use vstd::prelude::*;

verus! {

/// What a getter returns: the part asked for, or nothing where the value is
/// of another shape.
pub type GetterResult<T> = Result<T, ()>;

/// A value without parts.
#[derive(Debug, Clone)]
pub enum PrimitiveValue {
    /// A number, held as a decimal literal that denotes it. What the
    /// library makes holds the shortest such literal.
    Number(String),
    String(String),
    Boolean(bool),
    Null,
}

/// The mathematical value of a [`PrimitiveValue`].
pub enum Scalar {
    Number(Seq<char>),
    Text(Seq<char>),
    Boolean(bool),
    Null,
}

impl View for PrimitiveValue {
    type V = Scalar;

    open spec fn view(&self) -> Scalar {
        match self {
            PrimitiveValue::Number(t) => Scalar::Number(t@),
            PrimitiveValue::String(s) => Scalar::Text(s@),
            PrimitiveValue::Boolean(b) => Scalar::Boolean(*b),
            PrimitiveValue::Null => Scalar::Null,
        }
    }
}

impl PrimitiveValue {
    /// The number that the literal `text` denotes, held by the shortest
    /// literal that denotes it; nothing where `text` denotes no number.
    pub fn number(text: &str) -> (r: Option<PrimitiveValue>)
        ensures
            match r {
                Some(p) => is_decimal_literal(text@) && p@ == Scalar::Number(minimal(text@)),
                None => !is_decimal_literal(text@),
            },
    {
        let t = chars_of(text);
        if denotes_number(t.as_slice()) {
            Some(PrimitiveValue::Number(string_of(minimal_literal(t.as_slice()).as_slice())))
        } else {
            None
        }
    }

    pub fn is_number(&self) -> (r: bool)
        ensures
            r == (self@ is Number),
    {
        matches!(self, PrimitiveValue::Number(_))
    }

    pub fn is_string(&self) -> (r: bool)
        ensures
            r == (self@ is Text),
    {
        matches!(self, PrimitiveValue::String(_))
    }

    pub fn is_boolean(&self) -> (r: bool)
        ensures
            r == (self@ is Boolean),
    {
        matches!(self, PrimitiveValue::Boolean(_))
    }

    pub fn is_null(&self) -> (r: bool)
        ensures
            r == (self@ is Null),
    {
        matches!(self, PrimitiveValue::Null)
    }

    /// The literal of a number.
    pub fn get_number(&self) -> (r: GetterResult<&String>)
        ensures
            match self@ {
                Scalar::Number(t) => r matches Ok(s) && s@ == t,
                _ => r is Err,
            },
    {
        match self {
            PrimitiveValue::Number(n) => Ok(n),
            _ => Err(()),
        }
    }

    pub fn get_boolean(&self) -> (r: GetterResult<bool>)
        ensures
            match self@ {
                Scalar::Boolean(b) => r == Ok::<bool, ()>(b),
                _ => r is Err,
            },
    {
        match self {
            PrimitiveValue::Boolean(b) => Ok(*b),
            _ => Err(()),
        }
    }

    pub fn get_string(&self) -> (r: GetterResult<&String>)
        ensures
            match self@ {
                Scalar::Text(t) => r matches Ok(s) && s@ == t,
                _ => r is Err,
            },
    {
        match self {
            PrimitiveValue::String(s) => Ok(s),
            _ => Err(()),
        }
    }

    /// Tells whether `self` and `other` hold the same.
    pub fn same_as(&self, other: &PrimitiveValue) -> (r: bool)
        ensures
            r == (self@ == other@),
    {
        match (self, other) {
            (PrimitiveValue::Number(a), PrimitiveValue::Number(b)) => *a == *b,
            (PrimitiveValue::String(a), PrimitiveValue::String(b)) => *a == *b,
            (PrimitiveValue::Boolean(a), PrimitiveValue::Boolean(b)) => *a == *b,
            (PrimitiveValue::Null, PrimitiveValue::Null) => true,
            _ => false,
        }
    }
}

impl PartialEq for PrimitiveValue {
    fn eq(&self, other: &Self) -> (r: bool) {
        self.same_as(other)
    }
}

impl vstd::std_specs::cmp::PartialEqSpecImpl for PrimitiveValue {
    open spec fn obeys_eq_spec() -> bool {
        true
    }

    open spec fn eq_spec(&self, other: &Self) -> bool {
        self@ == other@
    }
}

impl From<String> for PrimitiveValue {
    fn from(value: String) -> (r: Self) {
        PrimitiveValue::String(value)
    }
}

impl vstd::std_specs::convert::FromSpecImpl<String> for PrimitiveValue {
    open spec fn obeys_from_spec() -> bool {
        true
    }

    open spec fn from_spec(value: String) -> Self {
        PrimitiveValue::String(value)
    }
}

impl From<&str> for PrimitiveValue {
    fn from(value: &str) -> (r: Self)
        ensures
            r@ == Scalar::Text(value@),
    {
        PrimitiveValue::String(value.to_owned())
    }
}

impl vstd::std_specs::convert::FromSpecImpl<&str> for PrimitiveValue {
    open spec fn obeys_from_spec() -> bool {
        false
    }

    open spec fn from_spec(value: &str) -> Self {
        choose|p: PrimitiveValue| p@ == Scalar::Text(value@)
    }
}

impl From<char> for PrimitiveValue {
    fn from(value: char) -> (r: Self)
        ensures
            r@ == Scalar::Text(seq![value]),
    {
        let mut text: Vec<char> = Vec::new();
        text.push(value);
        PrimitiveValue::String(string_of(text.as_slice()))
    }
}

impl vstd::std_specs::convert::FromSpecImpl<char> for PrimitiveValue {
    open spec fn obeys_from_spec() -> bool {
        false
    }

    open spec fn from_spec(value: char) -> Self {
        choose|p: PrimitiveValue| p@ == Scalar::Text(seq![value])
    }
}

impl From<bool> for PrimitiveValue {
    fn from(value: bool) -> (r: Self) {
        PrimitiveValue::Boolean(value)
    }
}

impl vstd::std_specs::convert::FromSpecImpl<bool> for PrimitiveValue {
    open spec fn obeys_from_spec() -> bool {
        true
    }

    open spec fn from_spec(value: bool) -> Self {
        PrimitiveValue::Boolean(value)
    }
}

/// The literal of the whole number `n`: a minus sign where `n` is negative,
/// and the decimal digits of its magnitude.
pub open spec fn integer_literal(n: int) -> Seq<char> {
    if n < 0 {
        seq!['-'] + decimal((-n) as nat)
    } else {
        decimal(n as nat)
    }
}

impl From<i32> for PrimitiveValue {
    fn from(value: i32) -> (r: Self)
        ensures
            r@ == Scalar::Number(integer_literal(value as int)),
    {
        let mut text: Vec<char> = Vec::new();
        if value < 0 {
            text.push('-');
            push_decimal(&mut text, (-(value as i64)) as u64);
        } else {
            push_decimal(&mut text, value as u64);
        }
        PrimitiveValue::Number(string_of(text.as_slice()))
    }
}

impl vstd::std_specs::convert::FromSpecImpl<i32> for PrimitiveValue {
    open spec fn obeys_from_spec() -> bool {
        false
    }

    open spec fn from_spec(value: i32) -> Self {
        choose|p: PrimitiveValue| p@ == Scalar::Number(integer_literal(value as int))
    }
}

/// What a key maps to and what an array holds. The entries of an object
/// stand in the order in which their keys first came.
#[derive(Debug)]
pub enum Value {
    Primitive(PrimitiveValue),
    Object(Vec<(String, Value)>),
    Array(Vec<Value>),
}

/// The mathematical value of a [`Value`].
pub enum Tree {
    Primitive(Scalar),
    Object(Seq<(Seq<char>, Tree)>),
    Array(Seq<Tree>),
}

impl View for Value {
    type V = Tree;

    open spec fn view(&self) -> Tree
        decreases self,
    {
        match self {
            Value::Primitive(p) => Tree::Primitive(p@),
            Value::Object(entries) => Tree::Object(
                Seq::new(
                    entries.len() as nat,
                    |i: int|
                        (
                            entries[i].0@,
                            if 0 <= i < entries.len() {
                                entries[i].1.view()
                            } else {
                                Tree::Primitive(Scalar::Null)
                            },
                        ),
                ),
            ),
            Value::Array(items) => Tree::Array(
                Seq::new(
                    items.len() as nat,
                    |i: int|
                        if 0 <= i < items.len() {
                            items[i].view()
                        } else {
                            Tree::Primitive(Scalar::Null)
                        },
                ),
            ),
        }
    }
}

impl Value {
    /// The object without entries.
    pub fn empty_object() -> (r: Value)
        ensures
            r@ == Tree::Object(Seq::empty()),
    {
        let entries: Vec<(String, Value)> = Vec::new();
        proof {
            assert(Value::Object(entries)@->Object_0 =~= Seq::empty());
        }
        Value::Object(entries)
    }

    /// The object that holds `value` under `key` and nothing else.
    pub fn key_value_pair(key: String, value: Value) -> (r: Value)
        ensures
            r@ == Tree::Object(seq![(key@, value@)]),
    {
        let mut entries: Vec<(String, Value)> = Vec::new();
        entries.push((key, value));
        proof {
            assert(Value::Object(entries)@->Object_0 =~= seq![(key@, value@)]);
        }
        Value::Object(entries)
    }

    /// The primitive that holds nothing.
    pub fn null() -> (r: Value)
        ensures
            r@ == Tree::null(),
    {
        Value::Primitive(PrimitiveValue::Null)
    }

    pub fn is_primitive(&self) -> (r: bool)
        ensures
            r == (self@ is Primitive),
    {
        matches!(self, Value::Primitive(_))
    }

    pub fn is_object(&self) -> (r: bool)
        ensures
            r == (self@ is Object),
    {
        matches!(self, Value::Object(_))
    }

    pub fn is_array(&self) -> (r: bool)
        ensures
            r == (self@ is Array),
    {
        matches!(self, Value::Array(_))
    }

    /// The entries of an object.
    pub fn get_objects(&self) -> (r: GetterResult<&Vec<(String, Value)>>)
        ensures
            match self@ {
                Tree::Object(entries) => r matches Ok(found) && entries_view(found@) == entries,
                _ => r is Err,
            },
    {
        match self {
            Value::Object(entries) => {
                proof {
                    lemma_object_view(*entries);
                }
                Ok(entries)
            },
            _ => Err(()),
        }
    }

    /// The items of an array.
    pub fn get_vector(&self) -> (r: GetterResult<&Vec<Value>>)
        ensures
            match self@ {
                Tree::Array(items) => r matches Ok(found) && items_view(found@) == items,
                _ => r is Err,
            },
    {
        match self {
            Value::Array(items) => {
                proof {
                    lemma_array_view(*items);
                }
                Ok(items)
            },
            _ => Err(()),
        }
    }

    /// The primitive that the value is.
    pub fn get_primitive(&self) -> (r: GetterResult<&PrimitiveValue>)
        ensures
            match self@ {
                Tree::Primitive(p) => r matches Ok(found) && found@ == p,
                _ => r is Err,
            },
    {
        match self {
            Value::Primitive(p) => Ok(p),
            _ => Err(()),
        }
    }

    /// The value under `key` in an object.
    pub fn get(&self, key: &str) -> (r: Option<&Value>)
        ensures
            match self@ {
                Tree::Object(entries) => {
                    let i = key_position(entries, key@, 0);
                    if i < entries.len() {
                        r matches Some(found) && found@ == entries[i].1
                    } else {
                        r is None
                    }
                },
                _ => r is None,
            },
    {
        match self {
            Value::Object(entries) => {
                proof {
                    lemma_object_view(*entries);
                    lemma_key_position(entries_view(entries@), key@, 0);
                }
                let i = find_key(entries, &key.to_owned());
                if i < entries.len() {
                    Some(&entries[i].1)
                } else {
                    None
                }
            },
            _ => None,
        }
    }

    /// The object that holds each pair of `pairs`, a later pair replacing
    /// the value of an earlier one with the same key.
    pub fn object_from_iter(pairs: Vec<(String, Value)>) -> (r: Value)
        ensures
            r@ == Tree::Object(inserted(Seq::empty(), entries_view(pairs@), pairs@.len() as int)),
            distinct_keys(r@->Object_0),
    {
        proof {
            lemma_inserted_distinct(Seq::empty(), entries_view(pairs@), pairs@.len() as int);
        }
        let ghost all = entries_view(pairs@);
        let ghost total = pairs@.len() as int;
        let mut entries: Vec<(String, Value)> = Vec::new();
        let ghost given = pairs@;
        let mut pairs = turned(pairs);
        proof {
            assert(entries_view(entries@) =~= Seq::empty());
        }
        while pairs.len() > 0
            invariant
                pairs@.len() <= total,
                given.len() == total,
                all == entries_view(given),
                forall|k: int| 0 <= k < pairs@.len() ==> #[trigger] pairs@[k] == given[total - 1 - k],
                entries_view(entries@) == inserted(Seq::empty(), all, total - pairs@.len()),
            decreases pairs@.len(),
        {
            let ghost done = total - pairs@.len();
            let (key, value) = pairs.pop().unwrap();
            proof {
                assert((key, value) == given[done]);
            }
            insert_value(&mut entries, key, value);
        }
        proof {
            lemma_object_view(entries);
        }
        Value::Object(entries)
    }

    /// The object that holds each pair of `vec`, a later pair replacing the
    /// value of an earlier one with the same key.
    pub fn object_from_vec(vec: Vec<(&str, Value)>) -> (r: Value)
        ensures
            r@ == Tree::Object(inserted(Seq::empty(), named_view(vec@), vec@.len() as int)),
            distinct_keys(r@->Object_0),
    {
        proof {
            lemma_inserted_distinct(Seq::empty(), named_view(vec@), vec@.len() as int);
        }
        let ghost all = named_view(vec@);
        let ghost given = vec@;
        let ghost total = vec@.len() as int;
        let mut entries: Vec<(String, Value)> = Vec::new();
        let mut vec = turned(vec);
        proof {
            assert(entries_view(entries@) =~= Seq::empty());
        }
        while vec.len() > 0
            invariant
                vec@.len() <= total,
                given.len() == total,
                all == named_view(given),
                forall|k: int| 0 <= k < vec@.len() ==> #[trigger] vec@[k] == given[total - 1 - k],
                entries_view(entries@) == inserted(Seq::empty(), all, total - vec@.len()),
            decreases vec@.len(),
        {
            let ghost done = total - vec@.len();
            let (key, value) = vec.pop().unwrap();
            proof {
                assert((key, value) == given[done]);
            }
            insert_value(&mut entries, key.to_owned(), value);
        }
        proof {
            lemma_object_view(entries);
        }
        Value::Object(entries)
    }

    /// Tells whether `self` and `other` are the same value. The order of
    /// the entries of an object does not count.
    pub fn same_as(&self, other: &Value) -> (r: bool)
        ensures
            r == same(self@, other@),
        decreases self,
    {
        match (self, other) {
            (Value::Primitive(p), Value::Primitive(q)) => p.same_as(q),
            (Value::Array(x), Value::Array(y)) => {
                proof {
                    lemma_array_view(*x);
                    lemma_array_view(*y);
                }
                if x.len() != y.len() {
                    return false;
                }
                let mut i: usize = 0;
                while i < x.len()
                    invariant
                        i <= x.len(),
                        x.len() == y.len(),
                        *self == Value::Array(*x),
                        self@ == Tree::Array(items_view(x@)),
                        other@ == Tree::Array(items_view(y@)),
                        forall|k: int|
                            0 <= k < i ==> same(
                                (#[trigger] items_view(x@)[k]),
                                items_view(y@)[k],
                            ),
                    decreases x.len() - i,
                {
                    proof {
                        assert(self->Array_0 == *x);
                        assert(decreases_to!(*self => self->Array_0));
                        assert(decreases_to!(*x => x[i as int]));
                    }
                    if !x[i].same_as(&y[i]) {
                        assert(!same(items_view(x@)[i as int], items_view(y@)[i as int]));
                        return false;
                    }
                    i += 1;
                }
                true
            },
            (Value::Object(x), Value::Object(y)) => {
                proof {
                    lemma_object_view(*x);
                    lemma_object_view(*y);
                }
                if x.len() != y.len() {
                    return false;
                }
                let mut i: usize = 0;
                while i < x.len()
                    invariant
                        i <= x.len(),
                        x.len() == y.len(),
                        *self == Value::Object(*x),
                        self@ == Tree::Object(entries_view(x@)),
                        other@ == Tree::Object(entries_view(y@)),
                        forall|k: int|
                            0 <= k < i ==> same_entry(
                                (#[trigger] entries_view(x@)[k]),
                                entries_view(y@),
                            ),
                    decreases x.len() - i,
                {
                    proof {
                        assert(self->Object_0 == *x);
                        assert(decreases_to!(*self => self->Object_0));
                        assert(decreases_to!(*x => x[i as int]));
                        assert(decreases_to!(x[i as int] => x[i as int].1));
                        lemma_key_position(entries_view(y@), x[i as int].0@, 0);
                    }
                    let j = find_key(y, &x[i].0);
                    if j >= y.len() || !x[i].1.same_as(&y[j].1) {
                        assert(!same_entry(entries_view(x@)[i as int], entries_view(y@)));
                        return false;
                    }
                    i += 1;
                }
                true
            },
            _ => false,
        }
    }
}

impl Clone for Value {
    fn clone(&self) -> (r: Self)
        ensures
            r@ == self@,
        decreases self,
    {
        match self {
            Value::Primitive(p) => {
                let q = match p {
                    PrimitiveValue::Number(t) => PrimitiveValue::Number(t.clone()),
                    PrimitiveValue::String(s) => PrimitiveValue::String(s.clone()),
                    PrimitiveValue::Boolean(b) => PrimitiveValue::Boolean(*b),
                    PrimitiveValue::Null => PrimitiveValue::Null,
                };
                Value::Primitive(q)
            },
            Value::Object(entries) => {
                let mut copy: Vec<(String, Value)> = Vec::new();
                let mut i: usize = 0;
                proof {
                    assert(entries_view(copy@) =~= entries_view(entries@).take(0));
                }
                while i < entries.len()
                    invariant
                        i <= entries.len(),
                        *self == Value::Object(*entries),
                        entries_view(copy@) == entries_view(entries@).take(i as int),
                    decreases entries.len() - i,
                {
                    proof {
                        assert(self->Object_0 == *entries);
                        assert(decreases_to!(*self => self->Object_0));
                        assert(decreases_to!(*entries => entries[i as int]));
                        assert(decreases_to!(entries[i as int] => entries[i as int].1));
                    }
                    let ghost before = entries_view(copy@);
                    let key = entries[i].0.clone();
                    let value = entries[i].1.clone();
                    copy.push((key, value));
                    proof {
                        assert(entries_view(copy@) =~= before.push((key@, value@)));
                        assert(entries_view(entries@).take(i + 1) =~= entries_view(entries@).take(
                            i as int,
                        ).push(entries_view(entries@)[i as int]));
                    }
                    i += 1;
                }
                proof {
                    assert(entries_view(entries@).take(entries.len() as int) =~= entries_view(
                        entries@,
                    ));
                    lemma_object_view(copy);
                    lemma_object_view(*entries);
                }
                Value::Object(copy)
            },
            Value::Array(items) => {
                let mut copy: Vec<Value> = Vec::new();
                let mut i: usize = 0;
                proof {
                    assert(items_view(copy@) =~= items_view(items@).take(0));
                }
                while i < items.len()
                    invariant
                        i <= items.len(),
                        *self == Value::Array(*items),
                        items_view(copy@) == items_view(items@).take(i as int),
                    decreases items.len() - i,
                {
                    proof {
                        assert(self->Array_0 == *items);
                        assert(decreases_to!(*self => self->Array_0));
                        assert(decreases_to!(*items => items[i as int]));
                    }
                    let ghost before = items_view(copy@);
                    let value = items[i].clone();
                    copy.push(value);
                    proof {
                        assert(items_view(copy@) =~= before.push(value@));
                        assert(items_view(items@).take(i + 1) =~= items_view(items@).take(
                            i as int,
                        ).push(items_view(items@)[i as int]));
                    }
                    i += 1;
                }
                proof {
                    assert(items_view(items@).take(items.len() as int) =~= items_view(items@));
                    lemma_array_view(copy);
                    lemma_array_view(*items);
                }
                Value::Array(copy)
            },
        }
    }
}

impl PartialEq for Value {
    fn eq(&self, other: &Self) -> (r: bool) {
        self.same_as(other)
    }
}

impl vstd::std_specs::cmp::PartialEqSpecImpl for Value {
    open spec fn obeys_eq_spec() -> bool {
        true
    }

    open spec fn eq_spec(&self, other: &Self) -> bool {
        same(self@, other@)
    }
}

impl From<PrimitiveValue> for Value {
    fn from(value: PrimitiveValue) -> (r: Self) {
        Value::Primitive(value)
    }
}

impl vstd::std_specs::convert::FromSpecImpl<PrimitiveValue> for Value {
    open spec fn obeys_from_spec() -> bool {
        true
    }

    open spec fn from_spec(value: PrimitiveValue) -> Self {
        Value::Primitive(value)
    }
}

impl From<String> for Value {
    fn from(value: String) -> (r: Self) {
        Value::Primitive(PrimitiveValue::String(value))
    }
}

impl vstd::std_specs::convert::FromSpecImpl<String> for Value {
    open spec fn obeys_from_spec() -> bool {
        true
    }

    open spec fn from_spec(value: String) -> Self {
        Value::Primitive(PrimitiveValue::String(value))
    }
}

impl From<&str> for Value {
    fn from(value: &str) -> (r: Self)
        ensures
            r@ == Tree::Primitive(Scalar::Text(value@)),
    {
        Value::Primitive(PrimitiveValue::from(value))
    }
}

impl vstd::std_specs::convert::FromSpecImpl<&str> for Value {
    open spec fn obeys_from_spec() -> bool {
        false
    }

    open spec fn from_spec(value: &str) -> Self {
        choose|v: Value| v@ == Tree::Primitive(Scalar::Text(value@))
    }
}

impl From<char> for Value {
    fn from(value: char) -> (r: Self)
        ensures
            r@ == Tree::Primitive(Scalar::Text(seq![value])),
    {
        Value::Primitive(PrimitiveValue::from(value))
    }
}

impl vstd::std_specs::convert::FromSpecImpl<char> for Value {
    open spec fn obeys_from_spec() -> bool {
        false
    }

    open spec fn from_spec(value: char) -> Self {
        choose|v: Value| v@ == Tree::Primitive(Scalar::Text(seq![value]))
    }
}

impl From<bool> for Value {
    fn from(value: bool) -> (r: Self) {
        Value::Primitive(PrimitiveValue::Boolean(value))
    }
}

impl vstd::std_specs::convert::FromSpecImpl<bool> for Value {
    open spec fn obeys_from_spec() -> bool {
        true
    }

    open spec fn from_spec(value: bool) -> Self {
        Value::Primitive(PrimitiveValue::Boolean(value))
    }
}

impl From<i32> for Value {
    fn from(value: i32) -> (r: Self)
        ensures
            r@ == Tree::Primitive(Scalar::Number(integer_literal(value as int))),
    {
        Value::Primitive(PrimitiveValue::from(value))
    }
}

impl vstd::std_specs::convert::FromSpecImpl<i32> for Value {
    open spec fn obeys_from_spec() -> bool {
        false
    }

    open spec fn from_spec(value: i32) -> Self {
        choose|v: Value| v@ == Tree::Primitive(Scalar::Number(integer_literal(value as int)))
    }
}

/// The items of `v` in the opposite order.
fn turned<T>(v: Vec<T>) -> (r: Vec<T>)
    ensures
        r@.len() == v@.len(),
        forall|k: int| 0 <= k < r@.len() ==> #[trigger] r@[k] == v@[v@.len() - 1 - k],
{
    let mut v = v;
    let ghost given = v@;
    let mut r: Vec<T> = Vec::new();
    while v.len() > 0
        invariant
            v@.len() + r@.len() == given.len(),
            forall|k: int| 0 <= k < v@.len() ==> #[trigger] v@[k] == given[k],
            forall|k: int| 0 <= k < r@.len() ==> #[trigger] r@[k] == given[given.len() - 1 - k],
        decreases v@.len(),
    {
        let x = v.pop().unwrap();
        r.push(x);
    }
    r
}

/// The pairs of a vector of named values, each by its mathematical value.
pub open spec fn named_view(pairs: Seq<(&str, Value)>) -> Seq<(Seq<char>, Tree)> {
    Seq::new(pairs.len(), |i: int| (pairs[i].0@, pairs[i].1@))
}

/// `entries` after the first `n` pairs of `pairs` have been inserted, one
/// after the other.
pub open spec fn inserted(
    entries: Seq<(Seq<char>, Tree)>,
    pairs: Seq<(Seq<char>, Tree)>,
    n: int,
) -> Seq<(Seq<char>, Tree)>
    decreases n,
{
    if n <= 0 || n > pairs.len() {
        entries
    } else {
        insert_entry(inserted(entries, pairs, n - 1), pairs[n - 1].0, pairs[n - 1].1)
    }
}

/// To give a key a value keeps the keys apart.
pub proof fn lemma_insert_distinct(entries: Seq<(Seq<char>, Tree)>, key: Seq<char>, value: Tree)
    requires
        distinct_keys(entries),
    ensures
        distinct_keys(insert_entry(entries, key, value)),
{
    lemma_key_position(entries, key, 0);
    let i = key_position(entries, key, 0);
    let after = insert_entry(entries, key, value);
    assert forall|a: int, b: int| 0 <= a < b < after.len() implies (#[trigger] after[a]).0 != (
    #[trigger] after[b]).0 by {
        if a < entries.len() {
            assert(after[a].0 == entries[a].0);
        }
        if b < entries.len() {
            assert(after[b].0 == entries[b].0);
        }
    }
}

/// To insert pairs one after the other keeps the keys apart.
pub proof fn lemma_inserted_distinct(
    entries: Seq<(Seq<char>, Tree)>,
    pairs: Seq<(Seq<char>, Tree)>,
    n: int,
)
    requires
        distinct_keys(entries),
    ensures
        distinct_keys(inserted(entries, pairs, n)),
    decreases n,
{
    if 0 < n <= pairs.len() {
        lemma_inserted_distinct(entries, pairs, n - 1);
        lemma_insert_distinct(inserted(entries, pairs, n - 1), pairs[n - 1].0, pairs[n - 1].1);
    }
}

/// The entry `entry` has its like among `others`: the first of them with
/// its key holds the same value.
pub open spec fn same_entry(entry: (Seq<char>, Tree), others: Seq<(Seq<char>, Tree)>) -> bool
    decreases entry.1, 1nat,
{
    let j = key_position(others, entry.0, 0);
    0 <= j < others.len() && same(entry.1, others[j].1)
}

/// Two values are the same: equal primitives, arrays with the same items
/// in the same order, and objects with as many entries of which each has its
/// like in the other. For objects without a key that occurs twice, this is
/// to hold the same value under every key.
pub open spec fn same(a: Tree, b: Tree) -> bool
    decreases a, 0nat,
{
    match (a, b) {
        (Tree::Primitive(p), Tree::Primitive(q)) => p == q,
        (Tree::Array(x), Tree::Array(y)) => x.len() == y.len() && forall|i: int|
            0 <= i < x.len() ==> same(#[trigger] x[i], y[i]),
        (Tree::Object(x), Tree::Object(y)) => x.len() == y.len() && forall|i: int|
            0 <= i < x.len() ==> same_entry(#[trigger] x[i], y),
        _ => false,
    }
}

/// `key_position` moves forward, stays within the entries, and stops at
/// the first entry with the key.
pub proof fn lemma_key_position(entries: Seq<(Seq<char>, Tree)>, key: Seq<char>, from: int)
    requires
        0 <= from <= entries.len(),
    ensures
        from <= key_position(entries, key, from) <= entries.len(),
        forall|k: int|
            from <= k < key_position(entries, key, from) ==> (#[trigger] entries[k]).0 != key,
        key_position(entries, key, from) < entries.len() ==> entries[key_position(
            entries,
            key,
            from,
        )].0 == key,
    decreases entries.len() - from,
{
    if from < entries.len() && entries[from].0 != key {
        lemma_key_position(entries, key, from + 1);
    }
}

/// The position of the first entry with the key `key`, or the number of
/// entries.
pub fn find_key(entries: &Vec<(String, Value)>, key: &String) -> (i: usize)
    ensures
        i == key_position(entries_view(entries@), key@, 0),
        i <= entries.len(),
{
    let ghost model = entries_view(entries@);
    let mut i: usize = 0;
    while i < entries.len()
        invariant
            i <= entries.len(),
            model == entries_view(entries@),
            key_position(model, key@, 0) == key_position(model, key@, i as int),
        decreases entries.len() - i,
    {
        if entries[i].0 == *key {
            return i;
        }
        i += 1;
    }
    i
}

/// The entries of an object, each by its mathematical value.
pub open spec fn entries_view(entries: Seq<(String, Value)>) -> Seq<(Seq<char>, Tree)> {
    Seq::new(entries.len(), |i: int| (entries[i].0@, entries[i].1@))
}

/// The items of an array, each by its mathematical value.
pub open spec fn items_view(items: Seq<Value>) -> Seq<Tree> {
    Seq::new(items.len(), |i: int| items[i]@)
}

/// The value of an object is made of the values of its entries.
pub proof fn lemma_object_view(entries: Vec<(String, Value)>)
    ensures
        Value::Object(entries)@ == Tree::Object(entries_view(entries@)),
{
    assert(Value::Object(entries)@->Object_0 =~= entries_view(entries@));
}

/// The value of an array is made of the values of its items.
pub proof fn lemma_array_view(items: Vec<Value>)
    ensures
        Value::Array(items)@ == Tree::Array(items_view(items@)),
{
    assert(Value::Array(items)@->Array_0 =~= items_view(items@));
}

/// The first position at or after `from` whose entry has the key `key`, or
/// the number of entries.
pub open spec fn key_position(entries: Seq<(Seq<char>, Tree)>, key: Seq<char>, from: int) -> int
    decreases entries.len() - from,
{
    if 0 <= from < entries.len() && entries[from].0 != key {
        key_position(entries, key, from + 1)
    } else {
        from
    }
}

/// The entries after `key` has been given `value`: the entry of that key
/// holds the new value in its old place, or a new entry stands at the end.
pub open spec fn insert_entry(entries: Seq<(Seq<char>, Tree)>, key: Seq<char>, value: Tree) -> Seq<
    (Seq<char>, Tree),
> {
    let i = key_position(entries, key, 0);
    if 0 <= i < entries.len() {
        entries.update(i, (key, value))
    } else {
        entries.push((key, value))
    }
}

/// No key occurs twice among the entries.
pub open spec fn distinct_keys(entries: Seq<(Seq<char>, Tree)>) -> bool {
    forall|i: int, j: int|
        0 <= i < j < entries.len() ==> (#[trigger] entries[i]).0 != (#[trigger] entries[j]).0
}

impl Tree {
    /// The value without parts that holds nothing.
    pub open spec fn null() -> Tree {
        Tree::Primitive(Scalar::Null)
    }

    /// In every object of the tree, no key occurs twice.
    pub open spec fn wf(self) -> bool
        decreases self,
    {
        match self {
            Tree::Primitive(_) => true,
            Tree::Object(entries) => distinct_keys(entries) && forall|i: int|
                0 <= i < entries.len() ==> (#[trigger] entries[i]).1.wf(),
            Tree::Array(items) => forall|i: int| 0 <= i < items.len() ==> (#[trigger] items[i]).wf(),
        }
    }
}

/// Gives `key` the value `value` among `entries`.
pub fn insert_value(entries: &mut Vec<(String, Value)>, key: String, value: Value)
    ensures
        entries_view(final(entries)@) == insert_entry(entries_view(old(entries)@), key@, value@),
{
    let ghost before = entries_view(entries@);
    let i = find_key(entries, &key);
    if i < entries.len() {
        entries.set(i, (key, value));
        proof {
            assert(entries_view(entries@) =~= before.update(i as int, (key@, value@)));
        }
    } else {
        entries.push((key, value));
        proof {
            assert(entries_view(entries@) =~= before.push((key@, value@)));
        }
    }
}

} // verus!
