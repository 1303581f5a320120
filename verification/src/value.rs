//! The value model of the scripting runtime.
//!
//! The runtime knows nil, booleans, double-precision numbers, strings and one
//! aggregate, the table: an ordered list of key/value pairs that serves as
//! array, map, record and enum envelope alike.

use crate::number::integer_value;
use vstd::prelude::*;

verus! {

/// A runtime value as contracts see it: strings are sequences of
/// characters, a table is a sequence of pairs.
pub enum Value {
    Nil,
    Bool(bool),
    /// A double-precision number, given by its IEEE 754 bit pattern.
    Number(u64),
    String(Seq<char>),
    /// A string of the runtime whose bytes are not valid UTF-8.
    RawString(Seq<u8>),
    Table(Seq<(Value, Value)>),
    /// A value of the runtime that has no representation here.
    Opaque,
}

/// The integer that a key equals, if the key is a number and equals one.
pub open spec fn key_position(key: Value) -> Option<int> {
    match key {
        Value::Number(bits) => integer_value(bits),
        _ => None,
    }
}

/// Whether the pairs of a table read as an array: the key of the pair at
/// index `i` is the number `i + 1`, for every pair. A table whose pairs do not
/// is map-shaped.
pub open spec fn array_shaped(pairs: Seq<(Value, Value)>) -> bool {
    forall|i: int| 0 <= i < pairs.len() ==> key_position(#[trigger] pairs[i].0) == Some(i + 1)
}

/// A table with a pair whose key is not the number of the pair's place is
/// map-shaped: so is every table with a key that is no number, with a gap
/// among its keys, or with its keys out of order.
pub proof fn lemma_map_shaped(pairs: Seq<(Value, Value)>, at: int)
    requires
        0 <= at < pairs.len(),
        key_position(pairs[at].0) != Some(at + 1),
    ensures
        !array_shaped(pairs),
{
}

/// A table of one pair, the tag of an enum variant and its payload.
pub open spec fn envelope(tag: Seq<char>, payload: Value) -> Value {
    Value::Table(seq![(Value::String(tag), payload)])
}

/// A runtime value.
///
/// A number is held as the IEEE 754 bit pattern of the double, so that two
/// values are equal exactly when they hold the same data.
#[derive(Debug)]
pub enum LuaValue {
    Nil,
    Bool(bool),
    Number(u64),
    String(String),
    RawString(Vec<u8>),
    Table(Vec<(LuaValue, LuaValue)>),
    Opaque,
}

/// The pairs of a table, each key and value taken by its view.
pub open spec fn view_pairs(pairs: Seq<(LuaValue, LuaValue)>) -> Seq<(Value, Value)>
    decreases pairs,
{
    if pairs.len() == 0 {
        Seq::empty()
    } else {
        view_pairs(pairs.drop_last()).push((pairs.last().0.view(), pairs.last().1.view()))
    }
}

impl View for LuaValue {
    type V = Value;

    open spec fn view(&self) -> Value
        decreases self,
    {
        match self {
            LuaValue::Nil => Value::Nil,
            LuaValue::Bool(b) => Value::Bool(*b),
            LuaValue::Number(bits) => Value::Number(*bits),
            LuaValue::String(text) => Value::String(text@),
            LuaValue::RawString(bytes) => Value::RawString(bytes@),
            LuaValue::Table(pairs) => Value::Table(view_pairs(pairs@)),
            LuaValue::Opaque => Value::Opaque,
        }
    }
}

/// The view of a value is of the value's own kind.
pub proof fn lemma_view_kind(value: LuaValue)
    ensures
        value is Nil <==> value@ is Nil,
        value is Bool <==> value@ is Bool,
        value is Number <==> value@ is Number,
        value is String <==> value@ is String,
        value is RawString <==> value@ is RawString,
        value is Table <==> value@ is Table,
        value is Opaque <==> value@ is Opaque,
        value matches LuaValue::Bool(b) ==> value@ == Value::Bool(b),
        value matches LuaValue::Number(bits) ==> value@ == Value::Number(bits),
        value matches LuaValue::String(text) ==> value@ == Value::String(text@),
        value matches LuaValue::RawString(bytes) ==> value@ == Value::RawString(bytes@),
        value matches LuaValue::Table(pairs) ==> value@ == Value::Table(view_pairs(pairs@)),
{
}

/// `view_pairs` keeps the length and maps each pair in place.
pub proof fn lemma_view_pairs(pairs: Seq<(LuaValue, LuaValue)>)
    ensures
        view_pairs(pairs).len() == pairs.len(),
        forall|i: int|
            0 <= i < pairs.len() ==> #[trigger] view_pairs(pairs)[i] == (pairs[i].0@, pairs[i].1@),
    decreases pairs.len(),
{
    if pairs.len() > 0 {
        let front = pairs.drop_last();
        lemma_view_pairs(front);
        assert(view_pairs(pairs) == view_pairs(front).push((pairs.last().0@, pairs.last().1@)));
        assert forall|i: int| 0 <= i < pairs.len() implies #[trigger] view_pairs(pairs)[i] == (
            pairs[i].0@,
            pairs[i].1@,
        ) by {
            if i < front.len() {
                assert(front[i] == pairs[i]);
            }
        }
    } else {
        assert(view_pairs(pairs) == Seq::<(Value, Value)>::empty());
    }
}

/// Appending a pair appends its view.
pub proof fn lemma_view_pairs_push(pairs: Seq<(LuaValue, LuaValue)>, pair: (LuaValue, LuaValue))
    ensures
        view_pairs(pairs.push(pair)) == view_pairs(pairs).push((pair.0@, pair.1@)),
{
    let all = pairs.push(pair);
    assert(all.drop_last() == pairs);
    assert(all.last() == pair);
    assert(view_pairs(all) == view_pairs(all.drop_last()).push((all.last().0@, all.last().1@)));
}

/// A copy of the pairs of a table.
fn clone_pairs(pairs: &Vec<(LuaValue, LuaValue)>) -> (copy: Vec<(LuaValue, LuaValue)>)
    ensures
        view_pairs(copy@) == view_pairs(pairs@),
    decreases pairs, 0nat,
{
    let mut copy: Vec<(LuaValue, LuaValue)> = Vec::new();
    let mut i: usize = 0;
    assert(pairs@.take(0) == Seq::<(LuaValue, LuaValue)>::empty());
    while i < pairs.len()
        invariant
            i <= pairs.len(),
            view_pairs(copy@) == view_pairs(pairs@.take(i as int)),
        decreases pairs.len() - i,
    {
        let key = pairs[i].0.clone();
        let value = pairs[i].1.clone();
        proof {
            lemma_view_pairs_push(copy@, (key, value));
            lemma_view_pairs_push(pairs@.take(i as int), pairs@[i as int]);
            assert(pairs@.take(i as int).push(pairs@[i as int]) == pairs@.take(i + 1));
        }
        copy.push((key, value));
        i += 1;
    }
    assert(pairs@.take(i as int) == pairs@);
    copy
}

impl Clone for LuaValue {
    fn clone(&self) -> (copy: Self)
        ensures
            copy@ == self@,
        decreases self, 1nat,
    {
        match self {
            LuaValue::Nil => LuaValue::Nil,
            LuaValue::Bool(b) => LuaValue::Bool(*b),
            LuaValue::Number(bits) => LuaValue::Number(*bits),
            LuaValue::String(text) => LuaValue::String(text.clone()),
            LuaValue::RawString(bytes) => LuaValue::RawString(bytes.clone()),
            LuaValue::Table(pairs) => LuaValue::Table(clone_pairs(pairs)),
            LuaValue::Opaque => LuaValue::Opaque,
        }
    }
}

/// Whether two lists of pairs hold the same keys and values in the same order.
fn same_pairs(a: &Vec<(LuaValue, LuaValue)>, b: &Vec<(LuaValue, LuaValue)>) -> (same: bool)
    ensures
        same == (view_pairs(a@) == view_pairs(b@)),
    decreases a, 0nat,
{
    proof {
        lemma_view_pairs(a@);
        lemma_view_pairs(b@);
    }
    if a.len() != b.len() {
        return false;
    }
    let mut i: usize = 0;
    while i < a.len()
        invariant
            i <= a.len(),
            a.len() == b.len(),
            forall|j: int| 0 <= j < i ==> a@[j].0@ == b@[j].0@ && a@[j].1@ == b@[j].1@,
            forall|j: int|
                0 <= j < a.len() ==> #[trigger] view_pairs(a@)[j] == (a@[j].0@, a@[j].1@),
            forall|j: int|
                0 <= j < b.len() ==> #[trigger] view_pairs(b@)[j] == (b@[j].0@, b@[j].1@),
            view_pairs(a@).len() == a.len(),
            view_pairs(b@).len() == b.len(),
        decreases a.len() - i,
    {
        if !(a[i].0.same(&b[i].0) && a[i].1.same(&b[i].1)) {
            assert(view_pairs(a@)[i as int] != view_pairs(b@)[i as int]);
            return false;
        }
        i += 1;
    }
    assert(view_pairs(a@) =~= view_pairs(b@));
    true
}

/// Whether two byte strings hold the same bytes.
fn same_bytes(a: &Vec<u8>, b: &Vec<u8>) -> (same: bool)
    ensures
        same == (a@ == b@),
{
    let same = a == b;
    proof {
        if same {
            assert(a@ =~= b@);
        }
    }
    same
}

impl LuaValue {
    /// Whether `self` and `other` hold the same data; numbers are compared by
    /// their bit patterns.
    pub fn same(&self, other: &LuaValue) -> (same: bool)
        ensures
            same == (self@ == other@),
        decreases self, 1nat,
    {
        match (self, other) {
            (LuaValue::Nil, LuaValue::Nil) => true,
            (LuaValue::Bool(a), LuaValue::Bool(b)) => *a == *b,
            (LuaValue::Number(a), LuaValue::Number(b)) => *a == *b,
            (LuaValue::String(a), LuaValue::String(b)) => *a == *b,
            (LuaValue::RawString(a), LuaValue::RawString(b)) => same_bytes(a, b),
            (LuaValue::Table(a), LuaValue::Table(b)) => same_pairs(a, b),
            (LuaValue::Opaque, LuaValue::Opaque) => true,
            _ => {
                assert(self@ != other@);
                false
            },
        }
    }
}

impl PartialEq for LuaValue {
    fn eq(&self, other: &Self) -> (same: bool) {
        self.same(other)
    }
}

impl vstd::std_specs::cmp::PartialEqSpecImpl for LuaValue {
    open spec fn obeys_eq_spec() -> bool {
        true
    }

    open spec fn eq_spec(&self, other: &Self) -> bool {
        self@ == other@
    }
}

} // verus!
