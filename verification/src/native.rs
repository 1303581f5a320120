//! Native values and their shapes.
//!
//! A [`Native`] is a value of the statically typed side: a scalar, an option,
//! a sequence, a map, a record or an enum variant. A [`Shape`] is what the
//! typed side expects to find when it decodes: where the runtime has one
//! table for everything, the shape says whether a sequence, a map, a record or
//! an enum is meant.

use vstd::prelude::*;

verus! {

/// A native value.
#[derive(Debug)]
pub enum Native {
    /// The unit value, or a struct without fields.
    Unit,
    Bool(bool),
    I8(i8),
    I16(i16),
    I32(i32),
    I64(i64),
    U8(u8),
    U16(u16),
    U32(u32),
    U64(u64),
    /// A single-precision number, held as its bit pattern.
    F32(u32),
    /// A double-precision number, held as its bit pattern.
    F64(u64),
    Char(char),
    Str(String),
    Bytes(Vec<u8>),
    /// The option that holds nothing.
    Absent,
    /// The option that holds a value.
    Present(Box<Native>),
    /// A struct of one unnamed field, which stands for that field.
    Newtype(Box<Native>),
    /// A sequence of any length.
    Sequence(Vec<Native>),
    /// A tuple, or a struct of unnamed fields.
    Tuple(Vec<Native>),
    /// A map, as its entries in order.
    Mapping(Vec<(Native, Native)>),
    /// A struct of named fields, in the order of their declaration.
    Struct(Vec<(String, Native)>),
    /// An enum variant without payload, by its tag.
    UnitVariant(String),
    /// An enum variant with a payload, by its tag: a tuple for a tuple
    /// variant, a struct for a struct variant, any other value for a variant
    /// of one unnamed field.
    Variant(String, Box<Native>),
}

/// A native value as contracts see it.
pub enum NativeView {
    Unit,
    Bool(bool),
    I8(i8),
    I16(i16),
    I32(i32),
    I64(i64),
    U8(u8),
    U16(u16),
    U32(u32),
    U64(u64),
    F32(u32),
    F64(u64),
    Char(char),
    Str(Seq<char>),
    Bytes(Seq<u8>),
    Absent,
    Present(Box<NativeView>),
    Newtype(Box<NativeView>),
    Sequence(Seq<NativeView>),
    Tuple(Seq<NativeView>),
    Mapping(Seq<(NativeView, NativeView)>),
    Struct(Seq<(Seq<char>, NativeView)>),
    UnitVariant(Seq<char>),
    Variant(Seq<char>, Box<NativeView>),
}

/// The members of a sequence or a tuple, each by its view.
pub open spec fn view_items(items: Seq<Native>) -> Seq<NativeView>
    decreases items,
{
    if items.len() == 0 {
        Seq::empty()
    } else {
        view_items(items.drop_last()).push(items.last().view())
    }
}

/// The entries of a map, each key and value by its view.
pub open spec fn view_entries(entries: Seq<(Native, Native)>) -> Seq<(NativeView, NativeView)>
    decreases entries,
{
    if entries.len() == 0 {
        Seq::empty()
    } else {
        view_entries(entries.drop_last()).push((entries.last().0.view(), entries.last().1.view()))
    }
}

/// The fields of a struct, each name and value by its view.
pub open spec fn view_fields(fields: Seq<(String, Native)>) -> Seq<(Seq<char>, NativeView)>
    decreases fields,
{
    if fields.len() == 0 {
        Seq::empty()
    } else {
        view_fields(fields.drop_last()).push((fields.last().0@, fields.last().1.view()))
    }
}

impl View for Native {
    type V = NativeView;

    open spec fn view(&self) -> NativeView
        decreases self,
    {
        match self {
            Native::Unit => NativeView::Unit,
            Native::Bool(b) => NativeView::Bool(*b),
            Native::I8(n) => NativeView::I8(*n),
            Native::I16(n) => NativeView::I16(*n),
            Native::I32(n) => NativeView::I32(*n),
            Native::I64(n) => NativeView::I64(*n),
            Native::U8(n) => NativeView::U8(*n),
            Native::U16(n) => NativeView::U16(*n),
            Native::U32(n) => NativeView::U32(*n),
            Native::U64(n) => NativeView::U64(*n),
            Native::F32(bits) => NativeView::F32(*bits),
            Native::F64(bits) => NativeView::F64(*bits),
            Native::Char(c) => NativeView::Char(*c),
            Native::Str(text) => NativeView::Str(text@),
            Native::Bytes(bytes) => NativeView::Bytes(bytes@),
            Native::Absent => NativeView::Absent,
            Native::Present(inner) => NativeView::Present(Box::new((**inner).view())),
            Native::Newtype(inner) => NativeView::Newtype(Box::new((**inner).view())),
            Native::Sequence(items) => NativeView::Sequence(view_items(items@)),
            Native::Tuple(items) => NativeView::Tuple(view_items(items@)),
            Native::Mapping(entries) => NativeView::Mapping(view_entries(entries@)),
            Native::Struct(fields) => NativeView::Struct(view_fields(fields@)),
            Native::UnitVariant(tag) => NativeView::UnitVariant(tag@),
            Native::Variant(tag, payload) => NativeView::Variant(
                tag@,
                Box::new((**payload).view()),
            ),
        }
    }
}

/// `view_items` keeps the length and maps each member in place.
pub proof fn lemma_view_items(items: Seq<Native>)
    ensures
        view_items(items).len() == items.len(),
        forall|i: int| 0 <= i < items.len() ==> #[trigger] view_items(items)[i] == items[i]@,
    decreases items.len(),
{
    if items.len() > 0 {
        let front = items.drop_last();
        lemma_view_items(front);
        assert(view_items(items) == view_items(front).push(items.last()@));
        assert forall|i: int| 0 <= i < items.len() implies #[trigger] view_items(items)[i]
            == items[i]@ by {
            if i < front.len() {
                assert(front[i] == items[i]);
            }
        }
    } else {
        assert(view_items(items) == Seq::<NativeView>::empty());
    }
}

/// `view_entries` keeps the length and maps each entry in place.
pub proof fn lemma_view_entries(entries: Seq<(Native, Native)>)
    ensures
        view_entries(entries).len() == entries.len(),
        forall|i: int|
            0 <= i < entries.len() ==> #[trigger] view_entries(entries)[i] == (
                entries[i].0@,
                entries[i].1@,
            ),
    decreases entries.len(),
{
    if entries.len() > 0 {
        let front = entries.drop_last();
        lemma_view_entries(front);
        assert(view_entries(entries) == view_entries(front).push(
            (entries.last().0@, entries.last().1@),
        ));
        assert forall|i: int| 0 <= i < entries.len() implies #[trigger] view_entries(entries)[i]
            == (entries[i].0@, entries[i].1@) by {
            if i < front.len() {
                assert(front[i] == entries[i]);
            }
        }
    } else {
        assert(view_entries(entries) == Seq::<(NativeView, NativeView)>::empty());
    }
}

/// `view_fields` keeps the length and maps each field in place.
pub proof fn lemma_view_fields(fields: Seq<(String, Native)>)
    ensures
        view_fields(fields).len() == fields.len(),
        forall|i: int|
            0 <= i < fields.len() ==> #[trigger] view_fields(fields)[i] == (
                fields[i].0@,
                fields[i].1@,
            ),
    decreases fields.len(),
{
    if fields.len() > 0 {
        let front = fields.drop_last();
        lemma_view_fields(front);
        assert(view_fields(fields) == view_fields(front).push(
            (fields.last().0@, fields.last().1@),
        ));
        assert forall|i: int| 0 <= i < fields.len() implies #[trigger] view_fields(fields)[i] == (
            fields[i].0@,
            fields[i].1@,
        ) by {
            if i < front.len() {
                assert(front[i] == fields[i]);
            }
        }
    } else {
        assert(view_fields(fields) == Seq::<(Seq<char>, NativeView)>::empty());
    }
}

/// Appending a member appends its view.
pub proof fn lemma_view_items_push(items: Seq<Native>, member: Native)
    ensures
        view_items(items.push(member)) == view_items(items).push(member@),
{
    let all = items.push(member);
    assert(all.drop_last() == items);
    assert(view_items(all) == view_items(all.drop_last()).push(all.last()@));
}

/// Appending an entry appends its view.
pub proof fn lemma_view_entries_push(entries: Seq<(Native, Native)>, entry: (Native, Native))
    ensures
        view_entries(entries.push(entry)) == view_entries(entries).push((entry.0@, entry.1@)),
{
    let all = entries.push(entry);
    assert(all.drop_last() == entries);
    assert(view_entries(all) == view_entries(all.drop_last()).push(
        (all.last().0@, all.last().1@),
    ));
}

/// Appending a field appends its view.
pub proof fn lemma_view_fields_push(fields: Seq<(String, Native)>, field: (String, Native))
    ensures
        view_fields(fields.push(field)) == view_fields(fields).push((field.0@, field.1@)),
{
    let all = fields.push(field);
    assert(all.drop_last() == fields);
    assert(view_fields(all) == view_fields(all.drop_last()).push(
        (all.last().0@, all.last().1@),
    ));
}

/// The view of a native value, by the value's own kind.
pub proof fn lemma_view_native(value: Native)
    ensures
        value@ == (match value {
            Native::Unit => NativeView::Unit,
            Native::Bool(b) => NativeView::Bool(b),
            Native::I8(n) => NativeView::I8(n),
            Native::I16(n) => NativeView::I16(n),
            Native::I32(n) => NativeView::I32(n),
            Native::I64(n) => NativeView::I64(n),
            Native::U8(n) => NativeView::U8(n),
            Native::U16(n) => NativeView::U16(n),
            Native::U32(n) => NativeView::U32(n),
            Native::U64(n) => NativeView::U64(n),
            Native::F32(bits) => NativeView::F32(bits),
            Native::F64(bits) => NativeView::F64(bits),
            Native::Char(c) => NativeView::Char(c),
            Native::Str(text) => NativeView::Str(text@),
            Native::Bytes(bytes) => NativeView::Bytes(bytes@),
            Native::Absent => NativeView::Absent,
            Native::Present(inner) => NativeView::Present(Box::new((*inner)@)),
            Native::Newtype(inner) => NativeView::Newtype(Box::new((*inner)@)),
            Native::Sequence(items) => NativeView::Sequence(view_items(items@)),
            Native::Tuple(items) => NativeView::Tuple(view_items(items@)),
            Native::Mapping(entries) => NativeView::Mapping(view_entries(entries@)),
            Native::Struct(fields) => NativeView::Struct(view_fields(fields@)),
            Native::UnitVariant(tag) => NativeView::UnitVariant(tag@),
            Native::Variant(tag, payload) => NativeView::Variant(tag@, Box::new((*payload)@)),
        }),
{
}

/// A copy of the members of a sequence or a tuple.
fn clone_items(items: &Vec<Native>) -> (copy: Vec<Native>)
    ensures
        view_items(copy@) == view_items(items@),
    decreases items, 0nat,
{
    let mut copy: Vec<Native> = Vec::new();
    let mut i: usize = 0;
    while i < items.len()
        invariant
            i <= items.len(),
            copy.len() == i,
            forall|j: int| 0 <= j < i ==> copy@[j]@ == items@[j]@,
        decreases items.len() - i,
    {
        let member = items[i].clone();
        copy.push(member);
        i += 1;
    }
    proof {
        lemma_view_items(copy@);
        lemma_view_items(items@);
        assert(view_items(copy@) =~= view_items(items@));
    }
    copy
}

/// A copy of the entries of a map.
fn clone_entries(entries: &Vec<(Native, Native)>) -> (copy: Vec<(Native, Native)>)
    ensures
        view_entries(copy@) == view_entries(entries@),
    decreases entries, 0nat,
{
    let mut copy: Vec<(Native, Native)> = Vec::new();
    let mut i: usize = 0;
    while i < entries.len()
        invariant
            i <= entries.len(),
            copy.len() == i,
            forall|j: int|
                0 <= j < i ==> copy@[j].0@ == entries@[j].0@ && copy@[j].1@ == entries@[j].1@,
        decreases entries.len() - i,
    {
        let key = entries[i].0.clone();
        let value = entries[i].1.clone();
        copy.push((key, value));
        i += 1;
    }
    proof {
        lemma_view_entries(copy@);
        lemma_view_entries(entries@);
        assert(view_entries(copy@) =~= view_entries(entries@));
    }
    copy
}

/// A copy of the fields of a struct.
fn clone_fields(fields: &Vec<(String, Native)>) -> (copy: Vec<(String, Native)>)
    ensures
        view_fields(copy@) == view_fields(fields@),
    decreases fields, 0nat,
{
    let mut copy: Vec<(String, Native)> = Vec::new();
    let mut i: usize = 0;
    while i < fields.len()
        invariant
            i <= fields.len(),
            copy.len() == i,
            forall|j: int|
                0 <= j < i ==> copy@[j].0@ == fields@[j].0@ && copy@[j].1@ == fields@[j].1@,
        decreases fields.len() - i,
    {
        let name = fields[i].0.clone();
        let value = fields[i].1.clone();
        copy.push((name, value));
        i += 1;
    }
    proof {
        lemma_view_fields(copy@);
        lemma_view_fields(fields@);
        assert(view_fields(copy@) =~= view_fields(fields@));
    }
    copy
}

impl Clone for Native {
    fn clone(&self) -> (copy: Self)
        ensures
            copy@ == self@,
        decreases self, 1nat,
    {
        proof {
            lemma_view_native(*self);
        }
        let copy = match self {
            Native::Unit => Native::Unit,
            Native::Bool(b) => Native::Bool(*b),
            Native::I8(n) => Native::I8(*n),
            Native::I16(n) => Native::I16(*n),
            Native::I32(n) => Native::I32(*n),
            Native::I64(n) => Native::I64(*n),
            Native::U8(n) => Native::U8(*n),
            Native::U16(n) => Native::U16(*n),
            Native::U32(n) => Native::U32(*n),
            Native::U64(n) => Native::U64(*n),
            Native::F32(bits) => Native::F32(*bits),
            Native::F64(bits) => Native::F64(*bits),
            Native::Char(c) => Native::Char(*c),
            Native::Str(text) => Native::Str(text.clone()),
            Native::Bytes(bytes) => Native::Bytes(bytes.clone()),
            Native::Absent => Native::Absent,
            Native::Present(inner) => Native::Present(Box::new((**inner).clone())),
            Native::Newtype(inner) => Native::Newtype(Box::new((**inner).clone())),
            Native::Sequence(items) => Native::Sequence(clone_items(items)),
            Native::Tuple(items) => Native::Tuple(clone_items(items)),
            Native::Mapping(entries) => Native::Mapping(clone_entries(entries)),
            Native::Struct(fields) => Native::Struct(clone_fields(fields)),
            Native::UnitVariant(tag) => Native::UnitVariant(tag.clone()),
            Native::Variant(tag, payload) => Native::Variant(
                tag.clone(),
                Box::new((**payload).clone()),
            ),
        };
        proof {
            lemma_view_native(copy);
        }
        copy
    }
}

/// Whether two lists of members hold the same values in the same order.
fn same_items(a: &Vec<Native>, b: &Vec<Native>) -> (same: bool)
    ensures
        same == (view_items(a@) == view_items(b@)),
    decreases a, 0nat,
{
    proof {
        lemma_view_items(a@);
        lemma_view_items(b@);
    }
    if a.len() != b.len() {
        return false;
    }
    let mut i: usize = 0;
    while i < a.len()
        invariant
            i <= a.len(),
            a.len() == b.len(),
            forall|j: int| 0 <= j < i ==> a@[j]@ == b@[j]@,
            forall|j: int| 0 <= j < a.len() ==> #[trigger] view_items(a@)[j] == a@[j]@,
            forall|j: int| 0 <= j < b.len() ==> #[trigger] view_items(b@)[j] == b@[j]@,
            view_items(a@).len() == a.len(),
            view_items(b@).len() == b.len(),
        decreases a.len() - i,
    {
        if !a[i].same(&b[i]) {
            assert(view_items(a@)[i as int] != view_items(b@)[i as int]);
            return false;
        }
        i += 1;
    }
    assert(view_items(a@) =~= view_items(b@));
    true
}

/// Whether two lists of entries hold the same keys and values in the same order.
fn same_entries(a: &Vec<(Native, Native)>, b: &Vec<(Native, Native)>) -> (same: bool)
    ensures
        same == (view_entries(a@) == view_entries(b@)),
    decreases a, 0nat,
{
    proof {
        lemma_view_entries(a@);
        lemma_view_entries(b@);
    }
    if a.len() != b.len() {
        return false;
    }
    let mut i: usize = 0;
    while i < a.len()
        invariant
            i <= a.len(),
            a.len() == b.len(),
            forall|j: int| 0 <= j < i ==> a@[j].0@ == b@[j].0@ && a@[j].1@ == b@[j].1@,
            forall|j: int|
                0 <= j < a.len() ==> #[trigger] view_entries(a@)[j] == (a@[j].0@, a@[j].1@),
            forall|j: int|
                0 <= j < b.len() ==> #[trigger] view_entries(b@)[j] == (b@[j].0@, b@[j].1@),
            view_entries(a@).len() == a.len(),
            view_entries(b@).len() == b.len(),
        decreases a.len() - i,
    {
        if !(a[i].0.same(&b[i].0) && a[i].1.same(&b[i].1)) {
            assert(view_entries(a@)[i as int] != view_entries(b@)[i as int]);
            return false;
        }
        i += 1;
    }
    assert(view_entries(a@) =~= view_entries(b@));
    true
}

/// Whether two lists of fields hold the same names and values in the same order.
fn same_fields(a: &Vec<(String, Native)>, b: &Vec<(String, Native)>) -> (same: bool)
    ensures
        same == (view_fields(a@) == view_fields(b@)),
    decreases a, 0nat,
{
    proof {
        lemma_view_fields(a@);
        lemma_view_fields(b@);
    }
    if a.len() != b.len() {
        return false;
    }
    let mut i: usize = 0;
    while i < a.len()
        invariant
            i <= a.len(),
            a.len() == b.len(),
            forall|j: int| 0 <= j < i ==> a@[j].0@ == b@[j].0@ && a@[j].1@ == b@[j].1@,
            forall|j: int|
                0 <= j < a.len() ==> #[trigger] view_fields(a@)[j] == (a@[j].0@, a@[j].1@),
            forall|j: int|
                0 <= j < b.len() ==> #[trigger] view_fields(b@)[j] == (b@[j].0@, b@[j].1@),
            view_fields(a@).len() == a.len(),
            view_fields(b@).len() == b.len(),
        decreases a.len() - i,
    {
        if !(a[i].0 == b[i].0 && a[i].1.same(&b[i].1)) {
            assert(view_fields(a@)[i as int] != view_fields(b@)[i as int]);
            return false;
        }
        i += 1;
    }
    assert(view_fields(a@) =~= view_fields(b@));
    true
}

/// Whether two byte strings hold the same bytes.
fn same_bytes(a: &Vec<u8>, b: &Vec<u8>) -> (same: bool)
    ensures
        same == (a@ == b@),
{
    let same = a == b;
    proof {
        if same {
            assert(a@ =~= b@);
        }
    }
    same
}

impl Native {
    /// Whether `self` and `other` are the same value; floating-point numbers
    /// are compared by their bit patterns.
    pub fn same(&self, other: &Native) -> (same: bool)
        ensures
            same == (self@ == other@),
        decreases self, 1nat,
    {
        proof {
            lemma_view_native(*self);
            lemma_view_native(*other);
        }
        match (self, other) {
            (Native::Unit, Native::Unit) => true,
            (Native::Bool(a), Native::Bool(b)) => *a == *b,
            (Native::I8(a), Native::I8(b)) => *a == *b,
            (Native::I16(a), Native::I16(b)) => *a == *b,
            (Native::I32(a), Native::I32(b)) => *a == *b,
            (Native::I64(a), Native::I64(b)) => *a == *b,
            (Native::U8(a), Native::U8(b)) => *a == *b,
            (Native::U16(a), Native::U16(b)) => *a == *b,
            (Native::U32(a), Native::U32(b)) => *a == *b,
            (Native::U64(a), Native::U64(b)) => *a == *b,
            (Native::F32(a), Native::F32(b)) => *a == *b,
            (Native::F64(a), Native::F64(b)) => *a == *b,
            (Native::Char(a), Native::Char(b)) => *a == *b,
            (Native::Str(a), Native::Str(b)) => *a == *b,
            (Native::Bytes(a), Native::Bytes(b)) => same_bytes(a, b),
            (Native::Absent, Native::Absent) => true,
            (Native::Present(a), Native::Present(b)) => (**a).same(&**b),
            (Native::Newtype(a), Native::Newtype(b)) => (**a).same(&**b),
            (Native::Sequence(a), Native::Sequence(b)) => same_items(a, b),
            (Native::Tuple(a), Native::Tuple(b)) => same_items(a, b),
            (Native::Mapping(a), Native::Mapping(b)) => same_entries(a, b),
            (Native::Struct(a), Native::Struct(b)) => same_fields(a, b),
            (Native::UnitVariant(a), Native::UnitVariant(b)) => *a == *b,
            (Native::Variant(a, x), Native::Variant(b, y)) => *a == *b && (**x).same(&**y),
            _ => false,
        }
    }
}

impl PartialEq for Native {
    fn eq(&self, other: &Self) -> (same: bool) {
        self.same(other)
    }
}

impl vstd::std_specs::cmp::PartialEqSpecImpl for Native {
    open spec fn obeys_eq_spec() -> bool {
        true
    }

    open spec fn eq_spec(&self, other: &Self) -> bool {
        self@ == other@
    }
}

/// What the typed side expects to find when it decodes.
#[derive(Debug)]
pub enum Shape {
    Unit,
    Bool,
    I8,
    I16,
    I32,
    I64,
    U8,
    U16,
    U32,
    U64,
    F32,
    F64,
    Char,
    Str,
    Bytes,
    /// An option of the given shape.
    Optional(Box<Shape>),
    /// A struct of one unnamed field of the given shape.
    Newtype(Box<Shape>),
    /// A sequence whose members all have the given shape.
    Sequence(Box<Shape>),
    /// A tuple, or a struct of unnamed fields, of the given shapes.
    Tuple(Vec<Shape>),
    /// A map with keys of the first shape and values of the second.
    Mapping(Box<Shape>, Box<Shape>),
    /// A struct of the given named fields.
    Struct(Vec<Field>),
    /// An enum of the given variants: each a tag and the shape of its
    /// payload, `Unit` for a variant without payload.
    Enum(Vec<(String, Shape)>),
}

/// A named field of a struct.
#[derive(Debug)]
pub struct Field {
    pub name: String,
    pub shape: Shape,
    /// The value that the field takes where the table has no entry for it.
    /// Without one, a field that is missing is an error, unless it is an
    /// option, which then holds nothing.
    pub default: Option<Native>,
}

} // verus!
