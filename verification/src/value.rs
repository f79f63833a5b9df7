//! Frontmatter values: the library's own data type for parsed YAML, its
//! mathematical content, access to it, and structural equality.

use vstd::prelude::*;

use crate::double::{double_from_i64, double_from_u64, double_of, is_nan, nan, rank};
use crate::text::same_text;

verus! {

/// The content of a number. A double is its bit pattern together with the text
/// it prints as.
pub enum NumberView {
    PosInt(u64),
    NegInt(i64),
    Float { bits: u64, text: Seq<char> },
}

/// The content of a value.
pub enum ValueView {
    Null,
    Bool(bool),
    Number(NumberView),
    String(Seq<char>),
    Sequence(Seq<ValueView>),
    Mapping(Seq<(ValueView, ValueView)>),
    Tagged(Seq<char>, Box<ValueView>),
}

/// A number: an integer from zero up, a negative integer, or a double.
#[derive(Debug)]
pub enum Number {
    PosInt(u64),
    NegInt(i64),
    Float { bits: u64, text: String },
}

/// A frontmatter value. Mappings keep the order in which entries were written.
#[derive(Debug)]
pub enum Value {
    Null,
    Bool(bool),
    Number(Number),
    String(String),
    Sequence(Vec<Value>),
    Mapping(Vec<(Value, Value)>),
    Tagged(String, Box<Value>),
}

// ---------------------------------------------------------------------------
// Content
// ---------------------------------------------------------------------------

impl View for Number {
    type V = NumberView;

    open spec fn view(&self) -> NumberView {
        match *self {
            Number::PosInt(n) => NumberView::PosInt(n),
            Number::NegInt(n) => NumberView::NegInt(n),
            Number::Float { bits, text } => NumberView::Float { bits, text: text@ },
        }
    }
}

/// The content of a value, taken apart level by level.
pub open spec fn content(value: Value) -> ValueView
    decreases value,
{
    match value {
        Value::Null => ValueView::Null,
        Value::Bool(b) => ValueView::Bool(b),
        Value::Number(n) => ValueView::Number(n@),
        Value::String(s) => ValueView::String(s@),
        Value::Sequence(items) => ValueView::Sequence(
            Seq::new(
                items@.len(),
                |i: int|
                    if 0 <= i < items@.len() {
                        content(items@[i])
                    } else {
                        ValueView::Null
                    },
            ),
        ),
        Value::Mapping(entries) => ValueView::Mapping(
            Seq::new(
                entries@.len(),
                |i: int|
                    if 0 <= i < entries@.len() {
                        (content(entries@[i].0), content(entries@[i].1))
                    } else {
                        (ValueView::Null, ValueView::Null)
                    },
            ),
        ),
        Value::Tagged(tag, inner) => ValueView::Tagged(tag@, Box::new(content(*inner))),
    }
}

impl View for Value {
    type V = ValueView;

    open spec fn view(&self) -> ValueView {
        content(*self)
    }
}

/// The contents of a list of values.
pub open spec fn contents(items: Seq<Value>) -> Seq<ValueView> {
    items.map_values(|v: Value| v@)
}

/// The contents of a list of entries.
pub open spec fn entry_contents(entries: Seq<(Value, Value)>) -> Seq<(ValueView, ValueView)> {
    entries.map_values(|e: (Value, Value)| (e.0@, e.1@))
}

/// The content of a sequence is the sequence of its items' contents.
pub proof fn lemma_sequence_content(v: Value)
    requires
        v is Sequence,
    ensures
        v@ == ValueView::Sequence(contents(v->Sequence_0@)),
{
    assert(v@->Sequence_0 =~= contents(v->Sequence_0@));
}

/// The content of a mapping is the sequence of its entries' contents.
pub proof fn lemma_mapping_content(v: Value)
    requires
        v is Mapping,
    ensures
        v@ == ValueView::Mapping(entry_contents(v->Mapping_0@)),
{
    assert(v@->Mapping_0 =~= entry_contents(v->Mapping_0@));
}

/// An item of a sequence is smaller than the sequence.
pub proof fn lemma_item_smaller(v: Value, i: int)
    requires
        v is Sequence,
        0 <= i < v->Sequence_0@.len(),
    ensures
        decreases_to!(v => v->Sequence_0@[i]),
{
    assert(decreases_to!(v => v->Sequence_0));
    assert(decreases_to!(v->Sequence_0 => v->Sequence_0@));
}

/// The key and the value of an entry are smaller than the mapping.
pub proof fn lemma_entry_smaller(v: Value, i: int)
    requires
        v is Mapping,
        0 <= i < v->Mapping_0@.len(),
    ensures
        decreases_to!(v => v->Mapping_0@[i].0),
        decreases_to!(v => v->Mapping_0@[i].1),
{
    assert(decreases_to!(v => v->Mapping_0));
    assert(decreases_to!(v->Mapping_0 => v->Mapping_0@));
    assert(decreases_to!(v->Mapping_0@ => v->Mapping_0@[i]));
}

impl Clone for Number {
    fn clone(&self) -> (r: Number)
        ensures
            r@ == self@,
    {
        match self {
            Number::PosInt(n) => Number::PosInt(*n),
            Number::NegInt(n) => Number::NegInt(*n),
            Number::Float { bits, text } => Number::Float { bits: *bits, text: text.clone() },
        }
    }
}

impl Clone for Value {
    fn clone(&self) -> (r: Value)
        ensures
            r@ == self@,
        decreases self,
    {
        match self {
            Value::Null => Value::Null,
            Value::Bool(b) => Value::Bool(*b),
            Value::Number(n) => Value::Number(n.clone()),
            Value::String(s) => Value::String(s.clone()),
            Value::Sequence(items) => {
                let mut out: Vec<Value> = Vec::new();
                for i in 0..items.len()
                    invariant
                        out@.len() == i,
                        *self == Value::Sequence(*items),
                        forall|j: int| 0 <= j < i ==> (#[trigger] out@[j])@ == items@[j]@,
                {
                    proof {
                        lemma_item_smaller(*self, i as int);
                    }
                    out.push(items[i].clone());
                }
                let r = Value::Sequence(out);
                assert(r@->Sequence_0 =~= self@->Sequence_0);
                r
            },
            Value::Mapping(entries) => {
                let mut out: Vec<(Value, Value)> = Vec::new();
                for i in 0..entries.len()
                    invariant
                        out@.len() == i,
                        *self == Value::Mapping(*entries),
                        forall|j: int|
                            0 <= j < i ==> (#[trigger] out@[j]).0@ == entries@[j].0@ && out@[j].1@
                                == entries@[j].1@,
                {
                    proof {
                        lemma_entry_smaller(*self, i as int);
                    }
                    out.push((entries[i].0.clone(), entries[i].1.clone()));
                }
                let r = Value::Mapping(out);
                assert(r@->Mapping_0 =~= self@->Mapping_0);
                r
            },
            Value::Tagged(tag, inner) => Value::Tagged(tag.clone(), Box::new((&**inner).clone())),
        }
    }
}

// ---------------------------------------------------------------------------
// Access
// ---------------------------------------------------------------------------

impl NumberView {
    /// The number as a signed 64-bit integer, where it is one.
    pub open spec fn as_i64(self) -> Option<i64> {
        match self {
            NumberView::PosInt(n) => if n <= i64::MAX {
                Some(n as i64)
            } else {
                None
            },
            NumberView::NegInt(n) => Some(n),
            NumberView::Float { .. } => None,
        }
    }

    /// The bit pattern of the nearest double.
    pub open spec fn double(self) -> u64 {
        match self {
            NumberView::PosInt(n) => double_of(n as int) as u64,
            NumberView::NegInt(n) => double_of(n as int) as u64,
            NumberView::Float { bits, .. } => bits,
        }
    }

    /// Whether two numbers are the same number. Integers are never the same as
    /// doubles; all patterns that are no number are the same.
    pub open spec fn same(self, other: NumberView) -> bool {
        match (self, other) {
            (NumberView::PosInt(a), NumberView::PosInt(b)) => a == b,
            (NumberView::NegInt(a), NumberView::NegInt(b)) => a == b,
            (NumberView::Float { bits: a, .. }, NumberView::Float { bits: b, .. }) => {
                ||| is_nan(a) && is_nan(b)
                ||| !is_nan(a) && !is_nan(b) && rank(a) == rank(b)
            },
            _ => false,
        }
    }
}

impl Number {
    pub fn as_i64(&self) -> (r: Option<i64>)
        ensures
            r == self@.as_i64(),
    {
        match self {
            Number::PosInt(n) => if *n <= 0x7fff_ffff_ffff_ffff {
                Some(*n as i64)
            } else {
                None
            },
            Number::NegInt(n) => Some(*n),
            Number::Float { .. } => None,
        }
    }

    /// The bit pattern of the nearest double.
    pub fn double(&self) -> (r: u64)
        ensures
            r == self@.double(),
    {
        match self {
            Number::PosInt(n) => double_from_u64(*n),
            Number::NegInt(n) => double_from_i64(*n),
            Number::Float { bits, .. } => *bits,
        }
    }

    fn same(&self, other: &Number) -> (r: bool)
        ensures
            r == self@.same(other@),
    {
        match (self, other) {
            (Number::PosInt(a), Number::PosInt(b)) => *a == *b,
            (Number::NegInt(a), Number::NegInt(b)) => *a == *b,
            (Number::Float { bits: a, .. }, Number::Float { bits: b, .. }) => {
                if nan(*a) || nan(*b) {
                    nan(*a) && nan(*b)
                } else {
                    crate::double::compare_doubles(*a, *b) == Some(crate::text::Order::Equal)
                }
            },
            _ => false,
        }
    }
}

/// The value of the first entry at or behind `from` whose key is the text `name`.
pub open spec fn lookup_from(
    entries: Seq<(ValueView, ValueView)>,
    name: Seq<char>,
    from: int,
) -> Option<ValueView>
    decreases entries.len() - from,
{
    if from < 0 || from >= entries.len() {
        None
    } else if entries[from].0 == ValueView::String(name) {
        Some(entries[from].1)
    } else {
        lookup_from(entries, name, from + 1)
    }
}

/// The integer `n` as a number.
pub open spec fn integer_view(n: int) -> ValueView {
    if n < 0 {
        ValueView::Number(NumberView::NegInt(n as i64))
    } else {
        ValueView::Number(NumberView::PosInt(n as u64))
    }
}

impl ValueView {
    /// The value inside all of its tags.
    pub open spec fn untagged(self) -> ValueView
        decreases self,
    {
        match self {
            ValueView::Tagged(_, inner) => (*inner).untagged(),
            _ => self,
        }
    }

    pub open spec fn is_null(self) -> bool {
        self.untagged() is Null
    }

    pub open spec fn as_bool(self) -> Option<bool> {
        match self.untagged() {
            ValueView::Bool(b) => Some(b),
            _ => None,
        }
    }

    pub open spec fn as_number(self) -> Option<NumberView> {
        match self.untagged() {
            ValueView::Number(n) => Some(n),
            _ => None,
        }
    }

    /// The value as a signed 64-bit integer, where it is one.
    pub open spec fn as_i64(self) -> Option<i64> {
        match self.untagged() {
            ValueView::Number(n) => n.as_i64(),
            _ => None,
        }
    }

    /// The bit pattern of the nearest double, of any number.
    pub open spec fn as_double(self) -> Option<u64> {
        match self.untagged() {
            ValueView::Number(n) => Some(n.double()),
            _ => None,
        }
    }

    pub open spec fn as_str(self) -> Option<Seq<char>> {
        match self.untagged() {
            ValueView::String(s) => Some(s),
            _ => None,
        }
    }

    pub open spec fn as_sequence(self) -> Option<Seq<ValueView>> {
        match self.untagged() {
            ValueView::Sequence(items) => Some(items),
            _ => None,
        }
    }

    pub open spec fn as_mapping(self) -> Option<Seq<(ValueView, ValueView)>> {
        match self.untagged() {
            ValueView::Mapping(entries) => Some(entries),
            _ => None,
        }
    }

    /// The value under the text key `name` of a mapping.
    pub open spec fn get(self, name: Seq<char>) -> Option<ValueView> {
        match self.untagged() {
            ValueView::Mapping(entries) => lookup_from(entries, name, 0),
            _ => None,
        }
    }
}

impl Value {
    /// The value inside all of its tags.
    pub fn untagged(&self) -> (r: &Value)
        ensures
            r@ == self@.untagged(),
            !(r is Tagged),
        decreases self,
    {
        match self {
            Value::Tagged(_, inner) => (&**inner).untagged(),
            _ => self,
        }
    }

    pub fn is_null(&self) -> (r: bool)
        ensures
            r == self@.is_null(),
    {
        matches!(self.untagged(), Value::Null)
    }

    pub fn as_bool(&self) -> (r: Option<bool>)
        ensures
            r == self@.as_bool(),
    {
        match self.untagged() {
            Value::Bool(b) => Some(*b),
            _ => None,
        }
    }

    pub fn as_number(&self) -> (r: Option<&Number>)
        ensures
            match r {
                Some(n) => self@.as_number() == Some(n@),
                None => self@.as_number() is None,
            },
    {
        match self.untagged() {
            Value::Number(n) => Some(n),
            _ => None,
        }
    }

    pub fn as_i64(&self) -> (r: Option<i64>)
        ensures
            r == self@.as_i64(),
    {
        match self.untagged() {
            Value::Number(n) => n.as_i64(),
            _ => None,
        }
    }

    /// The bit pattern of the nearest double, of any number.
    pub fn as_double(&self) -> (r: Option<u64>)
        ensures
            r == self@.as_double(),
    {
        match self.untagged() {
            Value::Number(n) => Some(n.double()),
            _ => None,
        }
    }

    pub fn as_str(&self) -> (r: Option<&str>)
        ensures
            match r {
                Some(s) => self@.as_str() == Some(s@),
                None => self@.as_str() is None,
            },
    {
        match self.untagged() {
            Value::String(s) => Some(s.as_str()),
            _ => None,
        }
    }

    pub fn as_sequence(&self) -> (r: Option<&Vec<Value>>)
        ensures
            match r {
                Some(items) => self@.as_sequence() == Some(contents(items@)),
                None => self@.as_sequence() is None,
            },
    {
        let inner = self.untagged();
        match inner {
            Value::Sequence(items) => {
                proof {
                    lemma_sequence_content(*inner);
                }
                Some(items)
            },
            _ => None,
        }
    }

    pub fn as_mapping(&self) -> (r: Option<&Vec<(Value, Value)>>)
        ensures
            match r {
                Some(entries) => self@.as_mapping() == Some(entry_contents(entries@)),
                None => self@.as_mapping() is None,
            },
    {
        let inner = self.untagged();
        match inner {
            Value::Mapping(entries) => {
                proof {
                    lemma_mapping_content(*inner);
                }
                Some(entries)
            },
            _ => None,
        }
    }

    /// The value under the text key `name`, where this is a mapping.
    pub fn get(&self, name: &str) -> (r: Option<&Value>)
        ensures
            match r {
                Some(v) => self@.get(name@) == Some(v@),
                None => self@.get(name@) is None,
            },
    {
        let entries = match self.as_mapping() {
            Some(entries) => entries,
            None => {
                return None;
            },
        };
        let ghost all = entry_contents(entries@);
        for i in 0..entries.len()
            invariant
                all == entry_contents(entries@),
                self@.get(name@) == lookup_from(all, name@, i as int),
        {
            assert(all[i as int] == (entries@[i as int].0@, entries@[i as int].1@));
            if let Value::String(key) = &entries[i].0 {
                if same_text(key, name) {
                    return Some(&entries[i].1);
                }
            }
        }
        None
    }

    /// The integer `n` as a value.
    pub fn integer(n: i64) -> (r: Value)
        ensures
            r@ == integer_view(n as int),
    {
        if n < 0 {
            Value::Number(Number::NegInt(n))
        } else {
            Value::Number(Number::PosInt(n as u64))
        }
    }
}

// ---------------------------------------------------------------------------
// Structural equality
// ---------------------------------------------------------------------------

/// Whether `a` and `b` are the same value. Two mappings are the same when they
/// have as many entries and each entry of `a` has a counterpart in `b`,
/// whatever the order.
pub open spec fn same_value(a: ValueView, b: ValueView) -> bool
    decreases a,
{
    match (a, b) {
        (ValueView::Null, ValueView::Null) => true,
        (ValueView::Bool(x), ValueView::Bool(y)) => x == y,
        (ValueView::Number(x), ValueView::Number(y)) => x.same(y),
        (ValueView::String(x), ValueView::String(y)) => x == y,
        (ValueView::Sequence(x), ValueView::Sequence(y)) => {
            &&& x.len() == y.len()
            &&& forall|i: int| 0 <= i < x.len() ==> same_value(#[trigger] x[i], y[i])
        },
        (ValueView::Mapping(x), ValueView::Mapping(y)) => {
            &&& x.len() == y.len()
            &&& forall|i: int| 0 <= i < x.len() ==> has_counterpart(#[trigger] x[i], y)
        },
        (ValueView::Tagged(s, x), ValueView::Tagged(t, y)) => s == t && same_value(*x, *y),
        _ => false,
    }
}

/// Whether some entry of `y` has the same key and the same value as `entry`.
pub open spec fn has_counterpart(
    entry: (ValueView, ValueView),
    y: Seq<(ValueView, ValueView)>,
) -> bool
    decreases entry,
{
    exists|j: int|
        #![trigger y[j]]
        0 <= j < y.len() && same_value(entry.0, y[j].0) && same_value(entry.1, y[j].1)
}

impl Value {
    /// Whether the two values are the same.
    pub fn same(&self, other: &Value) -> (r: bool)
        ensures
            r == same_value(self@, other@),
        decreases self,
    {
        match (self, other) {
            (Value::Null, Value::Null) => true,
            (Value::Bool(x), Value::Bool(y)) => *x == *y,
            (Value::Number(x), Value::Number(y)) => x.same(y),
            (Value::String(x), Value::String(y)) => same_text(x, y),
            (Value::Sequence(x), Value::Sequence(y)) => {
                proof {
                    lemma_sequence_content(*self);
                    lemma_sequence_content(*other);
                }
                let ghost p = self@->Sequence_0;
                let ghost q = other@->Sequence_0;
                if x.len() != y.len() {
                    return false;
                }
                for i in 0..x.len()
                    invariant
                        *self == Value::Sequence(*x),
                        *other == Value::Sequence(*y),
                        x@.len() == y@.len(),
                        p == contents(x@),
                        q == contents(y@),
                        self@ == ValueView::Sequence(p),
                        other@ == ValueView::Sequence(q),
                        forall|j: int| 0 <= j < i ==> same_value(#[trigger] p[j], q[j]),
                {
                    proof {
                        lemma_item_smaller(*self, i as int);
                    }
                    if !x[i].same(&y[i]) {
                        assert(!same_value(p[i as int], q[i as int]));
                        return false;
                    }
                }
                true
            },
            (Value::Mapping(x), Value::Mapping(y)) => {
                proof {
                    lemma_mapping_content(*self);
                    lemma_mapping_content(*other);
                }
                let ghost p = self@->Mapping_0;
                let ghost q = other@->Mapping_0;
                if x.len() != y.len() {
                    return false;
                }
                for i in 0..x.len()
                    invariant
                        *self == Value::Mapping(*x),
                        *other == Value::Mapping(*y),
                        x@.len() == y@.len(),
                        p == entry_contents(x@),
                        q == entry_contents(y@),
                        self@ == ValueView::Mapping(p),
                        other@ == ValueView::Mapping(q),
                        forall|k: int| 0 <= k < i ==> has_counterpart(#[trigger] p[k], q),
                {
                    let mut found = false;
                    for m in 0..y.len()
                        invariant
                            i < x@.len(),
                            *self == Value::Mapping(*x),
                            *other == Value::Mapping(*y),
                            p == entry_contents(x@),
                            q == entry_contents(y@),
                            found == exists|j: int|
                                0 <= j < m && same_value(p[i as int].0, (#[trigger] q[j]).0)
                                    && same_value(p[i as int].1, q[j].1),
                    {
                        proof {
                            lemma_entry_smaller(*self, i as int);
                        }
                        assert(p[i as int] == (x@[i as int].0@, x@[i as int].1@));
                        assert(q[m as int] == (y@[m as int].0@, y@[m as int].1@));
                        if x[i].0.same(&y[m].0) && x[i].1.same(&y[m].1) {
                            found = true;
                        }
                    }
                    assert(found == has_counterpart(p[i as int], q));
                    if !found {
                        return false;
                    }
                }
                true
            },
            (Value::Tagged(s, x), Value::Tagged(t, y)) => same_text(s, t) && (&**x).same(&**y),
            _ => false,
        }
    }
}

// ---------------------------------------------------------------------------
// Conversion into values
// ---------------------------------------------------------------------------

/// A Rust value that can be converted into a [`Value`] for filter comparisons.
pub trait IntoValue {
    /// The content of the converted value.
    spec fn value_view(&self) -> ValueView;

    fn to_value(&self) -> (r: Value)
        ensures
            r@ == self.value_view(),
    ;
}

impl IntoValue for i32 {
    open spec fn value_view(&self) -> ValueView {
        integer_view(*self as int)
    }

    fn to_value(&self) -> (r: Value) {
        Value::integer(*self as i64)
    }
}

impl IntoValue for i64 {
    open spec fn value_view(&self) -> ValueView {
        integer_view(*self as int)
    }

    fn to_value(&self) -> (r: Value) {
        Value::integer(*self)
    }
}

impl IntoValue for bool {
    open spec fn value_view(&self) -> ValueView {
        ValueView::Bool(*self)
    }

    fn to_value(&self) -> (r: Value) {
        Value::Bool(*self)
    }
}

impl IntoValue for &str {
    open spec fn value_view(&self) -> ValueView {
        ValueView::String((*self)@)
    }

    fn to_value(&self) -> (r: Value) {
        Value::String((*self).to_string())
    }
}

impl IntoValue for String {
    open spec fn value_view(&self) -> ValueView {
        ValueView::String(self@)
    }

    fn to_value(&self) -> (r: Value) {
        Value::String(self.clone())
    }
}

impl IntoValue for Value {
    open spec fn value_view(&self) -> ValueView {
        self@
    }

    fn to_value(&self) -> (r: Value) {
        self.clone()
    }
}

} // verus!
