//! The EDN data model.
use vstd::prelude::*;
use crate::types::{Keyword, Symbol};

verus! {

/// An EDN value.
///
/// A float is kept as the text of its literal (such as `1.5e-3` or `##NaN`),
/// and a map as its entries in the order in which their keys first appeared,
/// each key at most once.
#[derive(Debug, PartialEq, Eq, Hash)]
pub enum Value {
    Nil,
    Bool(bool),
    String(String),
    Char(char),
    Symbol(Symbol),
    Keyword(Keyword),
    Integer(i64),
    Float(String),
    List(Vec<Value>),
    Vector(Vec<Value>),
    MapVal(Vec<(Value, Value)>),
    SetVal(Vec<Value>),
    Tagged { tag: Symbol, value: Box<Value> },
}

/// The mathematical view of a [`Value`].
pub enum EdnValue {
    Nil,
    Bool(bool),
    Str(Seq<char>),
    Char(char),
    Symbol(Seq<char>),
    Keyword(Seq<char>),
    Integer(int),
    Float(Seq<char>),
    List(Seq<EdnValue>),
    Vector(Seq<EdnValue>),
    MapVal(Seq<(EdnValue, EdnValue)>),
    SetVal(Seq<EdnValue>),
    Tagged(Seq<char>, Box<EdnValue>),
}

/// The view of a value: its text as sequences of characters, its integer
/// as `int`, its items as views.
pub open spec fn value_view(v: &Value) -> EdnValue
    decreases v,
{
    match v {
        Value::Nil => EdnValue::Nil,
        Value::Bool(b) => EdnValue::Bool(*b),
        Value::String(s) => EdnValue::Str(s@),
        Value::Char(c) => EdnValue::Char(*c),
        Value::Symbol(s) => EdnValue::Symbol(s.0@),
        Value::Keyword(k) => EdnValue::Keyword(k.0@),
        Value::Integer(i) => EdnValue::Integer(*i as int),
        Value::Float(t) => EdnValue::Float(t@),
        Value::List(items) => EdnValue::List(
            Seq::new(items.len() as nat, |i: int| if 0 <= i < items.len() { value_view(&items[i]) } else { EdnValue::Nil }),
        ),
        Value::Vector(items) => EdnValue::Vector(
            Seq::new(items.len() as nat, |i: int| if 0 <= i < items.len() { value_view(&items[i]) } else { EdnValue::Nil }),
        ),
        Value::MapVal(entries) => EdnValue::MapVal(
            Seq::new(
                entries.len() as nat,
                |i: int|
                    if 0 <= i < entries.len() {
                        (value_view(&entries[i].0), value_view(&entries[i].1))
                    } else {
                        (EdnValue::Nil, EdnValue::Nil)
                    },
            ),
        ),
        Value::SetVal(items) => EdnValue::SetVal(
            Seq::new(items.len() as nat, |i: int| if 0 <= i < items.len() { value_view(&items[i]) } else { EdnValue::Nil }),
        ),
        Value::Tagged { tag, value } => EdnValue::Tagged(tag.0@, Box::new(value_view(value))),
    }
}

impl View for Value {
    type V = EdnValue;

    open spec fn view(&self) -> EdnValue {
        value_view(self)
    }
}

/// The views of the items.
pub open spec fn views(items: Seq<Value>) -> Seq<EdnValue> {
    Seq::new(items.len(), |i: int| items[i]@)
}

/// The views of the entries.
pub open spec fn entry_views(entries: Seq<(Value, Value)>) -> Seq<(EdnValue, EdnValue)> {
    Seq::new(entries.len(), |i: int| (entries[i].0@, entries[i].1@))
}

/// The view of a list is the list of the views of its items.
pub broadcast proof fn lemma_list_view(items: Vec<Value>)
    ensures
        #[trigger] Value::List(items)@ == EdnValue::List(views(items@)),
{
    if let EdnValue::List(g) = Value::List(items)@ {
        assert(g =~= views(items@));
    }
}

/// The view of a vector is the vector of the views of its items.
pub broadcast proof fn lemma_vector_view(items: Vec<Value>)
    ensures
        #[trigger] Value::Vector(items)@ == EdnValue::Vector(views(items@)),
{
    if let EdnValue::Vector(g) = Value::Vector(items)@ {
        assert(g =~= views(items@));
    }
}

/// The view of a set is the set of the views of its items.
pub broadcast proof fn lemma_set_view(items: Vec<Value>)
    ensures
        #[trigger] Value::SetVal(items)@ == EdnValue::SetVal(views(items@)),
{
    if let EdnValue::SetVal(g) = Value::SetVal(items)@ {
        assert(g =~= views(items@));
    }
}

/// The view of a map is the map of the views of its entries.
pub broadcast proof fn lemma_map_view(entries: Vec<(Value, Value)>)
    ensures
        #[trigger] Value::MapVal(entries)@ == EdnValue::MapVal(entry_views(entries@)),
{
    if let EdnValue::MapVal(g) = Value::MapVal(entries)@ {
        assert(g =~= entry_views(entries@));
    }
}

/// Whether the views of two values are equal: the same variant, the same
/// text, the same items in the same order.
pub fn value_eq(a: &Value, b: &Value) -> (r: bool)
    ensures
        r == (a@ == b@),
    decreases a,
{
    match (a, b) {
        (Value::Nil, Value::Nil) => true,
        (Value::Bool(x), Value::Bool(y)) => *x == *y,
        (Value::String(x), Value::String(y)) => *x == *y,
        (Value::Char(x), Value::Char(y)) => *x == *y,
        (Value::Symbol(x), Value::Symbol(y)) => x.0 == y.0,
        (Value::Keyword(x), Value::Keyword(y)) => x.0 == y.0,
        (Value::Integer(x), Value::Integer(y)) => *x == *y,
        (Value::Float(x), Value::Float(y)) => *x == *y,
        (Value::List(x), Value::List(y)) => {
            proof { lemma_list_view(*x); lemma_list_view(*y); }
            items_eq(a, x, y)
        },
        (Value::Vector(x), Value::Vector(y)) => {
            proof { lemma_vector_view(*x); lemma_vector_view(*y); }
            items_eq(a, x, y)
        },
        (Value::SetVal(x), Value::SetVal(y)) => {
            proof { lemma_set_view(*x); lemma_set_view(*y); }
            items_eq(a, x, y)
        },
        (Value::MapVal(x), Value::MapVal(y)) => {
            proof { lemma_map_view(*x); lemma_map_view(*y); }
            entries_eq(a, x, y)
        },
        (Value::Tagged { tag: t1, value: v1 }, Value::Tagged { tag: t2, value: v2 }) => {
            if t1.0 == t2.0 {
                value_eq(v1, v2)
            } else {
                false
            }
        },
        _ => false,
    }
}

/// `parent` is a list, vector or set of the items `x`.
pub open spec fn holds_items(parent: Value, x: Vec<Value>) -> bool {
    match parent {
        Value::List(p) => p == x,
        Value::Vector(p) => p == x,
        Value::SetVal(p) => p == x,
        _ => false,
    }
}

fn items_eq(parent: &Value, x: &Vec<Value>, y: &Vec<Value>) -> (r: bool)
    requires
        holds_items(*parent, *x),
    ensures
        r == (views(x@) == views(y@)),
    decreases parent, 0int,
{
    if x.len() != y.len() {
        assert(views(x@).len() != views(y@).len());
        return false;
    }
    let mut i: usize = 0;
    while i < x.len()
        invariant
            x.len() == y.len(),
            i <= x.len(),
            holds_items(*parent, *x),
            forall|j: int| 0 <= j < i ==> x@[j]@ == y@[j]@,
        decreases x.len() - i,
    {
        proof {
            assert(decreases_to!(parent => x@[i as int]));
        }
        if !value_eq(&x[i], &y[i]) {
            assert(views(x@)[i as int] != views(y@)[i as int]);
            return false;
        }
        i = i + 1;
    }
    assert(views(x@) =~= views(y@));
    true
}

fn entries_eq(parent: &Value, x: &Vec<(Value, Value)>, y: &Vec<(Value, Value)>) -> (r: bool)
    requires
        parent matches Value::MapVal(p) && p == *x,
    ensures
        r == (entry_views(x@) == entry_views(y@)),
    decreases parent, 0int,
{
    if x.len() != y.len() {
        assert(entry_views(x@).len() != entry_views(y@).len());
        return false;
    }
    let mut i: usize = 0;
    while i < x.len()
        invariant
            x.len() == y.len(),
            i <= x.len(),
            parent matches Value::MapVal(p) && p == *x,
            forall|j: int| 0 <= j < i ==> x@[j].0@ == y@[j].0@ && x@[j].1@ == y@[j].1@,
        decreases x.len() - i,
    {
        proof {
            assert(decreases_to!(parent => x@[i as int].0));
            assert(decreases_to!(parent => x@[i as int].1));
        }
        if !value_eq(&x[i].0, &y[i].0) || !value_eq(&x[i].1, &y[i].1) {
            assert(entry_views(x@)[i as int] != entry_views(y@)[i as int]);
            return false;
        }
        i = i + 1;
    }
    assert(entry_views(x@) =~= entry_views(y@));
    true
}

} // verus!

verus! {

/// The value of a character.
pub fn char_value(c: char) -> (r: Value)
    ensures
        r@ == EdnValue::Char(c),
{
    Value::Char(c)
}

/// A copy of a value, item by item.
pub fn deep_clone(v: &Value) -> (r: Value)
    ensures
        r@ == v@,
    decreases v,
{
    match v {
        Value::Nil => Value::Nil,
        Value::Bool(b) => Value::Bool(*b),
        Value::String(s) => Value::String(s.clone()),
        Value::Char(c) => Value::Char(*c),
        Value::Symbol(s) => Value::Symbol(Symbol(s.0.clone())),
        Value::Keyword(k) => Value::Keyword(Keyword(k.0.clone())),
        Value::Integer(i) => Value::Integer(*i),
        Value::Float(t) => Value::Float(t.clone()),
        Value::List(items) => {
            proof { lemma_list_view(*items); }
            let c = clone_items(v, items);
            proof { lemma_list_view(c); }
            Value::List(c)
        },
        Value::Vector(items) => {
            proof { lemma_vector_view(*items); }
            let c = clone_items(v, items);
            proof { lemma_vector_view(c); }
            Value::Vector(c)
        },
        Value::SetVal(items) => {
            proof { lemma_set_view(*items); }
            let c = clone_items(v, items);
            proof { lemma_set_view(c); }
            Value::SetVal(c)
        },
        Value::MapVal(entries) => {
            proof { lemma_map_view(*entries); }
            let c = clone_entries(v, entries);
            proof { lemma_map_view(c); }
            Value::MapVal(c)
        },
        Value::Tagged { tag, value } => Value::Tagged {
            tag: Symbol(tag.0.clone()),
            value: Box::new(deep_clone(value)),
        },
    }
}

fn clone_items(parent: &Value, x: &Vec<Value>) -> (r: Vec<Value>)
    requires
        holds_items(*parent, *x),
    ensures
        views(r@) == views(x@),
    decreases parent, 0int,
{
    let mut out: Vec<Value> = Vec::new();
    let mut i: usize = 0;
    while i < x.len()
        invariant
            i <= x.len(),
            holds_items(*parent, *x),
            out@.len() == i,
            forall|j: int| 0 <= j < i ==> out@[j]@ == x@[j]@,
        decreases x.len() - i,
    {
        proof {
            assert(decreases_to!(parent => x@[i as int]));
        }
        out.push(deep_clone(&x[i]));
        i = i + 1;
    }
    assert(views(out@) =~= views(x@));
    out
}

fn clone_entries(parent: &Value, x: &Vec<(Value, Value)>) -> (r: Vec<(Value, Value)>)
    requires
        parent matches Value::MapVal(p) && p == *x,
    ensures
        entry_views(r@) == entry_views(x@),
    decreases parent, 0int,
{
    let mut out: Vec<(Value, Value)> = Vec::new();
    let mut i: usize = 0;
    while i < x.len()
        invariant
            i <= x.len(),
            parent matches Value::MapVal(p) && p == *x,
            out@.len() == i,
            forall|j: int| 0 <= j < i ==> out@[j].0@ == x@[j].0@ && out@[j].1@ == x@[j].1@,
        decreases x.len() - i,
    {
        proof {
            assert(decreases_to!(parent => x@[i as int].0));
            assert(decreases_to!(parent => x@[i as int].1));
        }
        let k = deep_clone(&x[i].0);
        let v = deep_clone(&x[i].1);
        out.push((k, v));
        i = i + 1;
    }
    assert(entry_views(out@) =~= entry_views(x@));
    out
}

impl Clone for Value {
    fn clone(&self) -> (r: Value)
        ensures
            r@ == self@,
    {
        deep_clone(self)
    }
}

} // verus!
