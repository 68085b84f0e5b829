//! EDN lists and sets as Rust collections, and decoding values into Rust
//! types.
use vstd::prelude::*;
use std::collections::HashSet;
use std::hash::Hash;
use std::borrow::Borrow;
use vstd::std_specs::iter::IteratorSpec;
use vstd::std_specs::hash::{
    into_iter_hash_keys, obeys_key_model, set_contains_borrowed_key, spec_hash_keys_iter,
    spec_hash_set_len,
};
use crate::chars::string_of;
use crate::types::{Error, ErrorView};
use crate::value::{EdnValue, Value, views};
use crate::ser::{write_custom_tagged, tag_name};

verus! {

broadcast use {vstd::std_specs::hash::group_hash_axioms, crate::value::lemma_list_view,
    crate::value::lemma_vector_view, crate::value::lemma_set_view};

/// An EDN list `( ... )`, as opposed to a vector `[ ... ]`.
#[derive(Clone, Debug, PartialEq, Eq)]
pub struct EdnList<T> {
    pub items: Vec<T>,
}

impl<T> EdnList<T> {
    /// An empty list.
    pub fn new() -> (r: Self)
        ensures
            r.items@ == Seq::<T>::empty(),
    {
        EdnList { items: Vec::new() }
    }

    /// An empty list with room for `capacity` items.
    pub fn with_capacity(capacity: usize) -> (r: Self)
        ensures
            r.items@ == Seq::<T>::empty(),
    {
        EdnList { items: Vec::with_capacity(capacity) }
    }

    /// The list of the items of `items`, in order.
    pub fn from_vec(items: Vec<T>) -> (r: Self)
        ensures
            r.items == items,
    {
        EdnList { items }
    }

    /// The items of the list, in order.
    pub fn into_vec(self) -> (r: Vec<T>)
        ensures
            r == self.items,
    {
        self.items
    }

    /// The number of items.
    pub fn len(&self) -> (r: usize)
        ensures
            r == self.items@.len(),
    {
        self.items.len()
    }

    /// Whether the list has no item.
    pub fn is_empty(&self) -> (r: bool)
        ensures
            r == (self.items@.len() == 0),
    {
        self.items.len() == 0
    }
}

/// An EDN set `#{ ... }`.
#[derive(Debug)]
pub struct EdnSet<T> {
    pub items: HashSet<T>,
}

impl<T> EdnSet<T> {
    /// An empty set.
    pub fn new() -> (r: Self)
        ensures
            r.items@ == Set::<T>::empty(),
    {
        EdnSet { items: HashSet::new() }
    }

    /// An empty set with room for `capacity` items.
    pub fn with_capacity(capacity: usize) -> (r: Self)
        ensures
            r.items@ == Set::<T>::empty(),
    {
        EdnSet { items: HashSet::with_capacity(capacity) }
    }

    /// The set of the items of `items`.
    pub fn from_hashset(items: HashSet<T>) -> (r: Self)
        ensures
            r.items == items,
    {
        EdnSet { items }
    }

    /// The items of the set.
    pub fn into_hashset(self) -> (r: HashSet<T>)
        ensures
            r == self.items,
    {
        self.items
    }

    /// Adds `value`; tells whether it was not there before.
    pub fn insert(&mut self, value: T) -> (r: bool)
        where
            T: Hash + Eq,
        ensures
            obeys_key_model::<T>() ==> final(self).items@ == old(self).items@.insert(value),
            obeys_key_model::<T>() ==> r == !old(self).items@.contains(value),
            obeys_key_model::<T>() ==> final(self).items@.contains(value),
            obeys_key_model::<T>() ==> !final(self).items@.is_empty(),
    {
        let r = self.items.insert(value);
        proof {
            if obeys_key_model::<T>() {
                assert(self.items@.contains(value));
            }
        }
        r
    }

    /// Whether `value` is in the set.
    pub fn contains<Q>(&self, value: &Q) -> (r: bool)
        where
            T: Hash + Eq + Borrow<Q>,
            Q: Hash + Eq + ?Sized,
        ensures
            obeys_key_model::<T>() ==> r == set_contains_borrowed_key(self.items@, value),
    {
        self.items.contains(value)
    }

    /// The number of items.
    pub fn len(&self) -> (r: usize)
        ensures
            r == spec_hash_set_len(&self.items),
            obeys_key_model::<T>() ==> r == self.items@.len(),
    {
        self.items.len()
    }

    /// Whether the set has no item.
    pub fn is_empty(&self) -> (r: bool)
        ensures
            r == self.items@.is_empty(),
    {
        self.items.is_empty()
    }
}

} // verus!

verus! {

/// The items of a list, a vector or a set.
pub open spec fn seq_items(v: EdnValue) -> Option<Seq<EdnValue>> {
    match v {
        EdnValue::List(items) => Some(items),
        EdnValue::Vector(items) => Some(items),
        EdnValue::SetVal(items) => Some(items),
        _ => None,
    }
}

/// Decoding an EDN value into a Rust value.
pub trait FromEdn: Sized {
    /// Whether `v` decodes as a value of this type.
    spec fn accepts(v: EdnValue) -> bool;

    /// Whether `x` is what `v` decodes as.
    spec fn decodes(v: EdnValue, x: Self) -> bool;

    /// The message of the error when `v` does not decode.
    spec fn rejection(v: EdnValue) -> Seq<char>;

    /// Decodes `v`.
    fn from_edn(v: &Value) -> (r: Result<Self, Error>)
        ensures
            r is Ok <==> Self::accepts(v@),
            r matches Ok(x) ==> Self::decodes(v@, x),
            r matches Err(e) ==> e@ == ErrorView::Custom(Self::rejection(v@));
}

fn custom_error(msg: &str) -> (r: Error)
    ensures
        r@ == ErrorView::Custom(msg@),
{
    Error::Custom(string_of(msg))
}

impl FromEdn for i64 {
    open spec fn accepts(v: EdnValue) -> bool {
        v is Integer
    }

    open spec fn decodes(v: EdnValue, x: i64) -> bool {
        v == EdnValue::Integer(x as int)
    }

    open spec fn rejection(v: EdnValue) -> Seq<char> {
        "invalid type: expected i64"@
    }

    fn from_edn(v: &Value) -> (r: Result<i64, Error>) {
        match v {
            Value::Integer(n) => Ok(*n),
            _ => Err(custom_error("invalid type: expected i64")),
        }
    }
}

impl FromEdn for i32 {
    open spec fn accepts(v: EdnValue) -> bool {
        v matches EdnValue::Integer(n) && i32::MIN <= n <= i32::MAX
    }

    open spec fn decodes(v: EdnValue, x: i32) -> bool {
        v == EdnValue::Integer(x as int)
    }

    open spec fn rejection(v: EdnValue) -> Seq<char> {
        if v is Integer {
            "invalid value: integer out of range for i32"@
        } else {
            "invalid type: expected i32"@
        }
    }

    fn from_edn(v: &Value) -> (r: Result<i32, Error>) {
        match v {
            Value::Integer(n) => {
                if i32::MIN as i64 <= *n && *n <= i32::MAX as i64 {
                    Ok(*n as i32)
                } else {
                    Err(custom_error("invalid value: integer out of range for i32"))
                }
            },
            _ => Err(custom_error("invalid type: expected i32")),
        }
    }
}

impl FromEdn for bool {
    open spec fn accepts(v: EdnValue) -> bool {
        v is Bool
    }

    open spec fn decodes(v: EdnValue, x: bool) -> bool {
        v == EdnValue::Bool(x)
    }

    open spec fn rejection(v: EdnValue) -> Seq<char> {
        "invalid type: expected a boolean"@
    }

    fn from_edn(v: &Value) -> (r: Result<bool, Error>) {
        match v {
            Value::Bool(b) => Ok(*b),
            _ => Err(custom_error("invalid type: expected a boolean")),
        }
    }
}

/// The text a value decodes to as a string: a string, the text of a symbol
/// or a keyword, or a tagged value written as `#name value`.
pub open spec fn text_of(v: EdnValue) -> Option<Seq<char>> {
    match v {
        EdnValue::Str(t) => Some(t),
        EdnValue::Symbol(t) => Some(t),
        EdnValue::Keyword(t) => Some(t),
        EdnValue::Tagged(tag, inner) => match write_custom_tagged(tag_name(tag), *inner) {
            Ok(t) => Some(t),
            Err(_) => None,
        },
        _ => None,
    }
}

/// The message of a value that does not decode as a string.
pub open spec fn string_rejection(v: EdnValue) -> Seq<char> {
    match v {
        EdnValue::Tagged(tag, inner) => match write_custom_tagged(tag_name(tag), *inner) {
            Ok(_) => Seq::empty(),
            Err(m) => m,
        },
        _ => "invalid type: expected a string"@,
    }
}

impl FromEdn for String {
    open spec fn accepts(v: EdnValue) -> bool {
        text_of(v) is Some
    }

    open spec fn decodes(v: EdnValue, x: String) -> bool {
        text_of(v) == Some(x@)
    }

    open spec fn rejection(v: EdnValue) -> Seq<char> {
        string_rejection(v)
    }

    fn from_edn(v: &Value) -> (r: Result<String, Error>) {
        match v {
            Value::String(s) => Ok(s.clone()),
            Value::Symbol(s) => Ok(s.0.clone()),
            Value::Keyword(k) => Ok(k.0.clone()),
            Value::Tagged { tag, value } => crate::ser::tagged_text(tag, value),
            _ => Err(custom_error("invalid type: expected a string")),
        }
    }
}

proof fn lemma_custom_tagged_long(name: Seq<char>, inner: EdnValue)
    ensures
        write_custom_tagged(name, inner) matches Ok(t) ==> t.len() >= 2,
{
}

impl FromEdn for char {
    open spec fn accepts(v: EdnValue) -> bool {
        v is Char || (text_of(v) matches Some(t) && t.len() == 1)
    }

    open spec fn decodes(v: EdnValue, x: char) -> bool {
        v == EdnValue::Char(x) || (text_of(v) matches Some(t) && t == seq![x])
    }

    open spec fn rejection(v: EdnValue) -> Seq<char> {
        "invalid type: expected a character"@
    }

    fn from_edn(v: &Value) -> (r: Result<char, Error>) {
        let text: &String = match v {
            Value::Char(c) => {
                return Ok(*c);
            },
            Value::String(s) => s,
            Value::Symbol(s) => &s.0,
            Value::Keyword(k) => &k.0,
            _ => {
                proof {
                    if let EdnValue::Tagged(tag, inner) = v@ {
                        lemma_custom_tagged_long(tag_name(tag), *inner);
                    }
                }
                return Err(custom_error("invalid type: expected a character"));
            },
        };
        let t = text.as_str();
        if t.unicode_len() == 1 {
            let c = t.get_char(0);
            assert(t@ =~= seq![c]);
            Ok(c)
        } else {
            Err(custom_error("invalid type: expected a character"))
        }
    }
}

impl FromEdn for Value {
    open spec fn accepts(v: EdnValue) -> bool {
        true
    }

    open spec fn decodes(v: EdnValue, x: Value) -> bool {
        x@ == v
    }

    open spec fn rejection(v: EdnValue) -> Seq<char> {
        Seq::empty()
    }

    fn from_edn(v: &Value) -> (r: Result<Value, Error>) {
        Ok(crate::value::deep_clone(v))
    }
}

/// The message of the first item of `items` that does not decode as `T`.
pub open spec fn first_rejection<T: FromEdn>(items: Seq<EdnValue>) -> Seq<char>
    decreases items.len(),
{
    if items.len() == 0 {
        Seq::empty()
    } else if !T::accepts(items[0]) {
        T::rejection(items[0])
    } else {
        first_rejection::<T>(items.subrange(1, items.len() as int))
    }
}

/// Every item decodes as `T`.
pub open spec fn all_accepted<T: FromEdn>(items: Seq<EdnValue>) -> bool {
    forall|k: int| 0 <= k < items.len() ==> T::accepts(#[trigger] items[k])
}

/// `xs` holds what the items decode as, in order.
pub open spec fn all_decoded<T: FromEdn>(items: Seq<EdnValue>, xs: Seq<T>) -> bool {
    &&& xs.len() == items.len()
    &&& forall|k: int| 0 <= k < items.len() ==> T::decodes(#[trigger] items[k], xs[k])
}

/// The message of a value that is not a collection of items.
pub open spec fn seq_rejection<T: FromEdn>(v: EdnValue) -> Seq<char> {
    match seq_items(v) {
        Some(items) => first_rejection::<T>(items),
        None => "invalid type: expected a sequence"@,
    }
}

proof fn lemma_first_rejection<T: FromEdn>(items: Seq<EdnValue>, k: int)
    requires
        0 <= k < items.len(),
        !T::accepts(items[k]),
        forall|j: int| 0 <= j < k ==> T::accepts(#[trigger] items[j]),
    ensures
        first_rejection::<T>(items) == T::rejection(items[k]),
    decreases k,
{
    if k > 0 {
        let rest = items.subrange(1, items.len() as int);
        assert(T::accepts(items[0]));
        assert forall|j: int| 0 <= j < k - 1 implies T::accepts(#[trigger] rest[j]) by {
            assert(rest[j] == items[j + 1]);
        }
        lemma_first_rejection::<T>(rest, k - 1);
    }
}

/// Decodes the items of a collection, in order.
fn decode_items<T: FromEdn>(items: &Vec<Value>) -> (r: Result<Vec<T>, Error>)
    ensures
        r is Ok <==> all_accepted::<T>(views(items@)),
        r matches Ok(xs) ==> all_decoded::<T>(views(items@), xs@),
        r matches Err(e) ==> e@ == ErrorView::Custom(first_rejection::<T>(views(items@))),
{
    let ghost vs = views(items@);
    let mut out: Vec<T> = Vec::new();
    let mut i: usize = 0;
    while i < items.len()
        invariant
            i <= items.len(),
            vs == views(items@),
            out@.len() == i,
            forall|k: int| 0 <= k < i ==> T::accepts(#[trigger] vs[k]),
            forall|k: int| 0 <= k < i ==> T::decodes(#[trigger] vs[k], out@[k]),
        decreases items.len() - i,
    {
        assert(vs[i as int] == items@[i as int]@);
        match T::from_edn(&items[i]) {
            Ok(x) => {
                out.push(x);
            },
            Err(e) => {
                proof { lemma_first_rejection::<T>(vs, i as int); }
                return Err(e);
            },
        }
        i = i + 1;
    }
    Ok(out)
}

impl<T: FromEdn> FromEdn for Vec<T> {
    open spec fn accepts(v: EdnValue) -> bool {
        seq_items(v) matches Some(items) && all_accepted::<T>(items)
    }

    open spec fn decodes(v: EdnValue, x: Vec<T>) -> bool {
        seq_items(v) matches Some(items) && all_decoded::<T>(items, x@)
    }

    open spec fn rejection(v: EdnValue) -> Seq<char> {
        seq_rejection::<T>(v)
    }

    fn from_edn(v: &Value) -> (r: Result<Vec<T>, Error>) {
        match v {
            Value::List(items) => decode_items(items),
            Value::Vector(items) => decode_items(items),
            Value::SetVal(items) => decode_items(items),
            _ => Err(custom_error("invalid type: expected a sequence")),
        }
    }
}

impl<T: FromEdn> FromEdn for EdnList<T> {
    open spec fn accepts(v: EdnValue) -> bool {
        seq_items(v) matches Some(items) && all_accepted::<T>(items)
    }

    open spec fn decodes(v: EdnValue, x: EdnList<T>) -> bool {
        seq_items(v) matches Some(items) && all_decoded::<T>(items, x.items@)
    }

    open spec fn rejection(v: EdnValue) -> Seq<char> {
        seq_rejection::<T>(v)
    }

    fn from_edn(v: &Value) -> (r: Result<EdnList<T>, Error>) {
        match Vec::<T>::from_edn(v) {
            Ok(items) => Ok(EdnList { items }),
            Err(e) => Err(e),
        }
    }
}

impl<T: FromEdn + Hash + Eq> FromEdn for EdnSet<T> {
    open spec fn accepts(v: EdnValue) -> bool {
        seq_items(v) matches Some(items) && all_accepted::<T>(items)
    }

    /// The set holds what the items decode as (when `T` hashes as its
    /// equality says).
    open spec fn decodes(v: EdnValue, x: EdnSet<T>) -> bool {
        &&& seq_items(v) matches Some(items)
        &&& exists|xs: Seq<T>| all_decoded::<T>(items, xs) && (obeys_key_model::<T>() ==> x.items@ == xs.to_set())
    }

    open spec fn rejection(v: EdnValue) -> Seq<char> {
        seq_rejection::<T>(v)
    }

    fn from_edn(v: &Value) -> (r: Result<EdnSet<T>, Error>) {
        match Vec::<T>::from_edn(v) {
            Ok(items) => {
                let ghost xs = items@;
                let mut set: HashSet<T> = HashSet::new();
                let mut rest = items;
                let ghost mut done: Seq<T> = Seq::empty();
                while rest.len() > 0
                    invariant
                        obeys_key_model::<T>() ==> set@ == done.to_set(),
                        forall|y: T| #[trigger] xs.contains(y) <==> (done.contains(y) || rest@.contains(y)),
                    decreases rest.len(),
                {
                    let ghost before = rest@;
                    let y = rest.pop().unwrap();
                    proof {
                        assert(before =~= rest@.push(y));
                        assert forall|z: T| #[trigger] xs.contains(z) <==> (done.push(y).contains(z) || rest@.contains(z)) by {
                            broadcast use vstd::seq_lib::group_seq_properties;
                            assert(before.contains(z) <==> (rest@.contains(z) || z == y));
                            assert(done.push(y).contains(z) <==> (done.contains(z) || z == y));
                        }
                        assert(done.push(y).to_set() =~= done.to_set().insert(y)) by {
                            done.lemma_push_to_set_commute(y);
                        }
                        done = done.push(y);
                    }
                    set.insert(y);
                }
                proof {
                    assert(done.to_set() =~= xs.to_set());
                }
                Ok(EdnSet { items: set })
            },
            Err(e) => Err(e),
        }
    }
}

} // verus!

verus! {

/// Encoding a Rust value as an EDN value.
pub trait ToEdn {
    /// The EDN value of `self`.
    spec fn edn(&self) -> EdnValue;

    /// Whether `edn` is what `to_edn` gives: always, but for a set whose
    /// items do not hash as their equality says.
    spec fn edn_known(&self) -> bool;

    /// Encodes `self`.
    fn to_edn(&self) -> (r: Value)
        ensures
            self.edn_known() ==> r@ == self.edn();
}

impl ToEdn for i64 {
    open spec fn edn_known(&self) -> bool {
        true
    }

    open spec fn edn(&self) -> EdnValue {
        EdnValue::Integer(*self as int)
    }

    fn to_edn(&self) -> (r: Value) {
        Value::Integer(*self)
    }
}

impl ToEdn for i32 {
    open spec fn edn_known(&self) -> bool {
        true
    }

    open spec fn edn(&self) -> EdnValue {
        EdnValue::Integer(*self as int)
    }

    fn to_edn(&self) -> (r: Value) {
        Value::Integer(*self as i64)
    }
}

impl ToEdn for bool {
    open spec fn edn_known(&self) -> bool {
        true
    }

    open spec fn edn(&self) -> EdnValue {
        EdnValue::Bool(*self)
    }

    fn to_edn(&self) -> (r: Value) {
        Value::Bool(*self)
    }
}

impl ToEdn for char {
    open spec fn edn_known(&self) -> bool {
        true
    }

    open spec fn edn(&self) -> EdnValue {
        EdnValue::Char(*self)
    }

    fn to_edn(&self) -> (r: Value) {
        crate::value::char_value(*self)
    }
}

impl ToEdn for String {
    open spec fn edn_known(&self) -> bool {
        true
    }

    open spec fn edn(&self) -> EdnValue {
        EdnValue::Str(self@)
    }

    fn to_edn(&self) -> (r: Value) {
        Value::String(self.clone())
    }
}

impl ToEdn for Value {
    open spec fn edn_known(&self) -> bool {
        true
    }

    open spec fn edn(&self) -> EdnValue {
        self@
    }

    fn to_edn(&self) -> (r: Value) {
        crate::value::deep_clone(self)
    }
}

/// The EDN values of the items.
pub open spec fn edn_items<T: ToEdn>(items: Seq<T>) -> Seq<EdnValue> {
    Seq::new(items.len(), |i: int| items[i].edn())
}

/// Whether `edn` tells what each item is encoded as.
pub open spec fn all_known<T: ToEdn>(items: Seq<T>) -> bool {
    forall|i: int| 0 <= i < items.len() ==> (#[trigger] items[i]).edn_known()
}

fn encode_items<T: ToEdn>(items: &Vec<T>) -> (r: Vec<Value>)
    ensures
        all_known(items@) ==> views(r@) == edn_items(items@),
{
    let mut out: Vec<Value> = Vec::new();
    let mut i: usize = 0;
    while i < items.len()
        invariant
            i <= items.len(),
            out@.len() == i,
            forall|k: int| 0 <= k < i && items@[k].edn_known() ==> (#[trigger] out@[k])@ == items@[k].edn(),
        decreases items.len() - i,
    {
        out.push(items[i].to_edn());
        i = i + 1;
    }
    assert(all_known(items@) ==> views(out@) =~= edn_items(items@));
    out
}

impl<T: ToEdn> ToEdn for Vec<T> {
    /// A vector `[ ... ]`.
    open spec fn edn(&self) -> EdnValue {
        EdnValue::Vector(edn_items(self@))
    }

    open spec fn edn_known(&self) -> bool {
        all_known(self@)
    }

    fn to_edn(&self) -> (r: Value) {
        Value::Vector(encode_items(self))
    }
}

impl<T: ToEdn> ToEdn for EdnList<T> {
    /// A list `( ... )`.
    open spec fn edn(&self) -> EdnValue {
        EdnValue::List(edn_items(self.items@))
    }

    open spec fn edn_known(&self) -> bool {
        all_known(self.items@)
    }

    fn to_edn(&self) -> (r: Value) {
        Value::List(encode_items(&self.items))
    }
}

/// The next item of an iterator.
fn next_item<I: Iterator>(it: &mut I) -> (r: Option<I::Item>)
    ensures
        (*final(it)).obeys_prophetic_iter_laws() ==> if (*old(it)).remaining().len() > 0 {
            &&& (*final(it)).remaining() == (*old(it)).remaining().drop_first()
            &&& r == Some((*old(it)).remaining()[0])
        } else {
            (*final(it)).remaining() == (*old(it)).remaining() && r is None
        },
        (*final(it)).obeys_prophetic_iter_laws() == (*old(it)).obeys_prophetic_iter_laws(),
{
    it.next()
}

/// The items of a set in the order in which the set hands them out.
pub open spec fn set_order<T>(items: &HashSet<T>) -> Seq<T> {
    into_iter_hash_keys(spec_hash_keys_iter(items))
}

impl<T: ToEdn> ToEdn for EdnSet<T> {
    /// A set `#{ ... }`, its items in the order in which the set hands them
    /// out.
    open spec fn edn(&self) -> EdnValue {
        EdnValue::SetVal(edn_items(set_order(&self.items)))
    }

    open spec fn edn_known(&self) -> bool {
        &&& obeys_key_model::<T>()
        &&& forall|x: T| #[trigger] self.items@.contains(x) ==> x.edn_known()
    }

    /// Each item of the set is written once.
    fn to_edn(&self) -> (r: Value)
        ensures
            self.edn_known() ==> set_order(&self.items).to_set() == self.items@,
            self.edn_known() ==> set_order(&self.items).no_duplicates(),
    {
        let n = self.items.len();
        let mut it = self.items.iter();
        let ghost start = it.remaining();
        let ghost mut taken: Seq<&T> = Seq::empty();
        let mut out: Vec<Value> = Vec::new();
        let mut count: usize = 0;
        while count < n
            invariant_except_break
                count <= n,
            invariant
                out@.len() == taken.len(),
                start == taken + it.remaining(),
                forall|k: int| 0 <= k < taken.len() && (*taken[k]).edn_known()
                    ==> (#[trigger] out@[k])@ == (*taken[k]).edn(),
                count == taken.len(),
            ensures
                count == n || it.remaining().len() == 0,
            decreases n - count,
        {
            match next_item(&mut it) {
                Some(x) => {
                    proof {
                        assert(start == (taken.push(x)) + it.remaining());
                        taken = taken.push(x);
                    }
                    out.push(x.to_edn());
                },
                None => {
                    break;
                },
            }
            count = count + 1;
        }
        proof {
            if self.edn_known() {
                assert(start.len() == n);
                assert(taken =~= start);
                let order = set_order(&self.items);
                assert(order =~= start.unref());
                assert forall|k: int| 0 <= k < order.len() implies (#[trigger] order[k]).edn_known() by {
                    assert(start.unref().to_set().contains(order[k]));
                }
                assert(views(out@) =~= edn_items(order));
            }
        }
        Value::SetVal(out)
    }
}

} // verus!

verus! {

impl<T> Default for EdnList<T> {
    fn default() -> (r: Self)
        ensures
            r.items@ == Seq::<T>::empty(),
    {
        Self::new()
    }
}

impl<T> Default for EdnSet<T> {
    fn default() -> (r: Self)
        ensures
            r.items@ == Set::<T>::empty(),
    {
        Self::new()
    }
}

} // verus!

verus! {

/// A list of integers written as EDN and read back decodes as the same
/// list.
pub proof fn lemma_int_list_round_trip(l: EdnList<i64>)
    ensures
        crate::ser::write_value(l.edn()) matches Ok(t) && crate::de::parse_edn(t) matches Ok(v)
            && <EdnList<i64> as FromEdn>::accepts(v) && <EdnList<i64> as FromEdn>::decodes(v, l),
{
    let items = edn_items(l.items@);
    assert forall|k: int| 0 <= k < items.len() implies crate::roundtrip::reads_back(#[trigger] items[k]) by {
        assert(items[k] == EdnValue::Integer(l.items@[k] as int));
    }
    crate::roundtrip::lemma_round_trip(l.edn());
}

} // verus!
