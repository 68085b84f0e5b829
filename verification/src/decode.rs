//! Values from the strings that stand for them: keywords, and tagged
//! values written as `#tag value`.
use vstd::prelude::*;
use crate::chars::{whitespace, is_ascii_digit, is_whitespace, str_to_chars, chars_to_string, chars_eq_str};
use crate::de::{parse_edn, parse_str, sub_chars, digits_end, digits_magnitude};
use crate::grammar::{run_end, digit_class, digits_value, in_i64, lemma_run_end};
use crate::tags::ascii_lower;
use crate::types::{Keyword, Symbol};
use crate::value::{EdnValue, Value};

verus! {

/// The first position from `i` on that is not whitespace.
pub open spec fn trim_start(s: Seq<char>, i: int) -> int
    decreases s.len() - i,
{
    if i < 0 || i >= s.len() || !whitespace(s[i]) {
        i
    } else {
        trim_start(s, i + 1)
    }
}

/// The position after the last character before `j` that is not
/// whitespace.
pub open spec fn trim_end(s: Seq<char>, j: int) -> int
    decreases j,
{
    if j <= 0 || j > s.len() || !whitespace(s[j - 1]) {
        j
    } else {
        trim_end(s, j - 1)
    }
}

/// `s` without its leading and trailing whitespace.
pub open spec fn trim(s: Seq<char>) -> Seq<char> {
    let a = trim_start(s, 0);
    let b = trim_end(s, s.len() as int);
    if a < b {
        s.subrange(a, b)
    } else {
        Seq::empty()
    }
}

/// The position of the first space in `s` from `i` on.
pub open spec fn first_space(s: Seq<char>, i: int) -> Option<int>
    decreases s.len() - i,
{
    if i < 0 || i >= s.len() {
        None
    } else if s[i] == ' ' {
        Some(i)
    } else {
        first_space(s, i + 1)
    }
}

/// `s` starts with `p`.
pub open spec fn has_prefix(s: Seq<char>, p: Seq<char>) -> bool {
    p.len() <= s.len() && s.subrange(0, p.len() as int) == p
}

/// `s` starts with `p` and ends with `)`: the text between them.
pub open spec fn wrapped(s: Seq<char>, p: Seq<char>) -> bool {
    has_prefix(s, p) && s.len() > p.len() && s.last() == ')'
}

/// The text between the prefix `p` and the closing `)`.
pub open spec fn unwrapped(s: Seq<char>, p: Seq<char>) -> Seq<char> {
    s.subrange(p.len() as int, s.len() - 1)
}

/// Every character of `ds` is a decimal digit.
pub open spec fn all_digit_chars(ds: Seq<char>) -> bool {
    forall|k: int| 0 <= k < ds.len() ==> is_ascii_digit(#[trigger] ds[k])
}

/// An `i64` in decimal with an optional sign, as `str::parse::<i64>`
/// accepts it.
pub open spec fn parse_i64(t: Seq<char>) -> Option<int> {
    let a = if t.len() > 0 && (t[0] == '+' || t[0] == '-') { 1int } else { 0int };
    let ds = t.subrange(a, t.len() as int);
    if ds.len() > 0 && all_digit_chars(ds) {
        let v = if a == 1 && t[0] == '-' { -digits_value(ds) } else { digits_value(ds) };
        if in_i64(v) { Some(v) } else { None }
    } else {
        None
    }
}

/// `s` with its ASCII letters in lower case.
pub open spec fn lower(s: Seq<char>) -> Seq<char> {
    s.map_values(|c: char| ascii_lower(c))
}

/// A float as `str::parse::<f64>` accepts it: an optional sign, then
/// `inf`, `infinity` or `nan` in any case, or digits with an optional
/// fraction, at least one digit in all, and an optional exponent.
pub open spec fn float_syntax(x: Seq<char>) -> bool {
    let a = if x.len() > 0 && (x[0] == '+' || x[0] == '-') { 1int } else { 0int };
    let b = x.subrange(a, x.len() as int);
    let i = run_end(b, 0, digit_class());
    let j = if i < b.len() && b[i] == '.' { run_end(b, i + 1, digit_class()) } else { i };
    let digits = if i < b.len() && b[i] == '.' { i + (j - i - 1) } else { i };
    ||| lower(b) == "inf"@ || lower(b) == "infinity"@ || lower(b) == "nan"@
    ||| digits > 0 && (j == b.len() || ((b[j] == 'e' || b[j] == 'E') && {
        let k = if j + 1 < b.len() && (b[j + 1] == '+' || b[j + 1] == '-') { j + 2 } else { j + 1 };
        let e = run_end(b, k, digit_class());
        e > k && e == b.len()
    }))
}

/// What the text `part` after a tag stands for: a quoted string, a scalar
/// written as `Integer(..)`, `Float(..)`, `Bool(..)`, `Nil`, `Char(..)`,
/// `Keyword(..)` or `Symbol(..)`, or any EDN value. When it stands for
/// nothing, the whole text is a plain string.
pub open spec fn tagged_part(tag: Seq<char>, part: Seq<char>, whole: Seq<char>) -> EdnValue {
    let plain = EdnValue::Str(whole);
    if part.len() >= 2 && part[0] == '"' && part.last() == '"' {
        EdnValue::Tagged(tag, Box::new(EdnValue::Str(part.subrange(1, part.len() - 1))))
    } else if wrapped(part, "Integer("@) {
        match parse_i64(unwrapped(part, "Integer("@)) {
            Some(i) => EdnValue::Tagged(tag, Box::new(EdnValue::Integer(i))),
            None => plain,
        }
    } else if wrapped(part, "Float("@) {
        if float_syntax(unwrapped(part, "Float("@)) {
            EdnValue::Tagged(tag, Box::new(EdnValue::Float(unwrapped(part, "Float("@))))
        } else {
            plain
        }
    } else if wrapped(part, "Bool("@) {
        if unwrapped(part, "Bool("@) == "true"@ {
            EdnValue::Tagged(tag, Box::new(EdnValue::Bool(true)))
        } else if unwrapped(part, "Bool("@) == "false"@ {
            EdnValue::Tagged(tag, Box::new(EdnValue::Bool(false)))
        } else {
            plain
        }
    } else if part == "Nil"@ {
        EdnValue::Tagged(tag, Box::new(EdnValue::Nil))
    } else if wrapped(part, "Char("@) {
        if unwrapped(part, "Char("@).len() == 1 {
            EdnValue::Tagged(tag, Box::new(EdnValue::Char(unwrapped(part, "Char("@)[0])))
        } else {
            plain
        }
    } else if wrapped(part, "Keyword("@) {
        EdnValue::Tagged(tag, Box::new(EdnValue::Keyword(unwrapped(part, "Keyword("@))))
    } else if wrapped(part, "Symbol("@) {
        EdnValue::Tagged(tag, Box::new(EdnValue::Symbol(unwrapped(part, "Symbol("@))))
    } else {
        match parse_edn(part) {
            Ok(x) => EdnValue::Tagged(tag, Box::new(x)),
            Err(_) => plain,
        }
    }
}

/// What a string stands for: a keyword when it starts with `:`; when it
/// starts with `#` and has a space, the tag before the space with the value
/// after it; otherwise the string itself.
pub open spec fn text_value(v: Seq<char>) -> EdnValue {
    if v.len() > 0 && v[0] == ':' {
        EdnValue::Keyword(v)
    } else if v.len() > 0 && v[0] == '#' {
        match first_space(v, 1) {
            Some(k) => tagged_part(seq![':'] + v.subrange(1, k), trim(v.subrange(k + 1, v.len() as int)), v),
            None => EdnValue::Str(v),
        }
    } else {
        EdnValue::Str(v)
    }
}

/// The texts on which reading a tagged value cannot take its quoted string:
/// a single quote after the tag.
pub open spec fn text_value_fails(v: Seq<char>) -> bool {
    v.len() > 0 && v[0] == '#' && (first_space(v, 1) matches Some(k) && trim(v.subrange(k + 1, v.len() as int)) == seq!['"'])
}


fn trim_chars(t: &Vec<char>) -> (r: Vec<char>)
    ensures
        r@ == trim(t@),
{
    let mut a: usize = 0;
    while a < t.len() && is_whitespace(t[a])
        invariant
            a <= t.len(),
            trim_start(t@, a as int) == trim_start(t@, 0),
        decreases t.len() - a,
    {
        a = a + 1;
    }
    let mut b: usize = t.len();
    while b > 0 && is_whitespace(t[b - 1])
        invariant
            b <= t.len(),
            trim_end(t@, b as int) == trim_end(t@, t@.len() as int),
        decreases b,
    {
        b = b - 1;
    }
    if a < b {
        sub_chars(t, a, b)
    } else {
        Vec::new()
    }
}

fn find_space(s: &Vec<char>, from: usize) -> (r: Option<usize>)
    requires
        from <= s.len(),
    ensures
        match first_space(s@, from as int) {
            Some(k) => r == Some(k as usize) && from <= k < s.len(),
            None => r is None,
        },
{
    let mut i = from;
    while i < s.len()
        invariant
            from <= i <= s.len(),
            first_space(s@, i as int) == first_space(s@, from as int),
        decreases s.len() - i,
    {
        if s[i] == ' ' {
            return Some(i);
        }
        i = i + 1;
    }
    None
}

fn starts_with_lit(s: &Vec<char>, lit: &str) -> (r: bool)
    ensures
        r == has_prefix(s@, lit@),
{
    let n = lit.unicode_len();
    if n > s.len() {
        return false;
    }
    let mut i: usize = 0;
    while i < n
        invariant
            n == lit@.len(),
            n <= s@.len(),
            i <= n,
            forall|k: int| 0 <= k < i ==> s@[k] == lit@[k],
        decreases n - i,
    {
        if s[i] != lit.get_char(i) {
            assert(s@.subrange(0, n as int)[i as int] != lit@[i as int]);
            return false;
        }
        i = i + 1;
    }
    assert(s@.subrange(0, n as int) =~= lit@);
    true
}

fn is_wrapped(s: &Vec<char>, lit: &str) -> (r: bool)
    ensures
        r == wrapped(s@, lit@),
{
    starts_with_lit(s, lit) && s.len() > lit.unicode_len() && s[s.len() - 1] == ')'
}

fn unwrap_chars(s: &Vec<char>, lit: &str) -> (r: Vec<char>)
    requires
        wrapped(s@, lit@),
    ensures
        r@ == unwrapped(s@, lit@),
{
    sub_chars(s, lit.unicode_len(), s.len() - 1)
}

fn parse_i64_chars(t: &Vec<char>) -> (r: Option<i64>)
    ensures
        match parse_i64(t@) {
            Some(v) => r == Some(v as i64),
            None => r is None,
        },
{
    let a: usize = if t.len() > 0 && (t[0] == '+' || t[0] == '-') { 1 } else { 0 };
    let ghost ds = t@.subrange(a as int, t@.len() as int);
    if !(t.len() > a) {
        assert(ds.len() == 0);
        return None;
    }
    proof { lemma_run_end(t@, a as int, digit_class()); }
    let e = digits_end(t, a);
    if e < t.len() {
        assert(!is_ascii_digit(t@[e as int]));
        assert(ds[e - a] == t@[e as int]);
        assert(!is_ascii_digit(ds[e - a]));
        assert(!all_digit_chars(ds));
        return None;
    }
    assert forall|k: int| 0 <= k < ds.len() implies is_ascii_digit(#[trigger] ds[k]) by {
        assert(ds[k] == t@[k + a]);
    }
    let (big, mag) = digits_magnitude(t, a, t.len());
    let neg = a == 1 && t[0] == '-';
    if big || (!neg && mag > 0x7FFF_FFFF_FFFF_FFFF) {
        return None;
    }
    let v: i64 = if neg { (0i128 - mag as i128) as i64 } else { mag as i64 };
    Some(v)
}

/// Whether `b` is `lit` up to the case of ASCII letters.
fn lower_eq(b: &Vec<char>, lit: &str) -> (r: bool)
    ensures
        r == (lower(b@) == lit@),
{
    let n = lit.unicode_len();
    if b.len() != n {
        assert(lower(b@).len() != lit@.len());
        return false;
    }
    let mut i: usize = 0;
    while i < n
        invariant
            n == lit@.len(),
            n == b@.len(),
            i <= n,
            forall|k: int| 0 <= k < i ==> ascii_lower(b@[k]) == lit@[k],
        decreases n - i,
    {
        let c = b[i];
        let l = if 'A' <= c && c <= 'Z' { crate::chars::char_from_u32(c as u32 + 32) } else { Some(c) };
        let lc = match l {
            Some(x) => x,
            None => c,
        };
        proof {
            if 'A' <= c && c <= 'Z' {
                vstd::utf8::char_u32_cast(lc, (c as u32 + 32) as u32);
            }
        }
        if lc != lit.get_char(i) {
            assert(lower(b@)[i as int] != lit@[i as int]);
            return false;
        }
        i = i + 1;
    }
    assert(lower(b@) =~= lit@);
    true
}

fn is_float_text(x: &Vec<char>) -> (r: bool)
    ensures
        r == float_syntax(x@),
{
    proof {
        reveal_strlit("inf");
        reveal_strlit("infinity");
        reveal_strlit("nan");
    }
    let a: usize = if x.len() > 0 && (x[0] == '+' || x[0] == '-') { 1 } else { 0 };
    let b = sub_chars(x, a, x.len());
    if lower_eq(&b, "inf") || lower_eq(&b, "infinity") || lower_eq(&b, "nan") {
        return true;
    }
    let i = digits_end(&b, 0);
    let dot = i < b.len() && b[i] == '.';
    let j = if dot { digits_end(&b, i + 1) } else { i };
    let digits: usize = if dot { i + (j - i - 1) } else { i };
    if digits == 0 {
        return false;
    }
    if j == b.len() {
        return true;
    }
    if b[j] == 'e' || b[j] == 'E' {
        let k = if j + 1 < b.len() && (b[j + 1] == '+' || b[j + 1] == '-') { j + 2 } else { j + 1 };
        let e = digits_end(&b, k);
        e > k && e == b.len()
    } else {
        false
    }
}


fn tagged(tag: &Vec<char>, x: Value) -> (r: Value)
    ensures
        r@ == EdnValue::Tagged(tag@, Box::new(x@)),
{
    Value::Tagged { tag: Symbol(chars_to_string(tag)), value: Box::new(x) }
}

fn plain_text(whole: &Vec<char>) -> (r: Value)
    ensures
        r@ == EdnValue::Str(whole@),
{
    Value::String(chars_to_string(whole))
}

/// See [`tagged_part`].
fn tagged_value_of(tag: &Vec<char>, part: &Vec<char>, whole: &Vec<char>) -> (r: Value)
    requires
        part@ != seq!['"'],
    ensures
        r@ == tagged_part(tag@, part@, whole@),
{
    proof {
        reveal_strlit("Integer(");
        reveal_strlit("Float(");
        reveal_strlit("Bool(");
        reveal_strlit("Nil");
        reveal_strlit("Char(");
        reveal_strlit("Keyword(");
        reveal_strlit("Symbol(");
        reveal_strlit("true");
        reveal_strlit("false");
    }
    let n = part.len();
    if n >= 1 && part[0] == '"' && part[n - 1] == '"' {
        if n == 1 {
            assert(part@ =~= seq!['"']);
        }
        let inner = sub_chars(part, 1, n - 1);
        return tagged(tag, plain_text(&inner));
    }
    if is_wrapped(part, "Integer(") {
        let inner = unwrap_chars(part, "Integer(");
        return match parse_i64_chars(&inner) {
            Some(i) => tagged(tag, Value::Integer(i)),
            None => plain_text(whole),
        };
    }
    if is_wrapped(part, "Float(") {
        let inner = unwrap_chars(part, "Float(");
        if is_float_text(&inner) {
            return tagged(tag, Value::Float(chars_to_string(&inner)));
        } else {
            return plain_text(whole);
        }
    }
    if is_wrapped(part, "Bool(") {
        let inner = unwrap_chars(part, "Bool(");
        if chars_eq_str(&inner, "true") {
            return tagged(tag, Value::Bool(true));
        } else if chars_eq_str(&inner, "false") {
            return tagged(tag, Value::Bool(false));
        } else {
            return plain_text(whole);
        }
    }
    if chars_eq_str(part, "Nil") {
        return tagged(tag, Value::Nil);
    }
    if is_wrapped(part, "Char(") {
        let inner = unwrap_chars(part, "Char(");
        if inner.len() == 1 {
            return tagged(tag, crate::value::char_value(inner[0]));
        } else {
            return plain_text(whole);
        }
    }
    if is_wrapped(part, "Keyword(") {
        let inner = unwrap_chars(part, "Keyword(");
        return tagged(tag, Value::Keyword(Keyword(chars_to_string(&inner))));
    }
    if is_wrapped(part, "Symbol(") {
        let inner = unwrap_chars(part, "Symbol(");
        return tagged(tag, Value::Symbol(Symbol(chars_to_string(&inner))));
    }
    let text = chars_to_string(part);
    match parse_str(text.as_str()) {
        Ok(x) => tagged(tag, x),
        Err(_) => plain_text(whole),
    }
}

/// The value a string stands for: see [`text_value`]. The text must not be
/// a tag followed by a lone quote.
pub fn value_of_text(v: &str) -> (r: Value)
    requires
        !text_value_fails(v@),
    ensures
        r@ == text_value(v@),
{
    let s = str_to_chars(v);
    if s.len() > 0 && s[0] == ':' {
        return Value::Keyword(Keyword(chars_to_string(&s)));
    }
    if s.len() > 0 && s[0] == '#' {
        match find_space(&s, 1) {
            Some(k) => {
                let mut tag: Vec<char> = Vec::new();
                tag.push(':');
                let name = sub_chars(&s, 1, k);
                crate::chars::push_chars(&mut tag, &name);
                assert(tag@ =~= seq![':'] + s@.subrange(1, k as int));
                let rest = sub_chars(&s, k + 1, s.len());
                let part = trim_chars(&rest);
                return tagged_value_of(&tag, &part, &s);
            },
            None => {
                return plain_text(&s);
            },
        }
    }
    plain_text(&s)
}

/// Whether [`value_of_text`] can take `v`: it fails on a tag followed by a
/// lone quote.
pub fn value_of_text_fails(v: &str) -> (r: bool)
    ensures
        r == text_value_fails(v@),
{
    let s = str_to_chars(v);
    if s.len() > 0 && s[0] == '#' {
        match find_space(&s, 1) {
            Some(k) => {
                let rest = sub_chars(&s, k + 1, s.len());
                let part = trim_chars(&rest);
                if part.len() == 1 && part[0] == '"' {
                    assert(part@ =~= seq!['"']);
                    true
                } else {
                    false
                }
            },
            None => false,
        }
    } else {
        false
    }
}

} // verus!

verus! {

/// The text of a value taken as an identifier, such as a field name: a
/// keyword without its leading colon, a string, or a symbol.
pub open spec fn identifier_of(v: EdnValue) -> Option<Seq<char>> {
    match v {
        EdnValue::Keyword(k) => Some(if k.len() > 0 && k[0] == ':' { k.subrange(1, k.len() as int) } else { k }),
        EdnValue::Str(s) => Some(s),
        EdnValue::Symbol(s) => Some(s),
        _ => None,
    }
}

/// See [`identifier_of`].
pub fn identifier_text(v: &Value) -> (r: Option<String>)
    ensures
        match identifier_of(v@) {
            Some(t) => r matches Some(x) && x@ == t,
            None => r is None,
        },
{
    match v {
        Value::Keyword(k) => {
            let s = str_to_chars(k.0.as_str());
            if s.len() > 0 && s[0] == ':' {
                Some(chars_to_string(&sub_chars(&s, 1, s.len())))
            } else {
                Some(k.0.clone())
            }
        },
        Value::String(s) => Some(s.clone()),
        Value::Symbol(s) => Some(s.0.clone()),
        _ => None,
    }
}

} // verus!
