//! Reading EDN text into values.
use vstd::prelude::*;
use crate::chars::{
    is_alphabetic, is_alphanumeric, is_whitespace, is_digit, is_hex, char_from_u32, str_to_chars,
    chars_to_string, push_str, push_chars, chars_eq_str, is_ascii_digit, hex_digit_value,
};
use crate::grammar::{
    ReadError, skip_ws as spec_skip_ws, skip_comment, run_end, symbol_char_class, digit_class,
    alphabetic_class, read_symbol_text as spec_symbol_text, read_number as spec_number,
    read_string as spec_string, read_hex4 as spec_hex4, read_char as spec_char,
    read_value as spec_read_value, read_seq as spec_read_seq, read_map as spec_read_map,
    read_map_or_set as spec_map_or_set, read_dispatch as spec_dispatch, line_col as spec_line_col,
    digits_value, is_symbol_punct, is_symbol_char, is_symbol_start, escape_char,
    key_index, map_insert as spec_map_insert, symbol_value, lemma_skip_ws, lemma_run_end,
    lemma_symbol_text, lemma_read_value,
};
use crate::tags::handle_tagged_value;
use crate::types::{Error, ErrorView, Keyword, ParseError, Symbol};
use crate::value::{EdnValue, Value, views, entry_views, lemma_list_view, lemma_map_view, value_eq, char_value};

verus! {

broadcast use {
    crate::value::lemma_list_view, crate::value::lemma_vector_view, crate::value::lemma_set_view,
    crate::value::lemma_map_view,
};

/// A syntax error at a position of the input, or an error of a tag handler.
pub enum ReadErr {
    Eof,
    At(Vec<char>, usize),
    Custom(String),
}

impl View for ReadErr {
    type V = ReadError;

    open spec fn view(&self) -> ReadError {
        match self {
            ReadErr::Eof => ReadError::Eof,
            ReadErr::At(m, p) => ReadError::At(m@, *p as int),
            ReadErr::Custom(m) => ReadError::Custom(m@),
        }
    }
}

/// The view of a value read, with the position after it.
pub open spec fn value_res(r: Result<(Value, usize), ReadErr>) -> Result<(EdnValue, int), ReadError> {
    match r {
        Ok((v, k)) => Ok((v@, k as int)),
        Err(e) => Err(e@),
    }
}

/// The view of the items read, with the position after them.
pub open spec fn items_res(r: Result<(Vec<Value>, usize), ReadErr>) -> Result<(Seq<EdnValue>, int), ReadError> {
    match r {
        Ok((v, k)) => Ok((views(v@), k as int)),
        Err(e) => Err(e@),
    }
}

/// The view of the entries read, with the position after them.
pub open spec fn entries_res(r: Result<(Vec<(Value, Value)>, usize), ReadErr>) -> Result<(Seq<(EdnValue, EdnValue)>, int), ReadError> {
    match r {
        Ok((v, k)) => Ok((entry_views(v@), k as int)),
        Err(e) => Err(e@),
    }
}

fn at(msg: &str, pos: usize) -> (r: ReadErr)
    ensures
        r@ == ReadError::At(msg@, pos as int),
{
    let mut m: Vec<char> = Vec::new();
    push_str(&mut m, msg);
    ReadErr::At(m, pos)
}

fn at_with(msg: &str, extra: &Vec<char>, pos: usize) -> (r: ReadErr)
    ensures
        r@ == ReadError::At(msg@ + extra@, pos as int),
{
    let mut m: Vec<char> = Vec::new();
    push_str(&mut m, msg);
    push_chars(&mut m, extra);
    ReadErr::At(m, pos)
}

pub(crate) fn sub_chars(s: &Vec<char>, from: usize, to: usize) -> (r: Vec<char>)
    requires
        from <= to <= s.len(),
    ensures
        r@ == s@.subrange(from as int, to as int),
{
    let mut out: Vec<char> = Vec::new();
    let mut p = from;
    while p < to
        invariant
            from <= p <= to <= s.len(),
            out@ == s@.subrange(from as int, p as int),
        decreases to - p,
    {
        out.push(s[p]);
        p = p + 1;
        assert(out@ =~= s@.subrange(from as int, p as int));
    }
    out
}

fn skip_ws(s: &Vec<char>, i: usize) -> (r: usize)
    requires
        i <= s.len(),
    ensures
        r as int == spec_skip_ws(s@, i as int),
        i <= r <= s.len(),
{
    proof { lemma_skip_ws(s@, i as int); }
    let mut p = i;
    while p < s.len()
        invariant
            i <= p <= s.len(),
            spec_skip_ws(s@, p as int) == spec_skip_ws(s@, i as int),
        decreases s.len() - p,
    {
        let c = s[p];
        if is_whitespace(c) || c == ',' {
            p = p + 1;
        } else if c == ';' {
            let ghost start = p;
            p = p + 1;
            while p < s.len() && s[p] != '\n'
                invariant
                    i < p <= s.len(),
                    start < p,
                    skip_comment(s@, p as int) == spec_skip_ws(s@, i as int),
                decreases s.len() - p,
            {
                p = p + 1;
            }
        } else {
            return p;
        }
    }
    p
}

fn is_symbol_punct_char(c: char) -> (r: bool)
    ensures
        r == is_symbol_punct(c),
{
    c == '+' || c == '-' || c == '.' || c == '*' || c == '!' || c == '_' || c == '?' || c == '$'
        || c == '%' || c == '&' || c == '=' || c == '<' || c == '>'
}

fn is_symbol_start_char(c: char) -> (r: bool)
    ensures
        r == is_symbol_start(c),
{
    is_alphabetic(c) || is_symbol_punct_char(c)
}

fn is_symbol_char_exec(c: char) -> (r: bool)
    ensures
        r == is_symbol_char(c),
{
    is_alphanumeric(c) || is_symbol_punct_char(c) || c == ':' || c == '#'
}

fn symbol_chars_end(s: &Vec<char>, i: usize) -> (r: usize)
    requires
        i <= s.len(),
    ensures
        r as int == run_end(s@, i as int, symbol_char_class()),
        i <= r <= s.len(),
{
    let mut p = i;
    while p < s.len() && is_symbol_char_exec(s[p])
        invariant
            i <= p <= s.len(),
            run_end(s@, p as int, symbol_char_class()) == run_end(s@, i as int, symbol_char_class()),
        decreases s.len() - p,
    {
        p = p + 1;
    }
    p
}

pub(crate) fn digits_end(s: &Vec<char>, i: usize) -> (r: usize)
    requires
        i <= s.len(),
    ensures
        r as int == run_end(s@, i as int, digit_class()),
        i <= r <= s.len(),
{
    let mut p = i;
    while p < s.len() && is_digit(s[p])
        invariant
            i <= p <= s.len(),
            run_end(s@, p as int, digit_class()) == run_end(s@, i as int, digit_class()),
        decreases s.len() - p,
    {
        p = p + 1;
    }
    p
}

fn alphabetic_end(s: &Vec<char>, i: usize) -> (r: usize)
    requires
        i <= s.len(),
    ensures
        r as int == run_end(s@, i as int, alphabetic_class()),
        i <= r <= s.len(),
{
    let mut p = i;
    while p < s.len() && is_alphabetic(s[p])
        invariant
            i <= p <= s.len(),
            run_end(s@, p as int, alphabetic_class()) == run_end(s@, i as int, alphabetic_class()),
        decreases s.len() - p,
    {
        p = p + 1;
    }
    p
}

fn read_symbol_text(s: &Vec<char>, i: usize) -> (r: Result<(Vec<char>, usize), ReadErr>)
    requires
        i <= s.len(),
    ensures
        match (r, spec_symbol_text(s@, i as int)) {
            (Ok((n, k)), Ok((sn, sk))) => n@ == sn && k as int == sk,
            (Err(e), Err(se)) => e@ == se,
            _ => false,
        },
{
    if i >= s.len() {
        return Err(at("unexpected end in symbol", i));
    }
    let c = s[i];
    if !is_symbol_start_char(c) {
        let mut extra: Vec<char> = Vec::new();
        extra.push(c);
        return Err(at_with("invalid symbol start: ", &extra, i));
    }
    let j = symbol_chars_end(s, i + 1);
    let k = if j < s.len() && s[j] == '/' {
        symbol_chars_end(s, j + 1)
    } else {
        j
    };
    Ok((sub_chars(s, i, k), k))
}

/// The value of the digits `s[a..b]`, or `big` when it exceeds `2^63`.
pub(crate) fn digits_magnitude(s: &Vec<char>, a: usize, b: usize) -> (r: (bool, u128))
    requires
        a <= b <= s.len(),
        forall|j: int| a <= j < b ==> is_ascii_digit(#[trigger] s@[j]),
    ensures
        !r.0 ==> r.1 as int == digits_value(s@.subrange(a as int, b as int)) && r.1 <= 0x8000_0000_0000_0000,
        r.0 ==> digits_value(s@.subrange(a as int, b as int)) > 0x8000_0000_0000_0000,
{
    let mut big = false;
    let mut acc: u128 = 0;
    let mut p = a;
    assert(s@.subrange(a as int, a as int).len() == 0);
    while p < b
        invariant
            a <= p <= b <= s.len(),
            forall|j: int| a <= j < b ==> is_ascii_digit(#[trigger] s@[j]),
            digits_value(s@.subrange(a as int, p as int)) >= 0,
            !big ==> acc as int == digits_value(s@.subrange(a as int, p as int)) && acc <= 0x8000_0000_0000_0000,
            big ==> digits_value(s@.subrange(a as int, p as int)) > 0x8000_0000_0000_0000,
        decreases b - p,
    {
        let ghost prev = s@.subrange(a as int, p as int);
        let c = s[p];
        let d = (c as u32 - '0' as u32) as u128;
        assert(s@.subrange(a as int, p + 1).drop_last() =~= prev);
        assert(s@.subrange(a as int, p + 1).last() == c);
        if !big {
            let next = acc * 10 + d;
            if next > 0x8000_0000_0000_0000 {
                big = true;
            } else {
                acc = next;
            }
        }
        p = p + 1;
    }
    (big, acc)
}

fn read_number(s: &Vec<char>, i: usize) -> (r: Result<(Value, usize), ReadErr>)
    requires
        i < s.len(),
    ensures
        value_res(r) == spec_number(s@, i as int),
{
    let a = if s[i] == '+' || s[i] == '-' { i + 1 } else { i };
    let b = digits_end(s, a);
    if b == a {
        return Err(at("expected digit", a));
    }
    let dot = b < s.len() && s[b] == '.';
    let c = if dot { digits_end(s, b + 1) } else { b };
    let has_frac = dot && c > b + 1;
    if c < s.len() && (s[c] == 'e' || s[c] == 'E') {
        let d = if c + 1 < s.len() && (s[c + 1] == '+' || s[c + 1] == '-') { c + 2 } else { c + 1 };
        let e = digits_end(s, d);
        if e == d {
            return Err(at("expected digits after exponent", d));
        }
        let text = sub_chars(s, i, e);
        return Ok((Value::Float(chars_to_string(&text)), e));
    }
    if has_frac {
        let text = sub_chars(s, i, c);
        return Ok((Value::Float(chars_to_string(&text)), c));
    }
    proof { lemma_run_end(s@, a as int, digit_class()); }
    let (big, mag) = digits_magnitude(s, a, b);
    let neg = a > i && s[i] == '-';
    let out_of_range = big || (!neg && mag > 0x7FFF_FFFF_FFFF_FFFF);
    if dot || out_of_range {
        let text = sub_chars(s, i, c);
        return Err(at_with("invalid integer: ", &text, c));
    }
    let v: i64 = if neg { (0i128 - mag as i128) as i64 } else { mag as i64 };
    if c < s.len() && (s[c] == 'N' || s[c] == 'M') {
        Ok((Value::Integer(v), c + 1))
    } else {
        Ok((Value::Integer(v), c))
    }
}

fn escape_of(e: char) -> (r: Option<char>)
    ensures
        r == escape_char(e),
{
    if e == 't' {
        Some('\t')
    } else if e == 'r' {
        Some('\r')
    } else if e == 'n' {
        Some('\n')
    } else if e == '\\' {
        Some('\\')
    } else if e == '"' {
        Some('"')
    } else {
        None
    }
}

fn read_string(s: &Vec<char>, p0: usize) -> (r: Result<(Value, usize), ReadErr>)
    requires
        p0 <= s.len(),
    ensures
        value_res(r) == spec_string(s@, p0 as int, seq![]),
{
    let mut acc: Vec<char> = Vec::new();
    let mut p = p0;
    while p < s.len()
        invariant
            p0 <= p <= s.len(),
            spec_string(s@, p as int, acc@) == spec_string(s@, p0 as int, seq![]),
        decreases s.len() - p,
    {
        let c = s[p];
        if c == '"' {
            return Ok((Value::String(chars_to_string(&acc)), p + 1));
        } else if c == '\\' {
            if p + 1 >= s.len() {
                return Err(at("unexpected end in string escape", p + 1));
            }
            match escape_of(s[p + 1]) {
                Some(x) => {
                    acc.push(x);
                    p = p + 2;
                },
                None => {
                    let mut extra: Vec<char> = Vec::new();
                    extra.push(s[p + 1]);
                    return Err(at_with("invalid escape: \\", &extra, p + 1));
                },
            }
        } else {
            acc.push(c);
            p = p + 1;
        }
    }
    Err(at("unterminated string", p))
}

fn hex_value(c: char) -> (r: u32)
    requires
        crate::chars::is_hex_digit(c),
    ensures
        r as int == hex_digit_value(c),
        r < 16,
{
    if '0' <= c && c <= '9' {
        c as u32 - '0' as u32
    } else if 'a' <= c && c <= 'f' {
        c as u32 - 'a' as u32 + 10
    } else {
        c as u32 - 'A' as u32 + 10
    }
}

fn read_hex4(s: &Vec<char>, k: usize) -> (r: Result<(Value, usize), ReadErr>)
    requires
        k <= s.len(),
        s.len() < usize::MAX,
    ensures
        value_res(r) == spec_hex4(s@, k as int, 0, 0),
{
    let mut t: usize = 0;
    let mut acc: u32 = 0;
    while t < 4
        invariant
            t <= 4,
            k + t <= s.len() < usize::MAX,
            acc < 0x10000,
            acc as int * 16 < 0x10000 || t == 4,
            t < 4 ==> acc < pow16(t as nat),
            spec_hex4(s@, k as int, t as int, acc as int) == spec_hex4(s@, k as int, 0, 0),
        decreases 4 - t,
    {
        if k + t >= s.len() {
            return Err(at("unexpected end in unicode escape", k + t));
        }
        let c = s[k + t];
        if !is_hex(c) {
            return Err(at("expected 4 hex digits after \\u", k + t));
        }
        let h = hex_value(c);
        proof { lemma_pow16_step(t as nat, acc as int, h as int); }
        acc = acc * 16 + h;
        t = t + 1;
    }
    match char_from_u32(acc) {
        Some(ch) => {
            proof { vstd::utf8::char_u32_cast(ch, acc); }
            Ok((char_value(ch), k + 4))
        },
        None => Err(at("invalid unicode codepoint", k + 4)),
    }
}

spec fn pow16(t: nat) -> int
    decreases t,
{
    if t == 0 { 1 } else { 16 * pow16((t - 1) as nat) }
}

proof fn lemma_pow16_step(t: nat, acc: int, h: int)
    requires
        t < 4,
        0 <= acc < pow16(t),
        0 <= h < 16,
    ensures
        acc * 16 + h < pow16(t + 1),
        t + 1 < 4 ==> acc * 16 + h < 0x1000,
        acc * 16 + h < 0x10000,
{
    reveal_with_fuel(pow16, 5);
}

} // verus!

verus! {


fn read_char(s: &Vec<char>, j: usize) -> (r: Result<(Value, usize), ReadErr>)
    requires
        j <= s.len(),
        s.len() < usize::MAX,
    ensures
        value_res(r) == spec_char(s@, j as int),
{
    if j >= s.len() {
        return Err(at("unexpected end after '\\'", j));
    }
    let c = s[j];
    if c == 'u' && 4 < s.len() - j && is_hex(s[j + 1]) && is_hex(s[j + 2]) && is_hex(s[j + 3]) && is_hex(s[j + 4]) {
        return read_hex4(s, j + 1);
    }
    if is_alphabetic(c) {
        let k = alphabetic_end(s, j);
        let name = sub_chars(s, j, k);
        assert(name@ == s@.subrange(j as int, k as int));
        if chars_eq_str(&name, "newline") {
            assert(spec_char(s@, j as int) == Ok::<(EdnValue, int), ReadError>((EdnValue::Char('\n'), k as int)));
            let r = Value::Char('\n');
            assert(r@ == EdnValue::Char('\n'));
            Ok((r, k))
        } else if chars_eq_str(&name, "return") {
            assert(spec_char(s@, j as int) == Ok::<(EdnValue, int), ReadError>((EdnValue::Char('\r'), k as int)));
            Ok((char_value('\r'), k))
        } else if chars_eq_str(&name, "space") {
            assert(spec_char(s@, j as int) == Ok::<(EdnValue, int), ReadError>((EdnValue::Char(' '), k as int)));
            Ok((char_value(' '), k))
        } else if chars_eq_str(&name, "tab") {
            assert(spec_char(s@, j as int) == Ok::<(EdnValue, int), ReadError>((EdnValue::Char('\t'), k as int)));
            Ok((char_value('\t'), k))
        } else if chars_eq_str(&name, "u") {
            assert(spec_char(s@, j as int) == spec_hex4(s@, k as int, 0, 0));
            read_hex4(s, k)
        } else if name.len() == 1 {
            assert(name@.len() == 1);
            assert(spec_char(s@, j as int) == Ok::<(EdnValue, int), ReadError>((EdnValue::Char(c), k as int)));
            Ok((char_value(c), k))
        } else {
            Err(at_with("invalid character literal: \\", &name, k))
        }
    } else {
        Ok((char_value(c), j + 1))
    }
}

fn symbol_to_value(name: Vec<char>) -> (r: Value)
    ensures
        r@ == symbol_value(name@),
{
    if chars_eq_str(&name, "nil") {
        Value::Nil
    } else if chars_eq_str(&name, "true") {
        Value::Bool(true)
    } else if chars_eq_str(&name, "false") {
        Value::Bool(false)
    } else {
        Value::Symbol(Symbol(chars_to_string(&name)))
    }
}

proof fn lemma_key_index(m: Seq<(EdnValue, EdnValue)>, k: EdnValue)
    ensures
        match key_index(m, k) {
            Some(j) => 0 <= j < m.len() && m[j].0 == k && forall|i: int| 0 <= i < j ==> m[i].0 != k,
            None => forall|i: int| 0 <= i < m.len() ==> m[i].0 != k,
        },
    decreases m.len(),
{
    if m.len() > 0 {
        lemma_key_index(m.drop_last(), k);
        assert(forall|i: int| 0 <= i < m.len() - 1 ==> m.drop_last()[i] == m[i]);
    }
}

/// The position of the first entry whose key has the view of `k`.
fn find_key(entries: &Vec<(Value, Value)>, k: &Value) -> (r: Option<usize>)
    ensures
        match r {
            Some(j) => j < entries.len() && key_index(entry_views(entries@), k@) == Some(j as int),
            None => key_index(entry_views(entries@), k@) is None,
        },
{
    let ghost m = entry_views(entries@);
    proof { lemma_key_index(m, k@); }
    let mut j: usize = 0;
    while j < entries.len()
        invariant
            j <= entries.len(),
            m == entry_views(entries@),
            match key_index(m, k@) {
                Some(x) => 0 <= x < m.len() && m[x].0 == k@ && forall|i: int| 0 <= i < x ==> m[i].0 != k@,
                None => forall|i: int| 0 <= i < m.len() ==> m[i].0 != k@,
            },
            forall|i: int| 0 <= i < j ==> m[i].0 != k@,
        decreases entries.len() - j,
    {
        if value_eq(&entries[j].0, k) {
            assert(m[j as int].0 == k@);
            return Some(j);
        }
        j = j + 1;
    }
    None
}

/// Adds an entry: an existing key gets the new value, a new key goes last.
pub fn map_insert(entries: &mut Vec<(Value, Value)>, k: Value, v: Value)
    ensures
        entry_views(final(entries)@) == spec_map_insert(entry_views(old(entries)@), k@, v@),
{
    let ghost m = entry_views(entries@);
    let ghost kv = k@;
    let ghost vv = v@;
    proof { lemma_key_index(m, kv); }
    match find_key(entries, &k) {
        Some(j) => {
            let ghost before = entries@;
            let pair = (k, v);
            let ghost gp = pair;
            entries.set(j, pair);
            assert(entries@ == before.update(j as int, gp));
            assert(entries@.len() == m.len());
            assert forall|i: int| 0 <= i < m.len() implies #[trigger] entry_views(entries@)[i] == m.update(j as int, (m[j as int].0, vv))[i] by {
                if i == j {
                    assert(entry_views(entries@)[i] == (gp.0@, gp.1@));
                    assert(gp.0@ == kv && gp.1@ == vv);
                    assert(m[j as int].0 == kv);
                }
            }
            assert(entry_views(entries@) =~= m.update(j as int, (m[j as int].0, vv)));
        },
        None => {
            entries.push((k, v));
            assert(entry_views(entries@) =~= m.push((kv, vv)));
        },
    }
}

fn read_value(s: &Vec<char>, i: usize) -> (r: Result<(Value, usize), ReadErr>)
    requires
        i <= s.len(),
        s.len() < usize::MAX,
    ensures
        value_res(r) == spec_read_value(s@, i as int),
    decreases s.len() - i, 0int,
{
    let q = skip_ws(s, i);
    if q == s.len() {
        return Err(ReadErr::Eof);
    }
    let c = s[q];
    if c == '(' {
        match read_seq(s, q + 1, ')') {
            Ok((items, k)) => Ok((Value::List(items), k)),
            Err(e) => Err(e),
        }
    } else if c == '[' {
        match read_seq(s, q + 1, ']') {
            Ok((items, k)) => Ok((Value::Vector(items), k)),
            Err(e) => Err(e),
        }
    } else if c == '{' {
        read_map_or_set(s, q + 1)
    } else if c == '#' {
        read_dispatch(s, q + 1)
    } else if c == ':' {
        match read_symbol_text(s, q + 1) {
            Ok((name, k)) => {
                let mut text: Vec<char> = Vec::new();
                text.push(':');
                push_chars(&mut text, &name);
                assert(text@ == seq![':'] + name@);
                Ok((Value::Keyword(Keyword(chars_to_string(&text))), k))
            },
            Err(e) => Err(e),
        }
    } else if c == '"' {
        read_string(s, q + 1)
    } else if c == '\\' {
        read_char(s, q + 1)
    } else if c == '-' || c == '+' || is_digit(c) {
        read_number(s, q)
    } else if is_symbol_start_char(c) {
        match read_symbol_text(s, q) {
            Ok((name, k)) => Ok((symbol_to_value(name), k)),
            Err(e) => Err(e),
        }
    } else {
        let mut extra: Vec<char> = Vec::new();
        extra.push(c);
        Err(at_with("unexpected character: ", &extra, q))
    }
}

fn read_seq(s: &Vec<char>, p0: usize, close: char) -> (r: Result<(Vec<Value>, usize), ReadErr>)
    requires
        p0 <= s.len(),
        s.len() < usize::MAX,
    ensures
        items_res(r) == spec_read_seq(s@, p0 as int, close, seq![]),
    decreases s.len() - p0, 1int,
{
    let mut items: Vec<Value> = Vec::new();
    let mut p = p0;
    assert(views(items@) =~= seq![]);
    loop
        invariant
            p0 <= p <= s.len() < usize::MAX,
            spec_read_seq(s@, p as int, close, views(items@)) == spec_read_seq(s@, p0 as int, close, seq![]),
        decreases s.len() - p,
    {
        let q = skip_ws(s, p);
        if q < s.len() && s[q] == close {
            return Ok((items, q + 1));
        }
        proof { lemma_read_value(s@, q as int); }
        match read_value(s, q) {
            Ok((v, m)) => {
                let ghost before = views(items@);
                items.push(v);
                assert(views(items@) =~= before.push(v@));
                p = m;
            },
            Err(e) => {
                return Err(e);
            },
        }
    }
}

fn read_map(s: &Vec<char>, p0: usize) -> (r: Result<(Vec<(Value, Value)>, usize), ReadErr>)
    requires
        p0 <= s.len(),
        s.len() < usize::MAX,
    ensures
        entries_res(r) == spec_read_map(s@, p0 as int, seq![]),
    decreases s.len() - p0, 1int,
{
    let mut entries: Vec<(Value, Value)> = Vec::new();
    let mut p = p0;
    assert(entry_views(entries@) =~= seq![]);
    loop
        invariant
            p0 <= p <= s.len() < usize::MAX,
            spec_read_map(s@, p as int, entry_views(entries@)) == spec_read_map(s@, p0 as int, seq![]),
        decreases s.len() - p,
    {
        let q = skip_ws(s, p);
        if q < s.len() && s[q] == '}' {
            return Ok((entries, q + 1));
        }
        proof { lemma_read_value(s@, q as int); }
        match read_value(s, q) {
            Ok((k, a)) => {
                let b = skip_ws(s, a);
                proof { lemma_read_value(s@, b as int); }
                match read_value(s, b) {
                    Ok((v, m)) => {
                        map_insert(&mut entries, k, v);
                        p = m;
                    },
                    Err(e) => {
                        return Err(e);
                    },
                }
            },
            Err(e) => {
                return Err(e);
            },
        }
    }
}

fn read_map_or_set(s: &Vec<char>, p: usize) -> (r: Result<(Value, usize), ReadErr>)
    requires
        p <= s.len(),
        s.len() < usize::MAX,
    ensures
        value_res(r) == spec_map_or_set(s@, p as int),
    decreases s.len() - p, 2int,
{
    match read_map(s, p) {
        Ok((entries, k)) => Ok((Value::MapVal(entries), k)),
        Err(e) => Err(e),
    }
}

fn read_dispatch(s: &Vec<char>, j: usize) -> (r: Result<(Value, usize), ReadErr>)
    requires
        j <= s.len(),
        s.len() < usize::MAX,
    ensures
        value_res(r) == spec_dispatch(s@, j as int),
    decreases s.len() - j, 2int,
{
    if j >= s.len() {
        return Err(at("unexpected end after '#'", j));
    }
    let c = s[j];
    if c == '_' {
        let k = skip_ws(s, j + 1);
        proof { lemma_read_value(s@, k as int); }
        match read_value(s, k) {
            Ok((_, m)) => read_value(s, m),
            Err(e) => Err(e),
        }
    } else if c == '{' {
        match read_seq(s, j + 1, '}') {
            Ok((items, k)) => Ok((Value::SetVal(items), k)),
            Err(e) => Err(e),
        }
    } else if c == '#' {
        match read_symbol_text(s, j + 1) {
            Ok((name, k)) => {
                if chars_eq_str(&name, "NaN") || chars_eq_str(&name, "Inf") || chars_eq_str(&name, "-Inf") {
                    let mut text: Vec<char> = Vec::new();
                    text.push('#');
                    text.push('#');
                    push_chars(&mut text, &name);
                    assert(text@ == seq!['#', '#'] + name@);
                    Ok((Value::Float(chars_to_string(&text)), k))
                } else {
                    Err(at("unsupported dispatch", j))
                }
            },
            Err(_) => Err(at("unsupported dispatch", j)),
        }
    } else if is_alphabetic(c) {
        proof { lemma_symbol_text(s@, j as int); }
        match read_symbol_text(s, j) {
            Ok((tag, k)) => {
                let k2 = skip_ws(s, k);
                match read_value(s, k2) {
                    Ok((v, m)) => {
                        let tag_text = chars_to_string(&tag);
                        match handle_tagged_value(tag_text.as_str(), &v) {
                            Ok(x) => Ok((x, m)),
                            Err(e) => match e {
                                Error::Custom(msg) => Err(ReadErr::Custom(msg)),
                                _ => Err(ReadErr::Eof),
                            },
                        }
                    },
                    Err(e) => Err(e),
                }
            },
            Err(e) => Err(e),
        }
    } else {
        Err(at("unsupported dispatch", j))
    }
}

} // verus!

verus! {

/// What reading a value at position `i` of `s` gives, with a syntax error
/// placed at its line and column.
pub open spec fn read_result(s: Seq<char>, i: int) -> Result<(EdnValue, int), ErrorView> {
    match spec_read_value(s, i) {
        Ok((v, k)) => Ok((v, k)),
        Err(ReadError::Eof) => Err(ErrorView::Eof),
        Err(ReadError::At(m, p)) => Err(ErrorView::Parse(m, spec_line_col(s, p).0, spec_line_col(s, p).1)),
        Err(ReadError::Custom(m)) => Err(ErrorView::Custom(m)),
    }
}

/// What reading an EDN text gives: the first value in it.
pub open spec fn parse_edn(s: Seq<char>) -> Result<EdnValue, ErrorView> {
    match read_result(s, 0) {
        Ok((v, _)) => Ok(v),
        Err(e) => Err(e),
    }
}

/// Every map in a value read from text holds each key once.
pub proof fn lemma_parse_maps_distinct(s: Seq<char>)
    ensures
        parse_edn(s) matches Ok(v) ==> crate::grammar::maps_distinct(v),
{
    crate::grammar::lemma_read_value_distinct(s, 0);
}

/// The view of a result of reading.
pub open spec fn value_result(r: Result<Value, Error>) -> Result<EdnValue, ErrorView> {
    match r {
        Ok(v) => Ok(v@),
        Err(e) => Err(e@),
    }
}

fn line_col(s: &Vec<char>, pos: usize) -> (r: (usize, usize))
    requires
        pos <= s.len() < usize::MAX,
    ensures
        r.0 as int == spec_line_col(s@, pos as int).0,
        r.1 as int == spec_line_col(s@, pos as int).1,
{
    let mut line: usize = 1;
    let mut column: usize = 1;
    let mut p: usize = 0;
    while p < pos
        invariant
            p <= pos <= s.len() < usize::MAX,
            line <= p + 1,
            column <= p + 1,
            line as int == spec_line_col(s@, p as int).0,
            column as int == spec_line_col(s@, p as int).1,
        decreases pos - p,
    {
        if s[p] == '\n' {
            line = line + 1;
            column = 1;
        } else {
            column = column + 1;
        }
        p = p + 1;
    }
    (line, column)
}

fn to_error(s: &Vec<char>, e: ReadErr) -> (r: Error)
    requires
        s.len() < usize::MAX,
        e matches ReadErr::At(_, p) ==> p <= s.len(),
    ensures
        r@ == (match e@ {
            ReadError::Eof => ErrorView::Eof,
            ReadError::At(m, p) => ErrorView::Parse(m, spec_line_col(s@, p).0, spec_line_col(s@, p).1),
            ReadError::Custom(m) => ErrorView::Custom(m),
        }),
{
    match e {
        ReadErr::Eof => Error::Eof,
        ReadErr::At(m, p) => {
            let (line, column) = line_col(s, p);
            Error::Parse(ParseError::new(chars_to_string(&m), line, column))
        },
        ReadErr::Custom(m) => Error::Custom(m),
    }
}

} // verus!

verus! {

/// A reader of EDN values from a text, one value after another.
pub struct EdnDeserializer {
    chars: Vec<char>,
    pos: usize,
}

impl EdnDeserializer {
    #[verifier::type_invariant]
    closed spec fn inv(self) -> bool {
        self.pos <= self.chars.len() < usize::MAX
    }

    /// The text being read.
    pub closed spec fn input(self) -> Seq<char> {
        self.chars@
    }

    /// The position, in characters, where the next value is read from.
    pub closed spec fn position(self) -> int {
        self.pos as int
    }

    /// A reader at the start of `input`.
    pub fn from_str(input: &str) -> (r: EdnDeserializer)
        ensures
            r.input() == input@,
            r.position() == 0,
    {
        EdnDeserializer { chars: str_to_chars(input), pos: 0 }
    }

    /// A syntax error with `message` at the current line and column.
    pub fn error(&self, message: &str) -> (r: Error)
        ensures
            r@ == ErrorView::Parse(message@, spec_line_col(self.input(), self.position()).0, spec_line_col(self.input(), self.position()).1),
    {
        proof { use_type_invariant(self); }
        let (line, column) = line_col(&self.chars, self.pos);
        Error::Parse(ParseError::new(crate::chars::string_of(message), line, column))
    }

    /// The next character, which the reader moves past; `None` at the end.
    pub fn next(&mut self) -> (r: Option<char>)
        ensures
            0 <= old(self).position() <= old(self).input().len(),
            0 <= final(self).position() <= final(self).input().len(),
            final(self).input() == old(self).input(),
            old(self).position() < old(self).input().len() ==> r == Some(old(self).input()[old(self).position()])
                && final(self).position() == old(self).position() + 1,
            old(self).position() >= old(self).input().len() ==> r is None && final(self).position() == old(self).position(),
    {
        proof { use_type_invariant(&*self); }
        if self.pos < self.chars.len() {
            let c = self.chars[self.pos];
            self.pos = self.pos + 1;
            Some(c)
        } else {
            None
        }
    }

    /// Moves past whitespace, commas and `;` comments.
    pub fn skip_whitespace(&mut self)
        ensures
            final(self).input() == old(self).input(),
            final(self).position() == spec_skip_ws(old(self).input(), old(self).position()),
    {
        proof { use_type_invariant(&*self); }
        let p = skip_ws(&self.chars, self.pos);
        self.pos = p;
    }

    /// Reads a symbol token: a start character, symbol characters, and
    /// optionally `/` and more symbol characters. On an error the reader
    /// stays where it was.
    pub fn parse_symbol_core(&mut self) -> (r: Result<String, Error>)
        ensures
            final(self).input() == old(self).input(),
            match spec_symbol_text(old(self).input(), old(self).position()) {
                Ok((name, k)) => r matches Ok(x) && x@ == name && final(self).position() == k,
                Err(ReadError::At(m, p)) => r matches Err(e) && e@ == ErrorView::Parse(m, spec_line_col(old(self).input(), p).0, spec_line_col(old(self).input(), p).1)
                    && final(self).position() == old(self).position(),
                Err(_) => false,
            },
    {
        proof {
            use_type_invariant(&*self);
            lemma_symbol_text(self.chars@, self.pos as int);
        }
        match read_symbol_text(&self.chars, self.pos) {
            Ok((name, k)) => {
                self.pos = k;
                Ok(chars_to_string(&name))
            },
            Err(e) => Err(to_error(&self.chars, e)),
        }
    }

    /// Reads the next value, after any whitespace, commas and comments. On
    /// success the reader moves past the value; on an error it stays where
    /// it was.
    pub fn parse_value(&mut self) -> (r: Result<Value, Error>)
        ensures
            final(self).input() == old(self).input(),
            match read_result(old(self).input(), old(self).position()) {
                Ok((v, k)) => r matches Ok(x) && x@ == v && final(self).position() == k,
                Err(e) => r matches Err(x) && x@ == e && final(self).position() == old(self).position(),
            },
    {
        proof { use_type_invariant(&*self); }
        proof { lemma_read_value(self.chars@, self.pos as int); }
        match read_value(&self.chars, self.pos) {
            Ok((v, k)) => {
                self.pos = k;
                Ok(v)
            },
            Err(e) => Err(to_error(&self.chars, e)),
        }
    }
}

/// Reads the first EDN value of a text.
pub fn parse_str(s: &str) -> (r: Result<Value, Error>)
    ensures
        value_result(r) == parse_edn(s@),
{
    let mut de = EdnDeserializer::from_str(s);
    de.parse_value()
}

} // verus!
