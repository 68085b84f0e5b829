//! The EDN reader as a mathematical function on sequences of characters.
//!
//! Each `read_*` function takes the whole input `s` and a position, and gives
//! either what was read with the position after it, or the error at which
//! reading stopped.
use vstd::prelude::*;
use crate::chars::{
    alphabetic, alphanumeric, whitespace, hex_digit_value, is_ascii_digit, is_hex_digit,
    is_scalar_value,
};
use crate::value::EdnValue;
use crate::tags::tag_result;

verus! {

/// Why reading stopped: the input ended where a value was expected, a syntax
/// error with its message at a position, or a failed tag handler.
pub enum ReadError {
    Eof,
    At(Seq<char>, int),
    Custom(Seq<char>),
}

/// The characters other than letters that may start a symbol.
pub open spec fn is_symbol_punct(c: char) -> bool {
    c == '+' || c == '-' || c == '.' || c == '*' || c == '!' || c == '_' || c == '?' || c == '$'
        || c == '%' || c == '&' || c == '=' || c == '<' || c == '>'
}

/// The characters that may start a symbol.
pub open spec fn is_symbol_start(c: char) -> bool {
    alphabetic(c) || is_symbol_punct(c)
}

/// The characters that may follow in a symbol.
pub open spec fn is_symbol_char(c: char) -> bool {
    alphanumeric(c) || is_symbol_punct(c) || c == ':' || c == '#'
}

/// Commas count as whitespace.
pub open spec fn is_blank(c: char) -> bool {
    whitespace(c) || c == ','
}

/// The position after the whitespace, commas and `;` comments at `i`.
pub open spec fn skip_ws(s: Seq<char>, i: int) -> int
    decreases s.len() - i, 0int,
{
    if i < 0 || i >= s.len() {
        i
    } else if is_blank(s[i]) {
        skip_ws(s, i + 1)
    } else if s[i] == ';' {
        skip_comment(s, i + 1)
    } else {
        i
    }
}

/// Inside a comment: up to the next line feed, then on with [`skip_ws`].
pub open spec fn skip_comment(s: Seq<char>, i: int) -> int
    decreases s.len() - i, 1int,
{
    if i < 0 || i >= s.len() {
        i
    } else if s[i] == '\n' {
        skip_ws(s, i)
    } else {
        skip_comment(s, i + 1)
    }
}

/// The first position from `i` on whose character is not in the class `p`.
pub open spec fn run_end(s: Seq<char>, i: int, p: spec_fn(char) -> bool) -> int
    decreases s.len() - i,
{
    if i < 0 || i >= s.len() || !p(s[i]) {
        i
    } else {
        run_end(s, i + 1, p)
    }
}

pub open spec fn symbol_char_class() -> spec_fn(char) -> bool {
    |c: char| is_symbol_char(c)
}

pub open spec fn digit_class() -> spec_fn(char) -> bool {
    |c: char| is_ascii_digit(c)
}

pub open spec fn alphabetic_class() -> spec_fn(char) -> bool {
    |c: char| alphabetic(c)
}

/// A symbol token: a start character, symbol characters, and optionally a
/// `/` followed by more symbol characters.
pub open spec fn read_symbol_text(s: Seq<char>, i: int) -> Result<(Seq<char>, int), ReadError> {
    if i < 0 || i >= s.len() {
        Err(ReadError::At("unexpected end in symbol"@, i))
    } else if !is_symbol_start(s[i]) {
        Err(ReadError::At("invalid symbol start: "@ + seq![s[i]], i))
    } else {
        let j = run_end(s, i + 1, symbol_char_class());
        let k = if j < s.len() && s[j] == '/' {
            run_end(s, j + 1, symbol_char_class())
        } else {
            j
        };
        Ok((s.subrange(i, k), k))
    }
}

/// The value of a sequence of decimal digits.
pub open spec fn digits_value(d: Seq<char>) -> int
    decreases d.len(),
{
    if d.len() == 0 {
        0
    } else {
        digits_value(d.drop_last()) * 10 + (d.last() as int - '0' as int)
    }
}

/// Whether `v` fits in an `i64`.
pub open spec fn in_i64(v: int) -> bool {
    i64::MIN <= v && v <= i64::MAX
}

/// A number at `i`: an optional sign, digits, an optional fraction and an
/// optional exponent. With a fraction digit or an exponent it is a float,
/// kept as its text; otherwise an integer, which may carry an `N` or `M`
/// suffix.
pub open spec fn read_number(s: Seq<char>, i: int) -> Result<(EdnValue, int), ReadError> {
    let a = if 0 <= i < s.len() && (s[i] == '+' || s[i] == '-') {
        i + 1
    } else {
        i
    };
    let b = run_end(s, a, digit_class());
    if b == a {
        Err(ReadError::At("expected digit"@, a))
    } else {
        let dot = b < s.len() && s[b] == '.';
        let c = if dot {
            run_end(s, b + 1, digit_class())
        } else {
            b
        };
        let has_frac = dot && c > b + 1;
        if c < s.len() && (s[c] == 'e' || s[c] == 'E') {
            let d = if c + 1 < s.len() && (s[c + 1] == '+' || s[c + 1] == '-') {
                c + 2
            } else {
                c + 1
            };
            let e = run_end(s, d, digit_class());
            if e == d {
                Err(ReadError::At("expected digits after exponent"@, d))
            } else {
                Ok((EdnValue::Float(s.subrange(i, e)), e))
            }
        } else if has_frac {
            Ok((EdnValue::Float(s.subrange(i, c)), c))
        } else {
            let magnitude = digits_value(s.subrange(a, b));
            let v = if a > i && s[i] == '-' {
                -magnitude
            } else {
                magnitude
            };
            if dot || !in_i64(v) {
                Err(ReadError::At("invalid integer: "@ + s.subrange(i, c), c))
            } else if c < s.len() && (s[c] == 'N' || s[c] == 'M') {
                Ok((EdnValue::Integer(v), c + 1))
            } else {
                Ok((EdnValue::Integer(v), c))
            }
        }
    }
}

/// What a string escape `\e` stands for.
pub open spec fn escape_char(e: char) -> Option<char> {
    if e == 't' {
        Some('\t')
    } else if e == 'r' {
        Some('\r')
    } else if e == 'n' {
        Some('\n')
    } else if e == '\\' {
        Some('\\')
    } else if e == '"' {
        Some('"')
    } else {
        None
    }
}

/// The rest of a string literal from `p`, `acc` holding what was read so far.
pub open spec fn read_string(s: Seq<char>, p: int, acc: Seq<char>) -> Result<(EdnValue, int), ReadError>
    decreases s.len() - p,
{
    if p < 0 || p >= s.len() {
        Err(ReadError::At("unterminated string"@, p))
    } else if s[p] == '"' {
        Ok((EdnValue::Str(acc), p + 1))
    } else if s[p] == '\\' {
        if p + 1 >= s.len() {
            Err(ReadError::At("unexpected end in string escape"@, p + 1))
        } else {
            match escape_char(s[p + 1]) {
                Some(x) => read_string(s, p + 2, acc.push(x)),
                None => Err(ReadError::At("invalid escape: \\"@ + seq![s[p + 1]], p + 1)),
            }
        }
    } else {
        read_string(s, p + 1, acc.push(s[p]))
    }
}

/// The hex digits of a `\uXXXX` escape from `k + t` on, `acc` holding the
/// value of the first `t`.
pub open spec fn read_hex4(s: Seq<char>, k: int, t: int, acc: int) -> Result<(EdnValue, int), ReadError>
    decreases 4 - t,
{
    if t >= 4 {
        if is_scalar_value(acc) {
            Ok((EdnValue::Char((acc as u32) as char), k + 4))
        } else {
            Err(ReadError::At("invalid unicode codepoint"@, k + 4))
        }
    } else if k + t >= s.len() {
        Err(ReadError::At("unexpected end in unicode escape"@, k + t))
    } else if !is_hex_digit(s[k + t]) {
        Err(ReadError::At("expected 4 hex digits after \\u"@, k + t))
    } else {
        read_hex4(s, k, t + 1, acc * 16 + hex_digit_value(s[k + t]))
    }
}

/// Whether a `\\u` escape with four hex digits starts at `j`.
pub open spec fn unicode_escape_at(s: Seq<char>, j: int) -> bool {
    &&& 0 <= j
    &&& j + 4 < s.len()
    &&& s[j] == 'u'
    &&& is_hex_digit(s[j + 1]) && is_hex_digit(s[j + 2]) && is_hex_digit(s[j + 3]) && is_hex_digit(s[j + 4])
}

/// A character literal whose backslash is just before `j`: `u` with four
/// hex digits, a name made of letters (`newline`, `return`, `space`, `tab`,
/// or a single letter), or any one other character.
pub open spec fn read_char(s: Seq<char>, j: int) -> Result<(EdnValue, int), ReadError> {
    if j < 0 || j >= s.len() {
        Err(ReadError::At("unexpected end after '\\'"@, j))
    } else if unicode_escape_at(s, j) {
        read_hex4(s, j + 1, 0, 0)
    } else if alphabetic(s[j]) {
        let k = run_end(s, j, alphabetic_class());
        let name = s.subrange(j, k);
        if name == "newline"@ {
            Ok((EdnValue::Char('\n'), k))
        } else if name == "return"@ {
            Ok((EdnValue::Char('\r'), k))
        } else if name == "space"@ {
            Ok((EdnValue::Char(' '), k))
        } else if name == "tab"@ {
            Ok((EdnValue::Char('\t'), k))
        } else if name == "u"@ {
            read_hex4(s, k, 0, 0)
        } else if name.len() == 1 {
            Ok((EdnValue::Char(s[j]), k))
        } else {
            Err(ReadError::At("invalid character literal: \\"@ + name, k))
        }
    } else {
        Ok((EdnValue::Char(s[j]), j + 1))
    }
}

/// What a symbol token reads as: `nil`, `true` and `false` are constants.
pub open spec fn symbol_value(name: Seq<char>) -> EdnValue {
    if name == "nil"@ {
        EdnValue::Nil
    } else if name == "true"@ {
        EdnValue::Bool(true)
    } else if name == "false"@ {
        EdnValue::Bool(false)
    } else {
        EdnValue::Symbol(name)
    }
}

/// The position of the first entry of `m` whose key is `k`, if any.
pub open spec fn key_index(m: Seq<(EdnValue, EdnValue)>, k: EdnValue) -> Option<int>
    decreases m.len(),
{
    if m.len() == 0 {
        None
    } else if m.last().0 == k {
        match key_index(m.drop_last(), k) {
            Some(i) => Some(i),
            None => Some(m.len() - 1),
        }
    } else {
        key_index(m.drop_last(), k)
    }
}

/// Adds an entry to a map: an existing key keeps its place and gets the new
/// value, a new key goes last.
pub open spec fn map_insert(m: Seq<(EdnValue, EdnValue)>, k: EdnValue, v: EdnValue) -> Seq<(EdnValue, EdnValue)> {
    match key_index(m, k) {
        Some(i) => m.update(i, (m[i].0, v)),
        None => m.push((k, v)),
    }
}

/// A value at `i`, after any whitespace and comments. `#_` discards the
/// value after it and reading goes on with the next one.
pub open spec fn read_value(s: Seq<char>, i: int) -> Result<(EdnValue, int), ReadError>
    decreases s.len() - i, 0int,
{
    let q = skip_ws(s, i);
    if i < 0 || q < i || q > s.len() {
        Err(ReadError::Eof)
    } else if q == s.len() {
        Err(ReadError::Eof)
    } else {
        let c = s[q];
        if c == '(' {
            match read_seq(s, q + 1, ')', seq![]) {
                Ok((items, k)) => Ok((EdnValue::List(items), k)),
                Err(e) => Err(e),
            }
        } else if c == '[' {
            match read_seq(s, q + 1, ']', seq![]) {
                Ok((items, k)) => Ok((EdnValue::Vector(items), k)),
                Err(e) => Err(e),
            }
        } else if c == '{' {
            read_map_or_set(s, q + 1)
        } else if c == '#' {
            read_dispatch(s, q + 1)
        } else if c == ':' {
            match read_symbol_text(s, q + 1) {
                Ok((name, k)) => Ok((EdnValue::Keyword(seq![':'] + name), k)),
                Err(e) => Err(e),
            }
        } else if c == '"' {
            read_string(s, q + 1, seq![])
        } else if c == '\\' {
            read_char(s, q + 1)
        } else if c == '-' || c == '+' || is_ascii_digit(c) {
            read_number(s, q)
        } else if is_symbol_start(c) {
            match read_symbol_text(s, q) {
                Ok((name, k)) => Ok((symbol_value(name), k)),
                Err(e) => Err(e),
            }
        } else {
            Err(ReadError::At("unexpected character: "@ + seq![c], q))
        }
    }
}

/// The items of a list, vector or set from `p` up to the closing `close`,
/// `acc` holding the items read so far.
pub open spec fn read_seq(s: Seq<char>, p: int, close: char, acc: Seq<EdnValue>) -> Result<(Seq<EdnValue>, int), ReadError>
    decreases s.len() - p, 1int,
{
    let q = skip_ws(s, p);
    if p < 0 || q < p || q > s.len() {
        Err(ReadError::Eof)
    } else if q < s.len() && s[q] == close {
        Ok((acc, q + 1))
    } else {
        match read_value(s, q) {
            Ok((v, m)) => if p < m && m <= s.len() {
                read_seq(s, m, close, acc.push(v))
            } else {
                Err(ReadError::Eof)
            },
            Err(e) => Err(e),
        }
    }
}

/// The entries of a map from `p` up to the closing `}`.
pub open spec fn read_map(s: Seq<char>, p: int, acc: Seq<(EdnValue, EdnValue)>) -> Result<(Seq<(EdnValue, EdnValue)>, int), ReadError>
    decreases s.len() - p, 1int,
{
    let q = skip_ws(s, p);
    if p < 0 || q < p || q > s.len() {
        Err(ReadError::Eof)
    } else if q < s.len() && s[q] == '}' {
        Ok((acc, q + 1))
    } else {
        match read_value(s, q) {
            Ok((k, a)) => {
                let b = skip_ws(s, a);
                if p < a && a <= b && b <= s.len() {
                    match read_value(s, b) {
                        Ok((v, m)) => if b < m && m <= s.len() {
                            read_map(s, m, map_insert(acc, k, v))
                        } else {
                            Err(ReadError::Eof)
                        },
                        Err(e) => Err(e),
                    }
                } else {
                    Err(ReadError::Eof)
                }
            },
            Err(e) => Err(e),
        }
    }
}

/// After a `{`: the entries of a map.
pub open spec fn read_map_or_set(s: Seq<char>, p: int) -> Result<(EdnValue, int), ReadError>
    decreases s.len() - p, 2int,
{
    match read_map(s, p, seq![]) {
        Ok((entries, k)) => Ok((EdnValue::MapVal(entries), k)),
        Err(e) => Err(e),
    }
}

/// The float literals written after `##`.
pub open spec fn is_special_float(name: Seq<char>) -> bool {
    name == "NaN"@ || name == "Inf"@ || name == "-Inf"@
}

/// After a `#` that is just before `j`: a discard `#_`, a set `#{`, a special
/// float `##NaN`, `##Inf`, `##-Inf`, or a tagged value `#tag value`.
pub open spec fn read_dispatch(s: Seq<char>, j: int) -> Result<(EdnValue, int), ReadError>
    decreases s.len() - j, 2int,
{
    if j < 0 || j >= s.len() {
        Err(ReadError::At("unexpected end after '#'"@, j))
    } else if s[j] == '_' {
        let k = skip_ws(s, j + 1);
        if j < k && k <= s.len() {
            match read_value(s, k) {
                Ok((_, m)) => if k < m && m <= s.len() {
                    read_value(s, m)
                } else {
                    Err(ReadError::Eof)
                },
                Err(e) => Err(e),
            }
        } else {
            Err(ReadError::Eof)
        }
    } else if s[j] == '{' {
        match read_seq(s, j + 1, '}', seq![]) {
            Ok((items, k)) => Ok((EdnValue::SetVal(items), k)),
            Err(e) => Err(e),
        }
    } else if s[j] == '#' {
        match read_symbol_text(s, j + 1) {
            Ok((name, k)) => if is_special_float(name) {
                Ok((EdnValue::Float(seq!['#', '#'] + name), k))
            } else {
                Err(ReadError::At("unsupported dispatch"@, j))
            },
            Err(_) => Err(ReadError::At("unsupported dispatch"@, j)),
        }
    } else if alphabetic(s[j]) {
        match read_symbol_text(s, j) {
            Ok((tag, k)) => {
                let k2 = skip_ws(s, k);
                if j < k && k <= k2 && k2 <= s.len() {
                    match read_value(s, k2) {
                        Ok((v, m)) => match tag_result(tag, v) {
                            Ok(r) => Ok((r, m)),
                            Err(msg) => Err(ReadError::Custom(msg)),
                        },
                        Err(e) => Err(e),
                    }
                } else {
                    Err(ReadError::Eof)
                }
            },
            Err(e) => Err(e),
        }
    } else {
        Err(ReadError::At("unsupported dispatch"@, j))
    }
}

/// The line and column of position `pos`, both counted from 1: a line feed
/// starts a new line, any other character moves one column on.
pub open spec fn line_col(s: Seq<char>, pos: int) -> (int, int)
    decreases pos,
{
    if pos <= 0 {
        (1, 1)
    } else {
        let (l, c) = line_col(s, pos - 1);
        if s[pos - 1] == '\n' {
            (l + 1, 1)
        } else {
            (l, c + 1)
        }
    }
}

} // verus!

verus! {

/// A result that ends after `lo` and within the input, or an error placed
/// within the input.
pub open spec fn within<T>(r: Result<(T, int), ReadError>, lo: int, len: int) -> bool {
    match r {
        Ok((_, m)) => lo < m <= len,
        Err(ReadError::At(_, p)) => 0 <= p <= len,
        Err(_) => true,
    }
}

/// Skipping whitespace and comments stays within the text.
pub proof fn lemma_skip_ws(s: Seq<char>, i: int)
    requires
        0 <= i <= s.len(),
    ensures
        i <= skip_ws(s, i) <= s.len(),
        i <= skip_comment(s, i) <= s.len(),
    decreases s.len() - i,
{
    if i < s.len() {
        lemma_skip_ws(s, i + 1);
    }
}

/// A run stays within the text, holds only characters of its class, and
/// stops before one that is not.
pub proof fn lemma_run_end(s: Seq<char>, i: int, p: spec_fn(char) -> bool)
    requires
        0 <= i <= s.len(),
    ensures
        i <= run_end(s, i, p) <= s.len(),
        forall|j: int| i <= j < run_end(s, i, p) ==> p(#[trigger] s[j]),
        run_end(s, i, p) < s.len() ==> !p(s[run_end(s, i, p)]),
    decreases s.len() - i,
{
    if i < s.len() && p(s[i]) {
        lemma_run_end(s, i + 1, p);
    }
}

/// A symbol read at `i` is the text from `i` to where reading stops.
pub proof fn lemma_symbol_text(s: Seq<char>, i: int)
    requires
        0 <= i <= s.len(),
    ensures
        read_symbol_text(s, i) matches Ok((name, k)) ==> i < k <= s.len() && name == s.subrange(i, k),
        within(read_symbol_text(s, i), i, s.len() as int),
{
    if i < s.len() && is_symbol_start(s[i]) {
        lemma_run_end(s, i + 1, symbol_char_class());
        let j = run_end(s, i + 1, symbol_char_class());
        if j < s.len() && s[j] == '/' {
            lemma_run_end(s, j + 1, symbol_char_class());
        }
    }
}

/// Reading a number stops after `i` and within the text.
pub proof fn lemma_number(s: Seq<char>, i: int)
    requires
        0 <= i < s.len(),
    ensures
        within(read_number(s, i), i, s.len() as int),
{
    let a = if s[i] == '+' || s[i] == '-' { i + 1 } else { i };
    lemma_run_end(s, a, digit_class());
    let b = run_end(s, a, digit_class());
    if b < s.len() && s[b] == '.' {
        lemma_run_end(s, b + 1, digit_class());
    }
    let c = if b < s.len() && s[b] == '.' { run_end(s, b + 1, digit_class()) } else { b };
    if c + 1 <= s.len() {
        lemma_run_end(s, c + 1, digit_class());
    }
    if c + 2 <= s.len() {
        lemma_run_end(s, c + 2, digit_class());
    }
}

/// Reading a string stops after `p` and within the text.
pub proof fn lemma_string(s: Seq<char>, p: int, acc: Seq<char>)
    requires
        0 <= p <= s.len(),
    ensures
        within(read_string(s, p, acc), p, s.len() as int),
    decreases s.len() - p,
{
    if p < s.len() {
        if s[p] == '\\' {
            if p + 1 < s.len() {
                if let Some(x) = escape_char(s[p + 1]) {
                    if p + 2 <= s.len() {
                        lemma_string(s, p + 2, acc.push(x));
                    }
                }
            }
        } else if s[p] != '"' {
            lemma_string(s, p + 1, acc.push(s[p]));
        }
    }
}

/// A `\uXXXX` escape ends four characters after `k`.
pub proof fn lemma_hex4(s: Seq<char>, k: int, t: int, acc: int)
    requires
        0 <= k,
        0 <= t <= 4,
        k + t <= s.len(),
    ensures
        read_hex4(s, k, t, acc) matches Ok((_, m)) ==> m == k + 4 && m <= s.len(),
        within(read_hex4(s, k, t, acc), k, s.len() as int),
    decreases 4 - t,
{
    if t < 4 && k + t < s.len() && is_hex_digit(s[k + t]) {
        lemma_hex4(s, k, t + 1, acc * 16 + hex_digit_value(s[k + t]));
    }
}

/// Reading a character literal stops after `j` and within the text.
pub proof fn lemma_char(s: Seq<char>, j: int)
    requires
        0 <= j <= s.len(),
    ensures
        within(read_char(s, j), j, s.len() as int),
{
    if unicode_escape_at(s, j) {
        lemma_hex4(s, j + 1, 0, 0);
    } else if j < s.len() && alphabetic(s[j]) {
        lemma_run_end(s, j, alphabetic_class());
        let k = run_end(s, j, alphabetic_class());
        lemma_hex4(s, k, 0, 0);
    }
}

/// Reading a value stops after `i` and within the text, and an error is
/// placed within the text.
pub proof fn lemma_read_value(s: Seq<char>, i: int)
    requires
        0 <= i <= s.len(),
    ensures
        within(read_value(s, i), i, s.len() as int),
    decreases s.len() - i, 0int,
{
    lemma_skip_ws(s, i);
    let q = skip_ws(s, i);
    if q < s.len() {
        let c = s[q];
        if c == '(' {
            lemma_read_seq(s, q + 1, ')', seq![]);
        } else if c == '[' {
            lemma_read_seq(s, q + 1, ']', seq![]);
        } else if c == '{' {
            lemma_read_map_or_set(s, q + 1);
        } else if c == '#' {
            lemma_read_dispatch(s, q + 1);
        } else if c == ':' {
            lemma_symbol_text(s, q + 1);
        } else if c == '"' {
            lemma_string(s, q + 1, seq![]);
        } else if c == '\\' {
            lemma_char(s, q + 1);
        } else if c == '-' || c == '+' || is_ascii_digit(c) {
            lemma_number(s, q);
        } else {
            lemma_symbol_text(s, q);
        }
    }
}

/// Reading the items of a collection stops after `p` and within the text.
pub proof fn lemma_read_seq(s: Seq<char>, p: int, close: char, acc: Seq<EdnValue>)
    requires
        0 <= p <= s.len(),
    ensures
        within(read_seq(s, p, close, acc), p, s.len() as int),
    decreases s.len() - p, 1int,
{
    lemma_skip_ws(s, p);
    let q = skip_ws(s, p);
    if !(q < s.len() && s[q] == close) {
        lemma_read_value(s, q);
        if let Ok((v, m)) = read_value(s, q) {
            if p < m && m <= s.len() {
                lemma_read_seq(s, m, close, acc.push(v));
            }
        }
    }
}

/// Reading the entries of a map stops after `p` and within the text.
pub proof fn lemma_read_map(s: Seq<char>, p: int, acc: Seq<(EdnValue, EdnValue)>)
    requires
        0 <= p <= s.len(),
    ensures
        within(read_map(s, p, acc), p, s.len() as int),
    decreases s.len() - p, 1int,
{
    lemma_skip_ws(s, p);
    let q = skip_ws(s, p);
    if !(q < s.len() && s[q] == '}') {
        lemma_read_value(s, q);
        if let Ok((k, a)) = read_value(s, q) {
            lemma_skip_ws(s, a);
            let b = skip_ws(s, a);
            lemma_read_value(s, b);
            if let Ok((v, m)) = read_value(s, b) {
                if b < m && m <= s.len() {
                    lemma_read_map(s, m, map_insert(acc, k, v));
                }
            }
        }
    }
}

/// Reading after a `{` stops after `p` and within the text.
pub proof fn lemma_read_map_or_set(s: Seq<char>, p: int)
    requires
        0 <= p <= s.len(),
    ensures
        within(read_map_or_set(s, p), p, s.len() as int),
    decreases s.len() - p, 2int,
{
    lemma_read_map(s, p, seq![]);
}

/// Reading after a `#` stops after `j` and within the text.
pub proof fn lemma_read_dispatch(s: Seq<char>, j: int)
    requires
        0 <= j <= s.len(),
    ensures
        within(read_dispatch(s, j), j, s.len() as int),
    decreases s.len() - j, 2int,
{
    if j < s.len() {
        if s[j] == '_' {
            lemma_skip_ws(s, j + 1);
            let k = skip_ws(s, j + 1);
            lemma_read_value(s, k);
            if let Ok((_, m)) = read_value(s, k) {
                if k < m && m <= s.len() {
                    lemma_read_value(s, m);
                }
            }
        } else if s[j] == '{' {
            lemma_read_seq(s, j + 1, '}', seq![]);
        } else if s[j] == '#' {
            lemma_symbol_text(s, j + 1);
        } else if alphabetic(s[j]) {
            lemma_symbol_text(s, j);
            if let Ok((tag, k)) = read_symbol_text(s, j) {
                lemma_skip_ws(s, k);
                let k2 = skip_ws(s, k);
                lemma_read_value(s, k2);
            }
        }
    }
}

} // verus!

verus! {

/// Each key of `m` occurs once.
pub open spec fn keys_distinct(m: Seq<(EdnValue, EdnValue)>) -> bool {
    forall|a: int, b: int| 0 <= a < b < m.len() ==> m[a].0 != m[b].0
}

/// Every map in `v`, at any depth, holds each key once.
pub open spec fn maps_distinct(v: EdnValue) -> bool
    decreases v,
{
    match v {
        EdnValue::List(items) => forall|k: int| 0 <= k < items.len() ==> maps_distinct(#[trigger] items[k]),
        EdnValue::Vector(items) => forall|k: int| 0 <= k < items.len() ==> maps_distinct(#[trigger] items[k]),
        EdnValue::SetVal(items) => forall|k: int| 0 <= k < items.len() ==> maps_distinct(#[trigger] items[k]),
        EdnValue::MapVal(m) => {
            &&& keys_distinct(m)
            &&& forall|k: int| 0 <= k < m.len() ==> maps_distinct(#[trigger] m[k].0) && maps_distinct(m[k].1)
        },
        EdnValue::Tagged(_, inner) => maps_distinct(*inner),
        _ => true,
    }
}

/// Every map in the items holds each key once.
pub open spec fn all_maps_distinct(items: Seq<EdnValue>) -> bool {
    forall|k: int| 0 <= k < items.len() ==> maps_distinct(#[trigger] items[k])
}

/// The keys of `m` occur once, and every map in its keys and values holds
/// each key once.
pub open spec fn entries_maps_distinct(m: Seq<(EdnValue, EdnValue)>) -> bool {
    &&& keys_distinct(m)
    &&& forall|k: int| 0 <= k < m.len() ==> maps_distinct(#[trigger] m[k].0) && maps_distinct(m[k].1)
}

/// Where `key_index` finds a key, and that it finds none when the key is
/// absent.
pub proof fn lemma_key_index_spec(m: Seq<(EdnValue, EdnValue)>, k: EdnValue)
    ensures
        match key_index(m, k) {
            Some(j) => 0 <= j < m.len() && m[j].0 == k,
            None => forall|i: int| 0 <= i < m.len() ==> m[i].0 != k,
        },
    decreases m.len(),
{
    if m.len() > 0 {
        lemma_key_index_spec(m.drop_last(), k);
        assert(forall|i: int| 0 <= i < m.len() - 1 ==> m.drop_last()[i] == m[i]);
    }
}

/// Adding an entry to a map keeps each key once.
pub proof fn lemma_map_insert_distinct(m: Seq<(EdnValue, EdnValue)>, k: EdnValue, v: EdnValue)
    requires
        entries_maps_distinct(m),
        maps_distinct(k),
        maps_distinct(v),
    ensures
        entries_maps_distinct(map_insert(m, k, v)),
{
    lemma_key_index_spec(m, k);
    let r = map_insert(m, k, v);
    match key_index(m, k) {
        Some(j) => {
            assert forall|a: int, b: int| 0 <= a < b < r.len() implies r[a].0 != r[b].0 by {
                assert(r[a].0 == m[a].0 && r[b].0 == m[b].0);
            }
            assert forall|i: int| 0 <= i < r.len() implies maps_distinct(#[trigger] r[i].0) && maps_distinct(r[i].1) by {
                if i != j {
                    assert(r[i] == m[i]);
                }
            }
        },
        None => {
            assert forall|a: int, b: int| 0 <= a < b < r.len() implies r[a].0 != r[b].0 by {
                if b == m.len() {
                    assert(r[a] == m[a]);
                } else {
                    assert(r[a] == m[a] && r[b] == m[b]);
                }
            }
            assert forall|i: int| 0 <= i < r.len() implies maps_distinct(#[trigger] r[i].0) && maps_distinct(r[i].1) by {
                if i < m.len() {
                    assert(r[i] == m[i]);
                }
            }
        },
    }
}

/// What a tag handler gives keeps each key of a map once.
proof fn lemma_tag_result_distinct(tag: Seq<char>, v: EdnValue)
    requires
        maps_distinct(v),
    ensures
        tag_result(tag, v) matches Ok(r) ==> maps_distinct(r),
{
    if let Ok(r) = tag_result(tag, v) {
        if let EdnValue::Tagged(_, inner) = r {
            if let EdnValue::Integer(_) = *inner {
                assert(maps_distinct(*inner));
            }
        }
    }
}

/// A string literal reads as a string.
pub proof fn lemma_string_scalar(s: Seq<char>, p: int, acc: Seq<char>)
    ensures
        read_string(s, p, acc) matches Ok((v, _)) ==> v is Str,
    decreases s.len() - p,
{
    if 0 <= p < s.len() && s[p] != '"' {
        if s[p] == '\\' {
            if p + 1 < s.len() {
                if let Some(x) = escape_char(s[p + 1]) {
                    lemma_string_scalar(s, p + 2, acc.push(x));
                }
            }
        } else {
            lemma_string_scalar(s, p + 1, acc.push(s[p]));
        }
    }
}

/// A `\uXXXX` escape reads as a character.
pub proof fn lemma_hex4_scalar(s: Seq<char>, k: int, t: int, acc: int)
    ensures
        read_hex4(s, k, t, acc) matches Ok((v, _)) ==> v is Char,
    decreases 4 - t,
{
    if t < 4 && k + t < s.len() && is_hex_digit(s[k + t]) {
        lemma_hex4_scalar(s, k, t + 1, acc * 16 + hex_digit_value(s[k + t]));
    }
}

/// The maps that reading builds hold each key once.
pub proof fn lemma_read_value_distinct(s: Seq<char>, i: int)
    requires
        0 <= i <= s.len(),
    ensures
        read_value(s, i) matches Ok((v, _)) ==> maps_distinct(v),
    decreases s.len() - i, 0int,
{
    lemma_skip_ws(s, i);
    let q = skip_ws(s, i);
    if q < s.len() {
        let c = s[q];
        if c == '(' {
            lemma_read_seq_distinct(s, q + 1, ')', seq![]);
        } else if c == '[' {
            lemma_read_seq_distinct(s, q + 1, ']', seq![]);
        } else if c == '{' {
            lemma_read_map_or_set_distinct(s, q + 1);
        } else if c == '#' {
            lemma_read_dispatch_distinct(s, q + 1);
        } else if c == '"' {
            lemma_string_scalar(s, q + 1, seq![]);
        } else if c == '\\' {
            if unicode_escape_at(s, q + 1) {
                lemma_hex4_scalar(s, q + 2, 0, 0);
            } else if q + 1 < s.len() && alphabetic(s[q + 1]) {
                let k = run_end(s, q + 1, alphabetic_class());
                lemma_hex4_scalar(s, k, 0, 0);
            }
        }
    }
}

/// The items read into a collection keep each key of their maps once.
pub proof fn lemma_read_seq_distinct(s: Seq<char>, p: int, close: char, acc: Seq<EdnValue>)
    requires
        0 <= p <= s.len(),
        all_maps_distinct(acc),
    ensures
        read_seq(s, p, close, acc) matches Ok((items, _)) ==> all_maps_distinct(items),
    decreases s.len() - p, 1int,
{
    lemma_skip_ws(s, p);
    let q = skip_ws(s, p);
    if !(q < s.len() && s[q] == close) {
        lemma_read_value(s, q);
        lemma_read_value_distinct(s, q);
        if let Ok((v, m)) = read_value(s, q) {
            if p < m && m <= s.len() {
                let acc2 = acc.push(v);
                assert forall|k: int| 0 <= k < acc2.len() implies maps_distinct(#[trigger] acc2[k]) by {
                    if k < acc.len() {
                        assert(acc2[k] == acc[k]);
                    }
                }
                lemma_read_seq_distinct(s, m, close, acc2);
            }
        }
    }
}

/// The entries read into a map keep each key once.
pub proof fn lemma_read_map_distinct(s: Seq<char>, p: int, acc: Seq<(EdnValue, EdnValue)>)
    requires
        0 <= p <= s.len(),
        entries_maps_distinct(acc),
    ensures
        read_map(s, p, acc) matches Ok((m, _)) ==> entries_maps_distinct(m),
    decreases s.len() - p, 1int,
{
    lemma_skip_ws(s, p);
    let q = skip_ws(s, p);
    if !(q < s.len() && s[q] == '}') {
        lemma_read_value(s, q);
        lemma_read_value_distinct(s, q);
        if let Ok((k, a)) = read_value(s, q) {
            lemma_skip_ws(s, a);
            let b = skip_ws(s, a);
            lemma_read_value(s, b);
            lemma_read_value_distinct(s, b);
            if let Ok((v, m)) = read_value(s, b) {
                if b < m && m <= s.len() {
                    lemma_map_insert_distinct(acc, k, v);
                    lemma_read_map_distinct(s, m, map_insert(acc, k, v));
                }
            }
        }
    }
}

/// A map or set read after `{` keeps each key of its maps once.
pub proof fn lemma_read_map_or_set_distinct(s: Seq<char>, p: int)
    requires
        0 <= p <= s.len(),
    ensures
        read_map_or_set(s, p) matches Ok((v, _)) ==> maps_distinct(v),
    decreases s.len() - p, 2int,
{
    lemma_read_map_distinct(s, p, seq![]);
}

/// What is read after `#` keeps each key of its maps once.
pub proof fn lemma_read_dispatch_distinct(s: Seq<char>, j: int)
    requires
        0 <= j <= s.len(),
    ensures
        read_dispatch(s, j) matches Ok((v, _)) ==> maps_distinct(v),
    decreases s.len() - j, 2int,
{
    if j < s.len() {
        if s[j] == '_' {
            lemma_skip_ws(s, j + 1);
            let k = skip_ws(s, j + 1);
            lemma_read_value(s, k);
            if let Ok((_, m)) = read_value(s, k) {
                if k < m && m <= s.len() {
                    lemma_read_value_distinct(s, m);
                }
            }
        } else if s[j] == '{' {
            lemma_read_seq_distinct(s, j + 1, '}', seq![]);
        } else if alphabetic(s[j]) {
            lemma_symbol_text(s, j);
            if let Ok((tag, k)) = read_symbol_text(s, j) {
                lemma_skip_ws(s, k);
                let k2 = skip_ws(s, k);
                lemma_read_value(s, k2);
                lemma_read_value_distinct(s, k2);
                if let Ok((v, m)) = read_value(s, k2) {
                    lemma_tag_result_distinct(tag, v);
                }
            }
        }
    }
}

} // verus!
