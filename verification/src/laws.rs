//! What reading and writing do, stated over explicit texts and values.
use vstd::prelude::*;
use crate::grammar::{
    digits_value, ReadError, run_end, read_symbol_text, read_number, read_value, digit_class, symbol_char_class,
    skip_ws, is_symbol_char, is_symbol_start, is_blank,
};
use crate::chars::is_ascii_digit;
use crate::value::EdnValue;
use crate::types::ErrorView;
use crate::de::parse_edn;
use crate::ser::{write_value, float_text, int_text};
use crate::tags::{inst_text, rfc3339_text};
use crate::edn_types::{FromEdn, ToEdn};
use crate::roundtrip::{lemma_round_trip, lemma_run_end_shift, lemma_nat_text};

verus! {

/// An ASCII letter.
pub open spec fn letter(c: char) -> bool {
    ('a' <= c && c <= 'z') || ('A' <= c && c <= 'Z')
}

/// The characters that may start a symbol name other than a sign, which
/// starts a number: ASCII letters and `. * ! _ ? $ % & = < >`.
pub open spec fn name_start(c: char) -> bool {
    letter(c) || c == '.' || c == '*' || c == '!' || c == '_' || c == '?' || c == '$' || c == '%'
        || c == '&' || c == '=' || c == '<' || c == '>'
}

/// The characters that may follow in a symbol name: ASCII letters and
/// digits, and `+ - . * ! _ ? $ % & = < > : #`.
pub open spec fn name_char(c: char) -> bool {
    letter(c) || ('0' <= c && c <= '9') || c == '+' || c == '-' || c == '.' || c == '*' || c == '!'
        || c == '_' || c == '?' || c == '$' || c == '%' || c == '&' || c == '=' || c == '<' || c == '>'
        || c == ':' || c == '#'
}

/// A symbol name: a start character, then name characters with at most one
/// `/` among them.
pub open spec fn symbol_name(t: Seq<char>) -> bool {
    &&& t.len() > 0
    &&& name_start(t[0])
    &&& forall|i: int| 1 <= i < t.len() ==> name_char(#[trigger] t[i]) || t[i] == '/'
    &&& forall|i: int, j: int| 0 <= i < j < t.len() ==> !(#[trigger] t[i] == '/' && #[trigger] t[j] == '/')
}

proof fn lemma_run_to(s: Seq<char>, i: int, k: int, p: spec_fn(char) -> bool)
    requires
        0 <= i <= k <= s.len(),
        forall|j: int| i <= j < k ==> p(#[trigger] s[j]),
        k == s.len() || !p(s[k]),
    ensures
        run_end(s, i, p) == k,
    decreases k - i,
{
    if i < k {
        lemma_run_to(s, i + 1, k, p);
    }
}

/// Reading a symbol name takes the whole name: every name made of a start
/// character and name characters, with at most one `/`, other than `nil`,
/// `true` and `false`, reads as the symbol of exactly that name.
pub proof fn lemma_symbol_name_reads(t: Seq<char>)
    requires
        symbol_name(t),
        t != "nil"@,
        t != "true"@,
        t != "false"@,
    ensures
        parse_edn(t) == Ok::<EdnValue, ErrorView>(EdnValue::Symbol(t)),
{
    let n = t.len() as int;
    let sym = symbol_char_class();
    let c = t[0];
    assert(!is_blank(c) && c != ';');
    assert(skip_ws(t, 0) == 0);
    assert(is_symbol_start(c));
    assert(c != '(' && c != '[' && c != '{' && c != '#' && c != ':' && c != '"' && c != '\\');
    assert(c != '-' && c != '+' && !is_ascii_digit(c));
    let k0 = if exists|i: int| 1 <= i < n && t[i] == '/' {
        choose|i: int| 1 <= i < n && t[i] == '/'
    } else {
        n
    };
    assert forall|j: int| 1 <= j < k0 implies sym(#[trigger] t[j]) by {
        if t[j] == '/' {
            assert(t[k0] == '/');
            if j < k0 {
                assert(!(t[j] == '/' && t[k0] == '/'));
            }
        }
        assert(name_char(t[j]));
        assert(is_symbol_char(t[j]));
    }
    if k0 < n {
        assert(!is_symbol_char('/'));
    }
    lemma_run_to(t, 1, k0, sym);
    if k0 < n {
        assert forall|j: int| k0 + 1 <= j < n implies sym(#[trigger] t[j]) by {
            assert(!(t[k0] == '/' && t[j] == '/'));
            assert(name_char(t[j]));
            assert(is_symbol_char(t[j]));
        }
        lemma_run_to(t, k0 + 1, n, sym);
    }
    assert(t.subrange(0, n) =~= t);
    assert(read_symbol_text(t, 0) == Ok::<(Seq<char>, int), ReadError>((t, n)));
    assert(read_value(t, 0) == Ok::<(EdnValue, int), ReadError>((EdnValue::Symbol(t), n)));
}

/// A float's shortest decimal text, written as a float: every number text
/// that ends in a digit is written so that it reads back whole as a float
/// literal that starts with the text itself.
pub proof fn lemma_float_text_reads(t: Seq<char>)
    requires
        t.len() > 0,
        is_ascii_digit(t.last()),
        read_number(t, 0) matches Ok((_, m)) && m == t.len(),
    ensures
        float_text(t).subrange(0, t.len() as int) == t,
        float_text(t).len() <= t.len() + 2,
        read_number(float_text(t), 0)
            == Ok::<(EdnValue, int), ReadError>((EdnValue::Float(float_text(t)), float_text(t).len() as int)),
{
    reveal_strlit(".0");
    let n = t.len() as int;
    let dg = digit_class();
    let a: int = if t[0] == '+' || t[0] == '-' { 1 } else { 0 };
    crate::grammar::lemma_run_end(t, a, dg);
    let b = run_end(t, a, dg);
    let dot = b < n && t[b] == '.';
    if dot {
        crate::grammar::lemma_run_end(t, b + 1, dg);
    }
    let c = if dot { run_end(t, b + 1, dg) } else { b };
    if c < n && (t[c] == 'e' || t[c] == 'E') {
        assert(t.contains(t[c]));
        assert(float_text(t) == t);
        assert(t.subrange(0, n) =~= t);
    } else if dot && c > b + 1 {
        assert(t.contains(t[b]));
        assert(float_text(t) == t);
        assert(t.subrange(0, n) =~= t);
    } else {
        assert(!dot);
        assert(c == n);
        assert forall|i: int| 0 <= i < n implies t[i] != '.' && t[i] != 'e' && t[i] != 'E' by {
            if i >= a {
                assert(dg(t[i]));
            }
        }
        assert(!t.contains('.') && !t.contains('e') && !t.contains('E'));
        let u = t + ".0"@;
        assert(float_text(t) == u);
        assert(u.subrange(0, n) =~= t);
        assert(u[n] == '.' && u[n + 1] == '0');
        assert(u[0] == t[0]);
        lemma_run_end_shift(u, t, 0, a, dg);
        assert(run_end(u, n + 2, dg) == n + 2);
        assert(run_end(u, n + 1, dg) == n + 2);
        assert(u.subrange(0, n + 2) =~= u);
    }
}

/// The `#inst` text of a count of milliseconds is the date library's text
/// for it whenever the library has one; only counts outside its range get
/// the epoch.
pub proof fn lemma_inst_text_from_library(ms: i64)
    ensures
        rfc3339_text(ms) matches Some(t) ==> inst_text(ms) == t && write_value(
            EdnValue::Tagged(":inst"@, Box::new(EdnValue::Integer(ms as int))),
        ) == Ok::<Seq<char>, Seq<char>>("#inst \""@ + t + seq!['"']),
{
    reveal_strlit(":inst");
    reveal_strlit("inst");
    assert(crate::ser::tag_name(":inst"@) =~= "inst"@);
}

/// An `i64` is encoded as the integer it is, written as text that reads back
/// as it, and decoded back to itself; only that integer decodes to it.
pub proof fn lemma_i64_encoding(x: i64)
    ensures
        x.edn() == EdnValue::Integer(x as int),
        write_value(x.edn()) matches Ok(t) && parse_edn(t) == Ok::<EdnValue, ErrorView>(x.edn()),
        <i64 as FromEdn>::accepts(x.edn()) && <i64 as FromEdn>::decodes(x.edn(), x),
        forall|v: EdnValue, y: i64| <i64 as FromEdn>::decodes(v, y) ==> v == y.edn(),
{
    lemma_round_trip(x.edn());
}

/// An `i32` is encoded as the integer it is, written as text that reads back
/// as it, and decoded back to itself; only that integer decodes to it.
pub proof fn lemma_i32_encoding(x: i32)
    ensures
        x.edn() == EdnValue::Integer(x as int),
        write_value(x.edn()) matches Ok(t) && parse_edn(t) == Ok::<EdnValue, ErrorView>(x.edn()),
        <i32 as FromEdn>::accepts(x.edn()) && <i32 as FromEdn>::decodes(x.edn(), x),
        forall|v: EdnValue, y: i32| <i32 as FromEdn>::decodes(v, y) ==> v == y.edn(),
        forall|n: int| <i32 as FromEdn>::accepts(EdnValue::Integer(n)) <==> i32::MIN <= n <= i32::MAX,
{
    lemma_round_trip(x.edn());
}

/// A boolean is encoded as itself, written as text that reads back as it,
/// and decoded back to itself; a value decodes as a boolean only when it is
/// that boolean.
pub proof fn lemma_bool_encoding(x: bool)
    ensures
        x.edn() == EdnValue::Bool(x),
        write_value(x.edn()) matches Ok(t) && parse_edn(t) == Ok::<EdnValue, ErrorView>(x.edn()),
        <bool as FromEdn>::accepts(x.edn()) && <bool as FromEdn>::decodes(x.edn(), x),
        forall|v: EdnValue, y: bool| <bool as FromEdn>::decodes(v, y) ==> v == EdnValue::Bool(y),
        forall|v: EdnValue| <bool as FromEdn>::accepts(v) <==> v is Bool,
{
    lemma_round_trip(x.edn());
}

/// A character is encoded as itself, written as text that reads back as it,
/// and decoded back to itself and to nothing else.
pub proof fn lemma_char_encoding(x: char)
    ensures
        x.edn() == EdnValue::Char(x),
        write_value(x.edn()) matches Ok(t) && parse_edn(t) == Ok::<EdnValue, ErrorView>(x.edn()),
        <char as FromEdn>::accepts(x.edn()) && <char as FromEdn>::decodes(x.edn(), x),
        forall|y: char| <char as FromEdn>::decodes(x.edn(), y) ==> y == x,
{
    lemma_round_trip(x.edn());
}

/// A string is encoded as itself, written as text that reads back as it, and
/// decoded back to a string with the same characters.
pub proof fn lemma_string_encoding(x: String)
    ensures
        x.edn() == EdnValue::Str(x@),
        write_value(x.edn()) matches Ok(t) && parse_edn(t) == Ok::<EdnValue, ErrorView>(x.edn()),
        <String as FromEdn>::accepts(x.edn()) && <String as FromEdn>::decodes(x.edn(), x),
        forall|y: String| <String as FromEdn>::decodes(x.edn(), y) ==> y@ == x@,
{
    lemma_round_trip(x.edn());
}

/// Reading a keyword takes the whole name after the colon: a colon followed
/// by a symbol name reads as the keyword of exactly that text.
pub proof fn lemma_keyword_name_reads(t: Seq<char>)
    requires
        symbol_name(t),
    ensures
        parse_edn(seq![':'] + t) == Ok::<EdnValue, ErrorView>(EdnValue::Keyword(seq![':'] + t)),
{
    let n = t.len() as int;
    let s = seq![':'] + t;
    let sym = symbol_char_class();
    assert(s[0] == ':');
    assert(!is_blank(s[0]) && s[0] != ';');
    assert(skip_ws(s, 0) == 0);
    assert(s[1] == t[0]);
    assert(is_symbol_start(s[1]));
    let k0 = if exists|i: int| 1 <= i < n && t[i] == '/' {
        choose|i: int| 1 <= i < n && t[i] == '/'
    } else {
        n
    };
    assert forall|j: int| 2 <= j < k0 + 1 implies sym(#[trigger] s[j]) by {
        assert(s[j] == t[j - 1]);
        if t[j - 1] == '/' {
            assert(!(t[j - 1] == '/' && t[k0] == '/'));
        }
        assert(name_char(t[j - 1]));
        assert(is_symbol_char(s[j]));
    }
    if k0 < n {
        assert(s[k0 + 1] == t[k0]);
        assert(!is_symbol_char('/'));
    }
    lemma_run_to(s, 2, k0 + 1, sym);
    if k0 < n {
        assert forall|j: int| k0 + 2 <= j < n + 1 implies sym(#[trigger] s[j]) by {
            assert(s[j] == t[j - 1]);
            assert(!(t[k0] == '/' && t[j - 1] == '/'));
            assert(name_char(t[j - 1]));
            assert(is_symbol_char(s[j]));
        }
        lemma_run_to(s, k0 + 2, n + 1, sym);
    }
    assert(s.subrange(1, n + 1) =~= t);
    assert(read_symbol_text(s, 1) == Ok::<(Seq<char>, int), ReadError>((t, n + 1)));
    assert(read_value(s, 0) == Ok::<(EdnValue, int), ReadError>((EdnValue::Keyword(s), n + 1)));
}

/// The decimal text of any integer, as `serialize_i64` and `serialize_u64`
/// write it: a minus sign exactly when it is negative, then digits whose
/// value is its magnitude.
pub proof fn lemma_int_text_value(n: int)
    ensures
        int_text(n).len() > 0,
        (int_text(n)[0] == '-') <==> n < 0,
        n < 0 ==> digits_value(int_text(n).subrange(1, int_text(n).len() as int)) == -n,
        n >= 0 ==> digits_value(int_text(n)) == n,
        forall|k: int| (if n < 0 { 1int } else { 0int }) <= k < int_text(n).len() ==> is_ascii_digit(#[trigger] int_text(n)[k]),
{
    if n < 0 {
        let m = (-n) as nat;
        lemma_nat_text(m);
        let d = crate::ser::nat_text(m);
        assert(int_text(n) == seq!['-'] + d);
        assert(int_text(n).subrange(1, int_text(n).len() as int) =~= d);
        assert forall|k: int| 1 <= k < int_text(n).len() implies is_ascii_digit(#[trigger] int_text(n)[k]) by {
            assert(int_text(n)[k] == d[k - 1]);
        }
    } else {
        lemma_nat_text(n as nat);
        assert(is_ascii_digit(int_text(n)[0]));
    }
}

} // verus!
