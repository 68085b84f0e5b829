//! Every value read from a text writes back to a text that reads as the same
//! value.
use vstd::prelude::*;
use crate::grammar::{
    ReadError, run_end, read_symbol_text, read_number, digit_class, symbol_char_class, is_blank,
    is_symbol_start, skip_ws, skip_comment, read_value, read_seq, read_map, read_map_or_set,
    read_dispatch, map_insert, key_index, is_special_float, alphabetic_class, unicode_escape_at,
};
use crate::chars::{alphabetic, is_ascii_digit};
use crate::value::EdnValue;
use crate::tags::tag_result;
use crate::ser::write_value;
use crate::types::ErrorView;
use crate::de::parse_edn;
use crate::roundtrip::{reads_back, token, float_reads_back, lemma_round_trip};

verus! {

/// The values whose text does not rest on an outside library or on the bare
/// form of a character under a tag: no `#inst` instant, and no character `u`
/// right under another tag.
pub open spec fn plain_tags(v: EdnValue) -> bool
    decreases v,
{
    match v {
        EdnValue::List(items) => forall|k: int| 0 <= k < items.len() ==> plain_tags(#[trigger] items[k]),
        EdnValue::Vector(items) => forall|k: int| 0 <= k < items.len() ==> plain_tags(#[trigger] items[k]),
        EdnValue::SetVal(items) => forall|k: int| 0 <= k < items.len() ==> plain_tags(#[trigger] items[k]),
        EdnValue::MapVal(m) => forall|k: int| 0 <= k < m.len() ==> plain_tags(#[trigger] m[k].0) && plain_tags(m[k].1),
        EdnValue::Tagged(tag, inner) => {
            &&& tag != ":inst"@
            &&& *inner != EdnValue::Char('u')
            &&& plain_tags(*inner)
        },
        _ => true,
    }
}

/// A value that, when its tags are plain, reads back from its text.
pub open spec fn ok_if_plain(v: EdnValue) -> bool {
    plain_tags(v) ==> reads_back(v)
}

/// The keys and values of `m` read back when their tags are plain.
pub open spec fn entries_ok(m: Seq<(EdnValue, EdnValue)>) -> bool {
    forall|i: int| 0 <= i < m.len() ==> ok_if_plain(#[trigger] m[i].0) && ok_if_plain(m[i].1)
}

proof fn lemma_run_end_sub(s: Seq<char>, i: int, k: int, j: int, p: spec_fn(char) -> bool)
    requires
        0 <= i <= j <= k <= s.len(),
        run_end(s, j, p) <= k,
    ensures
        run_end(s.subrange(i, k), j - i, p) == run_end(s, j, p) - i,
    decreases s.len() - j,
{
    let t = s.subrange(i, k);
    crate::grammar::lemma_run_end(s, j, p);
    if j < k {
        assert(t[j - i] == s[j]);
        if p(s[j]) {
            lemma_run_end_sub(s, i, k, j + 1, p);
        }
    }
}

/// The name read as a symbol reads as itself on its own.
proof fn lemma_symbol_token(s: Seq<char>, i: int)
    requires
        0 <= i <= s.len(),
        read_symbol_text(s, i) is Ok,
    ensures
        read_symbol_text(s, i) matches Ok((name, k)) && token(name) && name[0] == s[i]
            && name == s.subrange(i, k) && i < k <= s.len(),
{
    crate::grammar::lemma_symbol_text(s, i);
    let sym = symbol_char_class();
    let (name, k) = read_symbol_text(s, i)->Ok_0;
    crate::grammar::lemma_run_end(s, i + 1, sym);
    let j = run_end(s, i + 1, sym);
    if j < s.len() && s[j] == '/' {
        crate::grammar::lemma_run_end(s, j + 1, sym);
    }
    assert(name[0] == s[i]);
    lemma_run_end_sub(s, i, k, i + 1, sym);
    if j < k {
        assert(name[j - i] == s[j]);
        lemma_run_end_sub(s, i, k, j + 1, sym);
    }
    assert(name.subrange(0, name.len() as int) =~= name);
}

/// Whitespace and comments end at a character that is neither blank nor
/// the start of a comment.
proof fn lemma_skip_stops(s: Seq<char>, i: int)
    requires
        0 <= i <= s.len(),
    ensures
        skip_ws(s, i) < s.len() ==> !is_blank(s[skip_ws(s, i)]) && s[skip_ws(s, i)] != ';',
        skip_comment(s, i) < s.len() ==> !is_blank(s[skip_comment(s, i)]) && s[skip_comment(s, i)] != ';',
    decreases s.len() - i,
{
    if i < s.len() {
        lemma_skip_stops(s, i + 1);
        if s[i] == '\n' {
            assert(is_blank(s[i]));
            assert(skip_ws(s, i) == skip_ws(s, i + 1));
            assert(skip_comment(s, i) == skip_ws(s, i));
        }
    }
}

/// A float literal with an exponent, read from `s` at `i`, reads as itself
/// on its own.
#[verifier::rlimit(40)]
proof fn lemma_float_exp(s: Seq<char>, i: int, a: int, b: int, c: int, d: int, e: int)
    requires
        0 <= i <= a <= b <= c < d <= e <= s.len(),
        a == (if i < s.len() && (s[i] == '+' || s[i] == '-') { i + 1 } else { i }),
        b == run_end(s, a, digit_class()),
        b != a,
        c == (if b < s.len() && s[b] == '.' { run_end(s, b + 1, digit_class()) } else { b }),
        s[c] == 'e' || s[c] == 'E',
        d == (if c + 1 < s.len() && (s[c + 1] == '+' || s[c + 1] == '-') { c + 2 } else { c + 1 }),
        e == run_end(s, d, digit_class()),
        e != d,
    ensures
        read_number(s, i) == Ok::<(EdnValue, int), ReadError>((EdnValue::Float(s.subrange(i, e)), e)),
        float_reads_back(s.subrange(i, e)),
{
    let dg = digit_class();
    let x = s.subrange(i, e);
    assert(x[0] == s[i]);
    lemma_run_end_sub(s, i, e, a, dg);
    assert(x[b - i] == s[b]);
    if b < s.len() && s[b] == '.' {
        crate::grammar::lemma_run_end(s, b + 1, dg);
        lemma_run_end_sub(s, i, e, b + 1, dg);
    }
    assert(x[c - i] == s[c]);
    if c + 1 < e {
        assert(x[c + 1 - i] == s[c + 1]);
    }
    lemma_run_end_sub(s, i, e, d, dg);
    assert(x.subrange(0, x.len() as int) =~= x);
}

/// A float literal with a fraction and no exponent, read from `s` at `i`,
/// reads as itself on its own.
#[verifier::rlimit(40)]
proof fn lemma_float_frac(s: Seq<char>, i: int, a: int, b: int, c: int)
    requires
        0 <= i <= a <= b,
        b + 1 < c <= s.len(),
        a == (if i < s.len() && (s[i] == '+' || s[i] == '-') { i + 1 } else { i }),
        b == run_end(s, a, digit_class()),
        b != a,
        s[b] == '.',
        c == run_end(s, b + 1, digit_class()),
        !(c < s.len() && (s[c] == 'e' || s[c] == 'E')),
    ensures
        read_number(s, i) == Ok::<(EdnValue, int), ReadError>((EdnValue::Float(s.subrange(i, c)), c)),
        float_reads_back(s.subrange(i, c)),
{
    let dg = digit_class();
    let x = s.subrange(i, c);
    assert(x[0] == s[i]);
    lemma_run_end_sub(s, i, c, a, dg);
    assert(x[b - i] == s[b]);
    lemma_run_end_sub(s, i, c, b + 1, dg);
    assert(x.subrange(0, x.len() as int) =~= x);
}

/// A number read from a text is an `i64` or a float literal that reads as
/// itself.
proof fn lemma_number_ok(s: Seq<char>, i: int)
    requires
        0 <= i <= s.len(),
    ensures
        read_number(s, i) matches Ok((v, _)) ==> reads_back(v),
{
    let dg = digit_class();
    let a = if 0 <= i < s.len() && (s[i] == '+' || s[i] == '-') { i + 1 } else { i };
    crate::grammar::lemma_run_end(s, a, dg);
    let b = run_end(s, a, dg);
    if b != a {
        let dot = b < s.len() && s[b] == '.';
        if dot {
            crate::grammar::lemma_run_end(s, b + 1, dg);
        }
        let c = if dot { run_end(s, b + 1, dg) } else { b };
        let has_frac = dot && c > b + 1;
        if c < s.len() && (s[c] == 'e' || s[c] == 'E') {
            let d = if c + 1 < s.len() && (s[c + 1] == '+' || s[c + 1] == '-') { c + 2 } else { c + 1 };
            crate::grammar::lemma_run_end(s, d, dg);
            let e = run_end(s, d, dg);
            if e != d {
                lemma_float_exp(s, i, a, b, c, d, e);
            }
        } else if has_frac {
            lemma_float_frac(s, i, a, b, c);
        }
    }
}

/// Adding an entry to a map keeps every key and value reading back when
/// its tags are plain.
proof fn lemma_map_insert_ok(m: Seq<(EdnValue, EdnValue)>, k: EdnValue, v: EdnValue)
    requires
        entries_ok(m),
        ok_if_plain(k),
        ok_if_plain(v),
    ensures
        entries_ok(map_insert(m, k, v)),
{
    crate::grammar::lemma_key_index_spec(m, k);
    let r = map_insert(m, k, v);
    assert forall|i: int| 0 <= i < r.len() implies ok_if_plain(#[trigger] r[i].0) && ok_if_plain(r[i].1) by {
        match key_index(m, k) {
            Some(j) => {
                if i != j {
                    assert(r[i] == m[i]);
                } else {
                    assert(r[i] == (m[j].0, v));
                }
            },
            None => {
                if i < m.len() {
                    assert(r[i] == m[i]);
                } else {
                    assert(r[i] == (k, v));
                }
            },
        }
    }
}

/// A value read from a text reads back from its own text when its tags are
/// plain.
pub proof fn lemma_value_ok(s: Seq<char>, i: int)
    requires
        0 <= i <= s.len(),
    ensures
        read_value(s, i) matches Ok((v, _)) ==> ok_if_plain(v),
    decreases s.len() - i, 0int,
{
    crate::grammar::lemma_skip_ws(s, i);
    lemma_skip_stops(s, i);
    let q = skip_ws(s, i);
    if q < s.len() {
        let c = s[q];
        if c == '(' {
            lemma_seq_ok(s, q + 1, ')', seq![]);
        } else if c == '[' {
            lemma_seq_ok(s, q + 1, ']', seq![]);
        } else if c == '{' {
            lemma_map_or_set_ok(s, q + 1);
        } else if c == '#' {
            lemma_dispatch_ok(s, q + 1);
        } else if c == ':' {
            if read_symbol_text(s, q + 1) is Ok {
                lemma_symbol_token(s, q + 1);
                let name = read_symbol_text(s, q + 1)->Ok_0.0;
                let t = seq![':'] + name;
                assert(t.subrange(1, t.len() as int) =~= name);
            }
        } else if c == '"' {
            crate::grammar::lemma_string_scalar(s, q + 1, seq![]);
        } else if c == '\\' {
            if unicode_escape_at(s, q + 1) {
                crate::grammar::lemma_hex4_scalar(s, q + 2, 0, 0);
            } else if q + 1 < s.len() && alphabetic(s[q + 1]) {
                let k = run_end(s, q + 1, alphabetic_class());
                crate::grammar::lemma_hex4_scalar(s, k, 0, 0);
            }
        } else if c == '-' || c == '+' || is_ascii_digit(c) {
            lemma_number_ok(s, q);
        } else if is_symbol_start(c) {
            if read_symbol_text(s, q) is Ok {
                lemma_symbol_token(s, q);
            }
        }
    }
}

/// The items read into a collection read back when their tags are plain.
pub proof fn lemma_seq_ok(s: Seq<char>, p: int, close: char, acc: Seq<EdnValue>)
    requires
        0 <= p <= s.len(),
        forall|k: int| 0 <= k < acc.len() ==> ok_if_plain(#[trigger] acc[k]),
    ensures
        read_seq(s, p, close, acc) matches Ok((items, _))
            ==> forall|k: int| 0 <= k < items.len() ==> ok_if_plain(#[trigger] items[k]),
    decreases s.len() - p, 1int,
{
    crate::grammar::lemma_skip_ws(s, p);
    let q = skip_ws(s, p);
    if !(q < s.len() && s[q] == close) {
        crate::grammar::lemma_read_value(s, q);
        lemma_value_ok(s, q);
        if let Ok((v, m)) = read_value(s, q) {
            if p < m && m <= s.len() {
                let acc2 = acc.push(v);
                assert forall|k: int| 0 <= k < acc2.len() implies ok_if_plain(#[trigger] acc2[k]) by {
                    if k < acc.len() {
                        assert(acc2[k] == acc[k]);
                    }
                }
                lemma_seq_ok(s, m, close, acc2);
            }
        }
    }
}

/// The entries read into a map read back when their tags are plain.
pub proof fn lemma_map_ok(s: Seq<char>, p: int, acc: Seq<(EdnValue, EdnValue)>)
    requires
        0 <= p <= s.len(),
        entries_ok(acc),
    ensures
        read_map(s, p, acc) matches Ok((m, _)) ==> entries_ok(m),
    decreases s.len() - p, 1int,
{
    crate::grammar::lemma_skip_ws(s, p);
    let q = skip_ws(s, p);
    if !(q < s.len() && s[q] == '}') {
        crate::grammar::lemma_read_value(s, q);
        lemma_value_ok(s, q);
        if let Ok((k, a)) = read_value(s, q) {
            crate::grammar::lemma_skip_ws(s, a);
            let b = skip_ws(s, a);
            crate::grammar::lemma_read_value(s, b);
            lemma_value_ok(s, b);
            if let Ok((v, m)) = read_value(s, b) {
                if b < m && m <= s.len() {
                    lemma_map_insert_ok(acc, k, v);
                    lemma_map_ok(s, m, map_insert(acc, k, v));
                }
            }
        }
    }
}

/// A map read after `{` reads back when its tags are plain.
pub proof fn lemma_map_or_set_ok(s: Seq<char>, p: int)
    requires
        0 <= p <= s.len(),
    ensures
        read_map_or_set(s, p) matches Ok((v, _)) ==> ok_if_plain(v),
    decreases s.len() - p, 2int,
{
    lemma_map_ok(s, p, seq![]);
    crate::grammar::lemma_read_map_distinct(s, p, seq![]);
}

/// What is read after `#` reads back when its tags are plain.
pub proof fn lemma_dispatch_ok(s: Seq<char>, j: int)
    requires
        0 <= j <= s.len(),
    ensures
        read_dispatch(s, j) matches Ok((v, _)) ==> ok_if_plain(v),
    decreases s.len() - j, 2int,
{
    if j < s.len() {
        if s[j] == '_' {
            crate::grammar::lemma_skip_ws(s, j + 1);
            let k = skip_ws(s, j + 1);
            crate::grammar::lemma_read_value(s, k);
            if let Ok((_, m)) = read_value(s, k) {
                if k < m && m <= s.len() {
                    lemma_value_ok(s, m);
                }
            }
        } else if s[j] == '{' {
            lemma_seq_ok(s, j + 1, '}', seq![]);
        } else if s[j] == '#' {
            reveal_strlit("NaN");
            reveal_strlit("Inf");
            reveal_strlit("-Inf");
            reveal_strlit("##NaN");
            reveal_strlit("##Inf");
            reveal_strlit("##-Inf");
            if let Ok((name, k)) = read_symbol_text(s, j + 1) {
                if is_special_float(name) {
                    let t = seq!['#', '#'] + name;
                    if name == "NaN"@ {
                        assert(t =~= "##NaN"@);
                    } else if name == "Inf"@ {
                        assert(t =~= "##Inf"@);
                    } else {
                        assert(t =~= "##-Inf"@);
                    }
                }
            }
        } else if alphabetic(s[j]) {
            if read_symbol_text(s, j) is Ok {
                lemma_symbol_token(s, j);
                let (tag, k) = read_symbol_text(s, j)->Ok_0;
                crate::grammar::lemma_skip_ws(s, k);
                let k2 = skip_ws(s, k);
                crate::grammar::lemma_read_value(s, k2);
                lemma_value_ok(s, k2);
                if let Ok((v, m)) = read_value(s, k2) {
                    lemma_tag_ok(tag, v);
                }
            }
        }
    }
}

/// What a tag gives reads back when its tags are plain.
proof fn lemma_tag_ok(tag: Seq<char>, v: EdnValue)
    requires
        token(tag),
        alphabetic(tag[0]),
        ok_if_plain(v),
    ensures
        tag_result(tag, v) matches Ok(r) ==> ok_if_plain(r),
{
    reveal_strlit("inst");
    reveal_strlit("uuid");
    reveal_strlit(":inst");
    if tag != "inst"@ && tag != "uuid"@ {
        let t = seq![':'] + tag;
        assert(t.subrange(1, t.len() as int) =~= tag);
        if t == ":inst"@ {
            assert(t.subrange(1, t.len() as int) =~= "inst"@);
        }
    }
}

/// Every value read from a text whose tags are plain (no `#inst` instant,
/// no character `u` right under another tag) reads back from its own text:
/// reading a text, writing the value and reading that text again gives the
/// same value.
pub proof fn lemma_read_write_read(s: Seq<char>)
    ensures
        parse_edn(s) matches Ok(v) ==> (plain_tags(v) ==> (reads_back(v) && (write_value(v) matches Ok(t)
            && parse_edn(t) == Ok::<EdnValue, ErrorView>(v)))),
{
    lemma_value_ok(s, 0);
    if let Ok(v) = parse_edn(s) {
        if plain_tags(v) {
            lemma_round_trip(v);
        }
    }
}

} // verus!
