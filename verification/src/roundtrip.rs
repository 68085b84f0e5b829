//! Writing a value and reading the text back gives the value again.
use vstd::prelude::*;
use crate::chars::{alphabetic, whitespace, is_ascii_digit, is_hex_digit, hex_digit_value, is_scalar_value};
use crate::grammar::{
    ReadError, run_end, read_symbol_text, read_number, digit_class, symbol_char_class, is_blank,
    is_symbol_char, is_symbol_start, digits_value, in_i64, read_char, read_hex4, alphabetic_class,
    read_string, escape_char, skip_ws, read_value, read_seq, read_map, read_dispatch, key_index,
    map_insert, unicode_escape_at,
};
use crate::value::EdnValue;
use crate::ser::{
    nat_text, int_text, digit_char, hex_char, hex_text, hex4_text, char_text, escape_text, escaped,
    quoted, str_text, tag_name, write_value, write_items, write_entries, write_tagged,
    write_custom_tagged,
};
use crate::tags::{inst_text, rfc3339_millis, tag_result};
use crate::types::ErrorView;
use crate::de::parse_edn;
use crate::decode::{text_value, tagged_part, first_space, trim, trim_start, trim_end, has_prefix, wrapped};

verus! {

/// The characters that may follow a written value: a space between items,
/// or the bracket that closes a collection.
pub open spec fn delim(c: char) -> bool {
    c == ' ' || c == ')' || c == ']' || c == '}'
}

/// `t` stands at position `i` of `s`, followed by the end of `s` or a
/// delimiter.
pub open spec fn placed(s: Seq<char>, i: int, t: Seq<char>) -> bool {
    &&& 0 <= i
    &&& i + t.len() <= s.len()
    &&& s.subrange(i, i + t.len()) == t
    &&& (i + t.len() == s.len() || delim(s[i + t.len()]))
}

/// A symbol token: it reads as exactly itself.
pub open spec fn token(t: Seq<char>) -> bool {
    &&& t.len() > 0
    &&& read_symbol_text(t, 0) == Ok::<(Seq<char>, int), ReadError>((t, t.len() as int))
}

proof fn lemma_placed_at(s: Seq<char>, i: int, t: Seq<char>, k: int)
    requires
        placed(s, i, t),
        0 <= k < t.len(),
    ensures
        s[i + k] == t[k],
{
    assert(s.subrange(i, i + t.len())[k] == s[i + k]);
}

/// `t` standing at `i` of `s` and followed there by a character outside `p`
/// ends its run of `p` where it does on its own.
pub proof fn lemma_run_end_shift(s: Seq<char>, t: Seq<char>, i: int, x: int, p: spec_fn(char) -> bool)
    requires
        0 <= x <= t.len(),
        0 <= i,
        i + t.len() <= s.len(),
        s.subrange(i, i + t.len()) == t,
        i + t.len() == s.len() || !p(s[i + t.len()]),
    ensures
        run_end(s, i + x, p) == i + run_end(t, x, p),
    decreases t.len() - x,
{
    if x < t.len() {
        assert(s.subrange(i, i + t.len())[x] == s[i + x]);
        if p(t[x]) {
            lemma_run_end_shift(s, t, i, x + 1, p);
        }
    }
}

proof fn lemma_run_end_all(s: Seq<char>, i: int, p: spec_fn(char) -> bool)
    requires
        0 <= i <= s.len(),
        forall|j: int| i <= j < s.len() ==> p(#[trigger] s[j]),
    ensures
        run_end(s, i, p) == s.len(),
    decreases s.len() - i,
{
    if i < s.len() {
        lemma_run_end_all(s, i + 1, p);
    }
}

/// A token stands at `i`: reading a symbol there gives it.
proof fn lemma_token_shift(s: Seq<char>, i: int, t: Seq<char>)
    requires
        placed(s, i, t),
        token(t),
    ensures
        read_symbol_text(s, i) == Ok::<(Seq<char>, int), ReadError>((t, i + t.len())),
{
    let n = t.len() as int;
    lemma_placed_at(s, i, t, 0);
    let sym = symbol_char_class();
    if i + n < s.len() {
        assert(!is_symbol_char(s[i + n]));
    }
    lemma_run_end_shift(s, t, i, 1, sym);
    let j = run_end(t, 1, sym);
    crate::grammar::lemma_run_end(t, 1, sym);
    if j < n && t[j] == '/' {
        lemma_placed_at(s, i, t, j);
        lemma_run_end_shift(s, t, i, j + 1, sym);
    } else if j < n {
        lemma_placed_at(s, i, t, j);
    }
    assert(s.subrange(i, i + n) == t);
}

/// A number stands at `i` and reads in isolation: it reads the same at `i`.
#[verifier::rlimit(40)]
proof fn lemma_number_shift(s: Seq<char>, i: int, t: Seq<char>, v: EdnValue)
    requires
        placed(s, i, t),
        t.len() > 0,
        read_number(t, 0) == Ok::<(EdnValue, int), ReadError>((v, t.len() as int)),
    ensures
        read_number(s, i) == Ok::<(EdnValue, int), ReadError>((v, i + t.len())),
{
    let n = t.len() as int;
    let dg = digit_class();
    lemma_placed_at(s, i, t, 0);
    if i + n < s.len() {
        assert(!is_ascii_digit(s[i + n]));
    }
    let a = if t[0] == '+' || t[0] == '-' { 1int } else { 0int };
    lemma_run_end_shift(s, t, i, a, dg);
    crate::grammar::lemma_run_end(t, a, dg);
    let b = run_end(t, a, dg);
    if b < n {
        lemma_placed_at(s, i, t, b);
    }
    let dot = b < n && t[b] == '.';
    if dot {
        lemma_run_end_shift(s, t, i, b + 1, dg);
        crate::grammar::lemma_run_end(t, b + 1, dg);
    }
    let c = if dot { run_end(t, b + 1, dg) } else { b };
    if c < n {
        lemma_placed_at(s, i, t, c);
    }
    if c + 1 < n {
        lemma_placed_at(s, i, t, c + 1);
    }
    if c < n && (t[c] == 'e' || t[c] == 'E') {
        let d = if c + 1 < n && (t[c + 1] == '+' || t[c + 1] == '-') { c + 2 } else { c + 1 };
        lemma_run_end_shift(s, t, i, d, dg);
        crate::grammar::lemma_run_end(t, d, dg);
        let e = run_end(t, d, dg);
        assert(s.subrange(i, i + e) == t.subrange(0, e));
    } else {
        assert(s.subrange(i, i + c) == t.subrange(0, c));
        assert(s.subrange(i + a, i + b) == t.subrange(a, b));
    }
}

proof fn lemma_digit_char(d: int)
    requires
        0 <= d < 10,
    ensures
        is_ascii_digit(digit_char(d)),
        digit_char(d) as int - '0' as int == d,
{
}

/// The decimal text of a natural number is digits whose value is the number.
pub proof fn lemma_nat_text(m: nat)
    ensures
        nat_text(m).len() >= 1,
        forall|k: int| 0 <= k < nat_text(m).len() ==> is_ascii_digit(#[trigger] nat_text(m)[k]),
        digits_value(nat_text(m)) == m,
    decreases m,
{
    lemma_digit_char((m % 10) as int);
    if m < 10 {
        let one = seq![digit_char(m as int)];
        assert(one.drop_last() =~= Seq::<char>::empty());
        assert(digits_value(Seq::<char>::empty()) == 0);
        assert(one.last() == digit_char(m as int));
        assert(digits_value(one) == digits_value(one.drop_last()) * 10 + (one.last() as int - '0' as int));
    } else {
        lemma_nat_text(m / 10);
        assert(m == (m / 10) * 10 + m % 10) by (nonlinear_arith);
        let pre = nat_text(m / 10);
        let d = digit_char((m % 10) as int);
        assert(nat_text(m) == pre + seq![d]);
        assert((pre + seq![d]).drop_last() =~= pre);
        assert(forall|k: int| 0 <= k < pre.len() ==> (pre + seq![d])[k] == pre[k]);
        let whole = pre + seq![d];
        assert(whole.last() == d);
        assert(digits_value(whole) == digits_value(whole.drop_last()) * 10 + (whole.last() as int - '0' as int));
    }
}

/// An integer in `i64` reads back from its decimal text.
proof fn lemma_int_text(n: int)
    requires
        in_i64(n),
    ensures
        int_text(n).len() > 0,
        read_number(int_text(n), 0) == Ok::<(EdnValue, int), ReadError>((EdnValue::Integer(n), int_text(n).len() as int)),
{
    let t = int_text(n);
    let dg = digit_class();
    if n < 0 {
        let m = (-n) as nat;
        lemma_nat_text(m);
        let d = nat_text(m);
        assert(t == seq!['-'] + d);
        assert(forall|k: int| 1 <= k < t.len() ==> t[k] == d[k - 1]);
        lemma_run_end_all(t, 1, dg);
        assert(t.subrange(1, t.len() as int) =~= d);
    } else {
        let m = n as nat;
        lemma_nat_text(m);
        lemma_run_end_all(t, 0, dg);
        assert(t.subrange(0, t.len() as int) =~= t);
    }
}


proof fn lemma_hex_char(d: int)
    requires
        0 <= d < 16,
    ensures
        is_hex_digit(hex_char(d)),
        hex_digit_value(hex_char(d)) == d,
        d < 10 ==> is_ascii_digit(hex_char(d)),
        (hex_char(d) as u32) < 128,
{
}

proof fn lemma_hex4(n: nat)
    requires
        n < 0x10000,
    ensures
        hex4_text(n) == seq![
            hex_char((n / 4096) as int),
            hex_char(((n / 256) % 16) as int),
            hex_char(((n / 16) % 16) as int),
            hex_char((n % 16) as int),
        ],
{
    let q1 = n / 16;
    let q2 = q1 / 16;
    let q3 = q2 / 16;
    assert(n / 256 == q2 && n / 4096 == q3) by (nonlinear_arith)
        requires
            q1 == n / 16,
            q2 == q1 / 16,
            q3 == q2 / 16,
    ;
    reveal_with_fuel(hex_text, 5);
    let d = hex_text(n);
    if n < 16 {
        assert(d == seq![hex_char(n as int)]);
    } else if n < 256 {
        assert(d == seq![hex_char(q1 as int), hex_char((n % 16) as int)]);
    } else if n < 4096 {
        assert(d == seq![hex_char(q2 as int), hex_char((q1 % 16) as int), hex_char((n % 16) as int)]);
    } else {
        assert(d == seq![hex_char(q3 as int), hex_char((q2 % 16) as int), hex_char((q1 % 16) as int), hex_char((n % 16) as int)]);
    }
    assert(hex4_text(n) =~= seq![
        hex_char((n / 4096) as int),
        hex_char(((n / 256) % 16) as int),
        hex_char(((n / 16) % 16) as int),
        hex_char((n % 16) as int),
    ]);
}

/// A character literal read in isolation gives the character back.
proof fn lemma_char_text(c: char)
    ensures
        char_text(c).len() >= 2,
        char_text(c)[0] == '\\',
        char_text(c)[1] != 'u' || unicode_escape_at(char_text(c), 1),
        read_char(char_text(c), 1) == Ok::<(EdnValue, int), ReadError>((EdnValue::Char(c), char_text(c).len() as int)),
{
    let t = char_text(c);
    let al = alphabetic_class();
    reveal_strlit("newline");
    reveal_strlit("return");
    reveal_strlit("tab");
    reveal_strlit("space");
    reveal_strlit("u");
    reveal_with_fuel(run_end, 9);
    if c == '\n' {
        assert(t =~= seq!['\\', 'n', 'e', 'w', 'l', 'i', 'n', 'e']);
        assert(t.subrange(1, 8) =~= "newline"@);
    } else if c == '\r' {
        assert(t =~= seq!['\\', 'r', 'e', 't', 'u', 'r', 'n']);
        assert(t.subrange(1, 7) =~= "return"@);
    } else if c == '\t' {
        assert(t =~= seq!['\\', 't', 'a', 'b']);
        assert(t.subrange(1, 4) =~= "tab"@);
    } else if c == ' ' {
        assert(t =~= seq!['\\', 's', 'p', 'a', 'c', 'e']);
        assert(t.subrange(1, 6) =~= "space"@);
    } else if ((c as u32) <= 0x7F && c != 'u') || (c as u32) > 0xFFFF {
        assert(t =~= seq!['\\', c]);
        assert(t.subrange(1, 2) =~= seq![c]);
        assert(!unicode_escape_at(t, 1));
        assert(seq![c][0] != "u"@[0]);
        assert(seq![c] != "u"@);
    } else {
        let code = (c as u32) as nat;
        lemma_hex4(code);
        let h3 = code / 4096;
        let h2 = (code / 256) % 16;
        let h1 = (code / 16) % 16;
        let h0 = code % 16;
        lemma_hex_char(h3 as int);
        lemma_hex_char(h2 as int);
        lemma_hex_char(h1 as int);
        lemma_hex_char(h0 as int);
        assert(t =~= seq!['\\', 'u', hex_char(h3 as int), hex_char(h2 as int), hex_char(h1 as int), hex_char(h0 as int)]);
        assert(unicode_escape_at(t, 1));
        assert(code == ((h3 * 16 + h2) * 16 + h1) * 16 + h0) by (nonlinear_arith)
            requires
                h3 == code / 4096,
                h2 == (code / 256) % 16,
                h1 == (code / 16) % 16,
                h0 == code % 16,
                code < 0x10000,
        ;
        reveal_with_fuel(read_hex4, 5);
        assert(is_scalar_value(code as int));
        vstd::utf8::char_u32_cast(c, c as u32);
    }
}

proof fn lemma_hex4_shift(s: Seq<char>, i: int, t: Seq<char>, k: int, tt: int, acc: int, v: EdnValue, m: int)
    requires
        placed(s, i, t),
        0 <= k,
        0 <= tt <= 4,
        read_hex4(t, k, tt, acc) == Ok::<(EdnValue, int), ReadError>((v, m)),
    ensures
        read_hex4(s, i + k, tt, acc) == Ok::<(EdnValue, int), ReadError>((v, i + m)),
    decreases 4 - tt,
{
    if tt < 4 {
        lemma_placed_at(s, i, t, k + tt);
        lemma_hex4_shift(s, i, t, k, tt + 1, acc * 16 + hex_digit_value(t[k + tt]), v, m);
    }
}

/// A character literal stands at `i`: it reads the same there.
proof fn lemma_char_shift(s: Seq<char>, i: int, t: Seq<char>, v: EdnValue)
    requires
        placed(s, i, t),
        t.len() >= 2,
        t[1] != 'u' || unicode_escape_at(t, 1),
        read_char(t, 1) == Ok::<(EdnValue, int), ReadError>((v, t.len() as int)),
    ensures
        read_char(s, i + 1) == Ok::<(EdnValue, int), ReadError>((v, i + t.len())),
{
    let n = t.len() as int;
    let al = alphabetic_class();
    lemma_placed_at(s, i, t, 1);
    if unicode_escape_at(t, 1) {
        lemma_placed_at(s, i, t, 2);
        lemma_placed_at(s, i, t, 3);
        lemma_placed_at(s, i, t, 4);
        lemma_placed_at(s, i, t, 5);
        assert(unicode_escape_at(s, i + 1));
        crate::grammar::lemma_hex4(t, 2, 0, 0);
        lemma_hex4_shift(s, i, t, 2, 0, 0, v, n);
    } else if alphabetic(t[1]) {
        if i + n < s.len() {
            assert(!alphabetic(s[i + n]));
        }
        lemma_run_end_shift(s, t, i, 1, al);
        crate::grammar::lemma_run_end(t, 1, al);
        let k = run_end(t, 1, al);
        assert(s.subrange(i + 1, i + k) == t.subrange(1, k));
        if t.subrange(1, k) == "u"@ {
            reveal_strlit("newline");
            reveal_strlit("return");
            reveal_strlit("tab");
            reveal_strlit("space");
            reveal_strlit("u");
            assert(read_char(t, 1) == read_hex4(t, k, 0, 0));
            lemma_hex4_shift(s, i, t, k, 0, 0, v, n);
        }
    }
}


proof fn lemma_escaped_concat(a: Seq<char>, b: Seq<char>)
    ensures
        escaped(a + b) == escaped(a) + escaped(b),
    decreases b.len(),
{
    if b.len() == 0 {
        assert(a + b =~= a);
        assert(escaped(a) + escaped(b) =~= escaped(a));
    } else {
        assert((a + b).drop_last() =~= a + b.drop_last());
        assert((a + b).last() == b.last());
        lemma_escaped_concat(a, b.drop_last());
        assert(escaped(a) + escaped(b.drop_last()) + escape_text(b.last()) =~= escaped(a) + (escaped(b.drop_last()) + escape_text(b.last())));
    }
}

proof fn lemma_escaped_front(x: Seq<char>)
    requires
        x.len() > 0,
    ensures
        escaped(x) == escape_text(x[0]) + escaped(x.subrange(1, x.len() as int)),
{
    let one = seq![x[0]];
    assert(x =~= one + x.subrange(1, x.len() as int));
    lemma_escaped_concat(one, x.subrange(1, x.len() as int));
    assert(one.drop_last() =~= Seq::<char>::empty());
    assert(escaped(one) == escaped(Seq::<char>::empty()) + escape_text(x[0]));
    assert(escaped(one) =~= escape_text(x[0]));
}

/// The escaped characters of `x`, then a quote, stand at `p`: reading the
/// rest of a string literal gives `x`.
proof fn lemma_read_escaped(s: Seq<char>, p: int, acc: Seq<char>, x: Seq<char>)
    requires
        0 <= p,
        p + escaped(x).len() < s.len(),
        s.subrange(p, p + escaped(x).len()) == escaped(x),
        s[p + escaped(x).len()] == '"',
    ensures
        read_string(s, p, acc) == Ok::<(EdnValue, int), ReadError>((EdnValue::Str(acc + x), p + escaped(x).len() + 1)),
    decreases x.len(),
{
    let e = escaped(x);
    if x.len() == 0 {
        assert(acc + x =~= acc);
    } else {
        lemma_escaped_front(x);
        let c = x[0];
        let rest = x.subrange(1, x.len() as int);
        let er = escaped(rest);
        let ec = escape_text(c);
        assert(e == ec + er);
        assert((ec + er).subrange(ec.len() as int, e.len() as int) =~= er);
        assert(s.subrange(p, p + e.len())[0] == s[p]);
        assert(acc.push(c) + rest =~= acc + x);
        if c == '"' || c == '\\' || c == '\n' || c == '\r' || c == '\t' {
            assert(ec.len() == 2);
            assert(s.subrange(p, p + e.len())[1] == s[p + 1]);
            assert(s[p] == '\\');
            assert(escape_char(s[p + 1]) == Some(c));
            assert(s.subrange(p + 2, p + 2 + er.len()) =~= s.subrange(p, p + e.len()).subrange(2, e.len() as int));
            lemma_read_escaped(s, p + 2, acc.push(c), rest);
        } else {
            assert(ec == seq![c]);
            assert(s.subrange(p + 1, p + 1 + er.len()) =~= s.subrange(p, p + e.len()).subrange(1, e.len() as int));
            lemma_read_escaped(s, p + 1, acc.push(c), rest);
        }
    }
}

/// No quote and no backslash.
pub open spec fn plain(t: Seq<char>) -> bool {
    forall|k: int| 0 <= k < t.len() ==> #[trigger] t[k] != '"' && t[k] != '\\'
}

/// `x` and a quote stand at `p`, with no quote or backslash in `x`: reading
/// the rest of a string literal gives `x`.
proof fn lemma_read_raw(s: Seq<char>, p: int, acc: Seq<char>, x: Seq<char>)
    requires
        0 <= p,
        p + x.len() < s.len(),
        s.subrange(p, p + x.len()) == x,
        s[p + x.len()] == '"',
        plain(x),
    ensures
        read_string(s, p, acc) == Ok::<(EdnValue, int), ReadError>((EdnValue::Str(acc + x), p + x.len() + 1)),
    decreases x.len(),
{
    if x.len() == 0 {
        assert(acc + x =~= acc);
    } else {
        let rest = x.subrange(1, x.len() as int);
        assert(s.subrange(p, p + x.len())[0] == s[p]);
        assert(s[p] == x[0]);
        assert(acc.push(x[0]) + rest =~= acc + x);
        assert(s.subrange(p + 1, p + 1 + rest.len()) =~= s.subrange(p, p + x.len()).subrange(1, x.len() as int));
        lemma_read_raw(s, p + 1, acc.push(x[0]), rest);
    }
}

proof fn lemma_skip_at(s: Seq<char>, i: int)
    requires
        0 <= i < s.len(),
        !is_blank(s[i]),
        s[i] != ';',
    ensures
        skip_ws(s, i) == i,
{
}

proof fn lemma_skip_space(s: Seq<char>, i: int)
    requires
        0 <= i,
        i + 1 < s.len(),
        s[i] == ' ',
        !is_blank(s[i + 1]),
        s[i + 1] != ';',
    ensures
        skip_ws(s, i) == i + 1,
{
    assert(is_blank(s[i]));
    lemma_skip_at(s, i + 1);
}

proof fn lemma_tokens()
    ensures
        token("nil"@),
        token("true"@),
        token("false"@),
        token("inst"@),
        token("NaN"@),
        token("Inf"@),
        token("-Inf"@),
{
    reveal_strlit("nil");
    reveal_strlit("true");
    reveal_strlit("false");
    reveal_strlit("inst");
    reveal_strlit("NaN");
    reveal_strlit("Inf");
    reveal_strlit("-Inf");
    reveal_with_fuel(run_end, 7);
    assert("nil"@.subrange(0, 3) =~= "nil"@);
    assert("true"@.subrange(0, 4) =~= "true"@);
    assert("false"@.subrange(0, 5) =~= "false"@);
    assert("inst"@.subrange(0, 4) =~= "inst"@);
    assert("NaN"@.subrange(0, 3) =~= "NaN"@);
    assert("Inf"@.subrange(0, 3) =~= "Inf"@);
    assert("-Inf"@.subrange(0, 4) =~= "-Inf"@);
}


/// A float text: a special value, or a number that reads as a float.
pub open spec fn float_reads_back(t: Seq<char>) -> bool {
    ||| t == "##NaN"@
    ||| t == "##Inf"@
    ||| t == "##-Inf"@
    ||| (t.len() > 0 && read_number(t, 0) == Ok::<(EdnValue, int), ReadError>((EdnValue::Float(t), t.len() as int)))
}

/// A symbol that reads as itself: a token that starts with neither
/// whitespace nor a sign and is none of `nil`, `true`, `false`.
pub open spec fn symbol_reads_back(t: Seq<char>) -> bool {
    &&& token(t)
    &&& !is_blank(t[0])
    &&& t[0] != '+' && t[0] != '-'
    &&& t != "nil"@ && t != "true"@ && t != "false"@
}

/// A keyword: a colon and a token.
pub open spec fn keyword_reads_back(t: Seq<char>) -> bool {
    t.len() >= 2 && t[0] == ':' && token(t.subrange(1, t.len() as int))
}

/// The name of a tag that is kept as a tag: a token that starts with a
/// letter and is neither `inst` nor `uuid`.
pub open spec fn tag_name_reads_back(name: Seq<char>) -> bool {
    &&& token(name)
    &&& alphabetic(name[0])
    &&& name != "inst"@ && name != "uuid"@
}

/// The values that read back from their text: see [`lemma_round_trip`].
pub open spec fn reads_back(v: EdnValue) -> bool
    decreases v,
{
    match v {
        EdnValue::Nil => true,
        EdnValue::Bool(_) => true,
        EdnValue::Str(_) => true,
        EdnValue::Char(_) => true,
        EdnValue::Symbol(t) => symbol_reads_back(t),
        EdnValue::Keyword(t) => keyword_reads_back(t),
        EdnValue::Integer(n) => in_i64(n),
        EdnValue::Float(t) => float_reads_back(t),
        EdnValue::List(items) => forall|k: int| 0 <= k < items.len() ==> reads_back(#[trigger] items[k]),
        EdnValue::Vector(items) => forall|k: int| 0 <= k < items.len() ==> reads_back(#[trigger] items[k]),
        EdnValue::SetVal(items) => forall|k: int| 0 <= k < items.len() ==> reads_back(#[trigger] items[k]),
        EdnValue::MapVal(entries) => {
            &&& forall|a: int, b: int| 0 <= a < b < entries.len() ==> entries[a].0 != entries[b].0
            &&& forall|k: int| 0 <= k < entries.len() ==> reads_back(#[trigger] entries[k].0) && reads_back(entries[k].1)
        },
        EdnValue::Tagged(tag, inner) => if tag == ":inst"@ {
            match *inner {
                EdnValue::Integer(n) => {
                    &&& in_i64(n)
                    &&& rfc3339_millis(inst_text(n as i64)) == Ok::<i64, Seq<char>>(n as i64)
                    &&& plain(inst_text(n as i64))
                },
                _ => false,
            }
        } else {
            &&& tag.len() >= 2
            &&& tag[0] == ':'
            &&& tag_name_reads_back(tag.subrange(1, tag.len() as int))
            &&& reads_back(*inner)
            &&& *inner != EdnValue::Char('u')
        },
    }
}

/// The first character of a written text can start a value.
pub open spec fn first_ok(t: Seq<char>) -> bool {
    &&& t.len() > 0
    &&& !is_blank(t[0])
    &&& t[0] != ';' && t[0] != ')' && t[0] != ']' && t[0] != '}'
}

proof fn lemma_number_start(t: Seq<char>, v: EdnValue)
    requires
        t.len() > 0,
        read_number(t, 0) == Ok::<(EdnValue, int), ReadError>((v, t.len() as int)),
    ensures
        t[0] == '+' || t[0] == '-' || is_ascii_digit(t[0]),
{
    if !(t[0] == '+' || t[0] == '-') {
        assert(run_end(t, 0, digit_class()) != 0);
    }
}

proof fn lemma_token_start(t: Seq<char>)
    requires
        token(t),
    ensures
        is_symbol_start(t[0]),
        !is_blank(t[0]) ==> first_ok(t),
        t[0] != '#' && t[0] != '(' && t[0] != '[' && t[0] != '{' && t[0] != ':' && t[0] != '"' && t[0] != '\\',
        !is_ascii_digit(t[0]),
{
}

/// A value that reads back is written without error, and its text starts
/// with a character that can start a value.
proof fn lemma_writes_ok(v: EdnValue)
    requires
        reads_back(v),
    ensures
        write_value(v) matches Ok(t) && first_ok(t),
    decreases v, 1int,
{
    reveal_strlit("nil");
    reveal_strlit("true");
    reveal_strlit("false");
    reveal_strlit("##NaN");
    reveal_strlit("##Inf");
    reveal_strlit("##-Inf");
    reveal_strlit("#inst \"");
    match v {
        EdnValue::Symbol(t) => {
            lemma_token_start(t);
        },
        EdnValue::Keyword(t) => {},
        EdnValue::Integer(n) => {
            lemma_int_text(n);
            lemma_number_start(int_text(n), EdnValue::Integer(n));
        },
        EdnValue::Float(t) => {
            if !(t == "##NaN"@ || t == "##Inf"@ || t == "##-Inf"@) {
                lemma_number_start(t, EdnValue::Float(t));
            }
        },
        EdnValue::List(items) => {
            lemma_items_ok(items);
        },
        EdnValue::Vector(items) => {
            lemma_items_ok(items);
        },
        EdnValue::SetVal(items) => {
            lemma_items_ok(items);
        },
        EdnValue::MapVal(entries) => {
            lemma_entries_ok(entries);
        },
        EdnValue::Tagged(tag, inner) => {
            if tag != ":inst"@ {
                let name = tag.subrange(1, tag.len() as int);
                assert(tag_name(tag) == name);
                assert(write_tagged(name, *inner) == crate::ser::write_tag_value(name, *inner));
                lemma_writes_ok(*inner);
            } else {
                reveal_strlit(":inst");
                reveal_strlit("inst");
                assert(tag_name(tag) =~= "inst"@);
            }
        },
        _ => {},
    }
}

proof fn lemma_items_ok(items: Seq<EdnValue>)
    requires
        forall|k: int| 0 <= k < items.len() ==> reads_back(#[trigger] items[k]),
    ensures
        write_items(items) matches Ok(w) && (items.len() > 0 ==> (write_value(items[0]) matches Ok(t0) && w[0] == t0[0] && first_ok(w))),
    decreases items, 0int,
{
    if items.len() > 0 {
        assert(reads_back(items[0]));
        lemma_writes_ok(items[0]);
        let rest = items.subrange(1, items.len() as int);
        assert forall|k: int| 0 <= k < rest.len() implies reads_back(#[trigger] rest[k]) by {
            assert(rest[k] == items[k + 1]);
        }
        lemma_items_ok(rest);
    }
}

proof fn lemma_entries_ok(entries: Seq<(EdnValue, EdnValue)>)
    requires
        forall|k: int| 0 <= k < entries.len() ==> reads_back(#[trigger] entries[k].0) && reads_back(entries[k].1),
    ensures
        write_entries(entries) matches Ok(w) && (entries.len() > 0 ==> (write_value(entries[0].0) matches Ok(t0) && w[0] == t0[0] && first_ok(w))),
    decreases entries, 0int,
{
    if entries.len() > 0 {
        assert(reads_back(entries[0].0) && reads_back(entries[0].1));
        lemma_writes_ok(entries[0].0);
        lemma_writes_ok(entries[0].1);
        let rest = entries.subrange(1, entries.len() as int);
        assert forall|k: int| 0 <= k < rest.len() implies reads_back(#[trigger] rest[k].0) && reads_back(rest[k].1) by {
            assert(rest[k] == entries[k + 1]);
        }
        lemma_entries_ok(rest);
    }
}


/// The text written, or nothing on an error.
pub open spec fn ok_text(r: Result<Seq<char>, Seq<char>>) -> Seq<char> {
    match r {
        Ok(t) => t,
        Err(_) => Seq::empty(),
    }
}

/// How the value of a tag other than `#inst` and `#uuid` is written after
/// the tag: strings in quotes without escapes, characters after a bare
/// backslash, anything else as on its own.
pub open spec fn custom_inner_text(inner: EdnValue) -> Seq<char> {
    match inner {
        EdnValue::Str(t) => seq!['"'] + t + seq!['"'],
        EdnValue::Char(c) => seq!['\\', c],
        _ => ok_text(write_value(inner)),
    }
}

/// The value of a tag other than `#inst` and `#uuid` that reads back.
pub open spec fn custom_inner_ok(inner: EdnValue) -> bool {
    match inner {
        EdnValue::Str(x) => plain(x),
        EdnValue::Char(c) => c != 'u',
        _ => reads_back(inner),
    }
}

proof fn lemma_custom_text(name: Seq<char>, inner: EdnValue)
    requires
        name != "inst"@,
        name != "uuid"@,
        custom_inner_ok(inner),
    ensures
        write_custom_tagged(name, inner) == Ok::<Seq<char>, Seq<char>>(seq!['#'] + name + seq![' '] + custom_inner_text(inner)),
        first_ok(custom_inner_text(inner)),
{
    reveal_strlit("nil");
    let head = seq!['#'] + name + seq![' '];
    match inner {
        EdnValue::Str(x) => {
            assert(head + seq!['"'] + x + seq!['"'] =~= head + (seq!['"'] + x + seq!['"']));
        },
        EdnValue::Char(_) => {},
        _ => {
            lemma_writes_ok(inner);
        },
    }
}

/// A scalar value that reads back, written at `i`, reads there as itself.
proof fn lemma_atom_read(v: EdnValue, s: Seq<char>, i: int)
    requires
        reads_back(v),
        placed(s, i, ok_text(write_value(v))),
        !(v is List || v is Vector || v is SetVal || v is MapVal || v is Tagged),
    ensures
        write_value(v) is Ok,
        read_value(s, i) == Ok::<(EdnValue, int), ReadError>((v, i + ok_text(write_value(v)).len())),
{
    lemma_writes_ok(v);
    let t = ok_text(write_value(v));
    let n = t.len() as int;
    lemma_placed_at(s, i, t, 0);
    lemma_skip_at(s, i);
    lemma_tokens();
    reveal_strlit("nil");
    reveal_strlit("true");
    reveal_strlit("false");
    reveal_strlit("##NaN");
    reveal_strlit("##Inf");
    reveal_strlit("##-Inf");
    reveal_strlit("NaN");
    reveal_strlit("Inf");
    reveal_strlit("-Inf");
    match v {
        EdnValue::Nil => {
            lemma_token_shift(s, i, "nil"@);
        },
        EdnValue::Bool(b) => {
            if b {
                lemma_token_shift(s, i, "true"@);
            } else {
                lemma_token_shift(s, i, "false"@);
            }
        },
        EdnValue::Str(x) => {
            let e = escaped(x);
            assert(t == seq!['"'] + e + seq!['"']);
            assert(t.subrange(1, 1 + (e.len() as int)) =~= e);
            assert(s.subrange(i + 1, i + 1 + (e.len() as int)) =~= t.subrange(1, 1 + (e.len() as int)));
            lemma_placed_at(s, i, t, n - 1);
            lemma_read_escaped(s, i + 1, Seq::empty(), x);
            assert(Seq::<char>::empty() + x =~= x);
        },
        EdnValue::Char(c) => {
            lemma_char_text(c);
            lemma_char_shift(s, i, t, EdnValue::Char(c));
        },
        EdnValue::Symbol(x) => {
            lemma_token_start(x);
            lemma_token_shift(s, i, x);
        },
        EdnValue::Keyword(x) => {
            let name = x.subrange(1, x.len() as int);
            assert(s.subrange(i + 1, i + 1 + (name.len() as int)) =~= t.subrange(1, n));
            lemma_token_shift(s, i + 1, name);
            assert(seq![':'] + name =~= x);
        },
        EdnValue::Integer(m) => {
            lemma_int_text(m);
            lemma_number_start(t, v);
            lemma_number_shift(s, i, t, v);
        },
        EdnValue::Float(x) => {
            if x == "##NaN"@ || x == "##Inf"@ || x == "##-Inf"@ {
                lemma_placed_at(s, i, t, 1);
                let name = x.subrange(2, x.len() as int);
                assert(s.subrange(i + 2, i + 2 + (name.len() as int)) =~= t.subrange(2, n));
                if x == "##NaN"@ {
                    assert(name =~= "NaN"@);
                } else if x == "##Inf"@ {
                    assert(name =~= "Inf"@);
                } else {
                    assert(name =~= "-Inf"@);
                }
                lemma_token_shift(s, i + 2, name);
                assert(seq!['#', '#'] + name =~= x);
            } else {
                lemma_number_start(t, v);
                lemma_number_shift(s, i, t, v);
            }
        },
        _ => {},
    }
}

/// A value that reads back, written at position `i` of any text and
/// followed there by the end, a space or a closing bracket, reads at `i` as
/// itself, and reading stops right after its text.
#[verifier::rlimit(80)]
#[verifier::spinoff_prover]
pub proof fn lemma_value_read(v: EdnValue, s: Seq<char>, i: int)
    requires
        reads_back(v),
        placed(s, i, ok_text(write_value(v))),
    ensures
        write_value(v) is Ok,
        read_value(s, i) == Ok::<(EdnValue, int), ReadError>((v, i + ok_text(write_value(v)).len())),
    decreases v, 1int,
{
    lemma_writes_ok(v);
    let t = ok_text(write_value(v));
    let n = t.len() as int;
    lemma_placed_at(s, i, t, 0);
    lemma_skip_at(s, i);
    match v {
        EdnValue::List(items) => {
            lemma_items_ok(items);
            let w = ok_text(write_items(items));
            assert(t == seq!['('] + w + seq![')']);
            assert(t.subrange(1, 1 + (w.len() as int)) =~= w);
            assert(s.subrange(i + 1, i + 1 + (w.len() as int)) =~= t.subrange(1, 1 + (w.len() as int)));
            lemma_placed_at(s, i, t, n - 1);
            lemma_seq_read(items, s, i, 1, w, ')');
        },
        EdnValue::Vector(items) => {
            lemma_items_ok(items);
            let w = ok_text(write_items(items));
            assert(t == seq!['['] + w + seq![']']);
            assert(t.subrange(1, 1 + (w.len() as int)) =~= w);
            assert(s.subrange(i + 1, i + 1 + (w.len() as int)) =~= t.subrange(1, 1 + (w.len() as int)));
            lemma_placed_at(s, i, t, n - 1);
            lemma_seq_read(items, s, i, 1, w, ']');
        },
        EdnValue::SetVal(items) => {
            lemma_items_ok(items);
            let w = ok_text(write_items(items));
            assert(t == seq!['#', '{'] + w + seq!['}']);
            assert(t.subrange(2, 2 + (w.len() as int)) =~= w);
            assert(s.subrange(i + 2, i + 2 + (w.len() as int)) =~= t.subrange(2, 2 + (w.len() as int)));
            lemma_placed_at(s, i, t, n - 1);
            lemma_placed_at(s, i, t, 1);
            lemma_seq_read(items, s, i, 2, w, '}');
        },
        EdnValue::MapVal(entries) => {
            lemma_entries_ok(entries);
            let w = ok_text(write_entries(entries));
            assert(t == seq!['{'] + w + seq!['}']);
            let st = i + 1;
            assert(t.subrange(1, 1 + (w.len() as int)) =~= w);
            assert(s.subrange(st, st + (w.len() as int)) =~= t.subrange(1, 1 + (w.len() as int)));
            lemma_placed_at(s, i, t, n - 1);
            lemma_placed_at(s, i, t, 1);
            lemma_skip_at(s, st);
            if (entries.len() as int) > 0 {
                lemma_writes_ok(entries[0].0);
            }
            lemma_entries_read(entries, s, st, st, Seq::empty());
            assert(Seq::<(EdnValue, EdnValue)>::empty() + entries =~= entries);
        },
        EdnValue::Tagged(tag, inner) => {
            lemma_tagged_read(tag, *inner, s, i);
        },
        _ => {
            lemma_atom_read(v, s, i);
        },
    }
}

/// The items of a list, vector or set, after an opening of `open_len`
/// characters at `i`.
proof fn lemma_seq_read(items: Seq<EdnValue>, s: Seq<char>, i: int, open_len: int, w: Seq<char>, close: char)
    requires
        forall|k: int| 0 <= k < (items.len() as int) ==> reads_back(#[trigger] items[k]),
        write_items(items) == Ok::<Seq<char>, Seq<char>>(w),
        (items.len() as int) > 0 ==> first_ok(w),
        close == ')' || close == ']' || close == '}',
        open_len == 1 || open_len == 2,
        0 <= i,
        i + open_len + (w.len() as int) < (s.len() as int),
        s.subrange(i + open_len, i + open_len + (w.len() as int)) == w,
        s[i + open_len + (w.len() as int)] == close,
    ensures
        read_seq(s, i + open_len, close, Seq::empty()) == Ok::<(Seq<EdnValue>, int), ReadError>((items, i + open_len + (w.len() as int) + 1)),
    decreases items, 1int,
{
    let st = i + open_len;
    if (items.len() as int) > 0 {
        assert(s.subrange(st, st + (w.len() as int))[0] == s[st]);
    }
    lemma_skip_at(s, st);
    lemma_items_read(items, s, st, st, close, Seq::empty());
    assert(Seq::<EdnValue>::empty() + items =~= items);
}

proof fn lemma_items_read(items: Seq<EdnValue>, s: Seq<char>, p: int, st: int, close: char, acc: Seq<EdnValue>)
    requires
        forall|k: int| 0 <= k < (items.len() as int) ==> reads_back(#[trigger] items[k]),
        write_items(items) is Ok,
        close == ')' || close == ']' || close == '}',
        0 <= p <= st,
        skip_ws(s, p) == st,
        st + ok_text(write_items(items)).len() < (s.len() as int),
        s.subrange(st, st + ok_text(write_items(items)).len()) == ok_text(write_items(items)),
        s[st + ok_text(write_items(items)).len()] == close,
    ensures
        read_seq(s, p, close, acc) == Ok::<(Seq<EdnValue>, int), ReadError>((acc + items, st + ok_text(write_items(items)).len() + 1)),
    decreases items, 0int,
{
    lemma_items_ok(items);
    let w = ok_text(write_items(items));
    if (items.len() as int) == 0 {
        assert(acc + items =~= acc);
    } else {
        let x = items[0];
        assert(reads_back(x));
        lemma_writes_ok(x);
        let t0 = ok_text(write_value(x));
        assert(s.subrange(st, st + (w.len() as int))[0] == s[st]);
        let m = st + (t0.len() as int);
        if (items.len() as int) == 1 {
            assert(w == t0);
            assert(s.subrange(st, st + (t0.len() as int)) == t0);
            lemma_value_read(x, s, st);
            lemma_skip_at(s, m);
            assert(acc.push(x) =~= acc + items);
        } else {
            let rest = items.subrange(1, items.len() as int);
            assert forall|k: int| 0 <= k < (rest.len() as int) implies reads_back(#[trigger] rest[k]) by {
                assert(rest[k] == items[k + 1]);
            }
            lemma_items_ok(rest);
            let rw = ok_text(write_items(rest));
            assert(w == t0 + seq![' '] + rw);
            assert(w[(t0.len() as int)] == ' ');
            assert(w.subrange((t0.len() as int) + 1, (w.len() as int)) =~= rw);
            assert(w.subrange(0, t0.len() as int) =~= t0);
            assert(s.subrange(st, st + (t0.len() as int)) =~= w.subrange(0, t0.len() as int));
            assert(s.subrange(st, st + (w.len() as int))[t0.len() as int] == s[m]);
            lemma_value_read(x, s, st);
            assert(s.subrange(m + 1, m + 1 + (rw.len() as int)) =~= w.subrange((t0.len() as int) + 1, w.len() as int));
            assert(s.subrange(st, st + (w.len() as int))[(t0.len() as int) + 1] == s[m + 1]);
            lemma_skip_space(s, m);
            lemma_items_read(rest, s, m, m + 1, close, acc.push(x));
            assert(acc.push(x) + rest =~= acc + items);
        }
    }
}

proof fn lemma_entries_read(entries: Seq<(EdnValue, EdnValue)>, s: Seq<char>, p: int, st: int, acc: Seq<(EdnValue, EdnValue)>)
    requires
        forall|k: int| 0 <= k < (entries.len() as int) ==> reads_back(#[trigger] entries[k].0) && reads_back(entries[k].1),
        forall|a: int, b: int| 0 <= a < b < (entries.len() as int) ==> entries[a].0 != entries[b].0,
        forall|k: int| 0 <= k < (entries.len() as int) ==> key_index(acc, #[trigger] entries[k].0) is None,
        write_entries(entries) is Ok,
        0 <= p <= st,
        skip_ws(s, p) == st,
        st + ok_text(write_entries(entries)).len() < (s.len() as int),
        s.subrange(st, st + ok_text(write_entries(entries)).len()) == ok_text(write_entries(entries)),
        s[st + ok_text(write_entries(entries)).len()] == '}',
    ensures
        read_map(s, p, acc) == Ok::<(Seq<(EdnValue, EdnValue)>, int), ReadError>((acc + entries, st + ok_text(write_entries(entries)).len() + 1)),
    decreases entries, 0int,
{
    lemma_entries_ok(entries);
    let w = ok_text(write_entries(entries));
    if (entries.len() as int) == 0 {
        assert(acc + entries =~= acc);
    } else {
        let e = entries[0];
        assert(reads_back(e.0) && reads_back(e.1));
        lemma_writes_ok(e.0);
        lemma_writes_ok(e.1);
        let tk = ok_text(write_value(e.0));
        let tv = ok_text(write_value(e.1));
        let a = st + (tk.len() as int);
        let b = a + 1;
        let m = b + (tv.len() as int);
        assert(s.subrange(st, st + (w.len() as int))[0] == s[st]);
        assert(s.subrange(st, st + (tk.len() as int)) =~= w.subrange(0, tk.len() as int));
        assert(s.subrange(st, st + (w.len() as int))[tk.len() as int] == s[a]);
        assert(s.subrange(st, st + (w.len() as int))[(tk.len() as int) + 1] == s[b]);
        assert(s.subrange(b, b + (tv.len() as int)) =~= w.subrange((tk.len() as int) + 1, (tk.len() as int) + 1 + (tv.len() as int)));
        assert(w.subrange(0, (tk.len() as int)) =~= tk);
        assert(w[(tk.len() as int)] == ' ');
        assert(w.subrange((tk.len() as int) + 1, (tk.len() as int) + 1 + (tv.len() as int)) =~= tv);
        lemma_value_read(e.0, s, st);
        lemma_skip_space(s, a);
        assert(key_index(acc, e.0) is None);
        assert(map_insert(acc, e.0, e.1) == acc.push(e));
        if (entries.len() as int) == 1 {
            assert(w == tk + seq![' '] + tv);
            lemma_value_read(e.1, s, b);
            lemma_skip_at(s, m);
            assert(acc.push(e) =~= acc + entries);
        } else {
            let rest = entries.subrange(1, entries.len() as int);
            assert forall|k: int| 0 <= k < (rest.len() as int) implies reads_back(#[trigger] rest[k].0) && reads_back(rest[k].1) by {
                assert(rest[k] == entries[k + 1]);
            }
            lemma_entries_ok(rest);
            let rw = ok_text(write_entries(rest));
            assert(w == tk + seq![' '] + tv + seq![' '] + rw);
            assert(w[(tk.len() as int) + 1 + (tv.len() as int)] == ' ');
            assert(w.subrange((tk.len() as int) + 1 + (tv.len() as int) + 1, (w.len() as int)) =~= rw);
            assert(s.subrange(st, st + (w.len() as int))[(tk.len() as int) + 1 + (tv.len() as int)] == s[m]);
            lemma_value_read(e.1, s, b);
            assert(s.subrange(m + 1, m + 1 + (rw.len() as int)) =~= w.subrange((tk.len() as int) + 1 + (tv.len() as int) + 1, w.len() as int));
            assert(s.subrange(st, st + (w.len() as int))[(tk.len() as int) + 1 + (tv.len() as int) + 1] == s[m + 1]);
            lemma_skip_space(s, m);
            let acc2 = acc.push(e);
            assert forall|k: int| 0 <= k < (rest.len() as int) implies key_index(acc2, #[trigger] rest[k].0) is None by {
                assert(rest[k] == entries[k + 1]);
                assert(entries[0].0 != entries[k + 1].0);
                assert(acc2.drop_last() =~= acc);
                assert(key_index(acc, entries[k + 1].0) is None);
            }
            assert forall|x: int, y: int| 0 <= x < y < (rest.len() as int) implies rest[x].0 != rest[y].0 by {
                assert(rest[x] == entries[x + 1] && rest[y] == entries[y + 1]);
            }
            lemma_entries_read(rest, s, m, m + 1, acc2);
            assert(acc2 + rest =~= acc + entries);
        }
    }
}

#[verifier::rlimit(80)]
#[verifier::spinoff_prover]
proof fn lemma_tagged_read(tag: Seq<char>, inner: EdnValue, s: Seq<char>, i: int)
    requires
        reads_back(EdnValue::Tagged(tag, Box::new(inner))),
        placed(s, i, ok_text(write_value(EdnValue::Tagged(tag, Box::new(inner))))),
    ensures
        read_value(s, i) == Ok::<(EdnValue, int), ReadError>((EdnValue::Tagged(tag, Box::new(inner)), i + ok_text(write_value(EdnValue::Tagged(tag, Box::new(inner)))).len())),
    decreases inner, 3int,
{
    let v = EdnValue::Tagged(tag, Box::new(inner));
    lemma_writes_ok(v);
    let t = ok_text(write_value(v));
    let n = t.len() as int;
    lemma_placed_at(s, i, t, 0);
    lemma_skip_at(s, i);
    lemma_tokens();
    reveal_strlit("inst");
    reveal_strlit("uuid");
    reveal_strlit(":inst");
    reveal_strlit("#inst \"");
    let j = i + 1;
    if tag == ":inst"@ {
        assert(tag_name(tag) =~= "inst"@);
        let ms = inner->Integer_0;
        let tt = inst_text(ms as i64);
        assert(t == "#inst \""@ + tt + seq!['"']);
        assert(t.subrange(1, 5) =~= "inst"@);
        assert(t[5] == ' ' && t[6] == '"');
        assert(t.subrange(7, 7 + (tt.len() as int)) =~= tt);
        assert(s.subrange(j, j + 4) =~= t.subrange(1, 5));
        lemma_placed_at(s, i, t, 5);
        lemma_placed_at(s, i, t, 6);
        lemma_placed_at(s, i, t, n - 1);
        lemma_token_shift(s, j, "inst"@);
        let k = j + 4;
        lemma_skip_space(s, k);
        let k2 = k + 1;
        lemma_skip_at(s, k2);
        assert(s.subrange(k2 + 1, k2 + 1 + (tt.len() as int)) =~= t.subrange(7, 7 + (tt.len() as int)));
        lemma_read_raw(s, k2 + 1, Seq::empty(), tt);
        assert(Seq::<char>::empty() + tt =~= tt);
        assert(read_value(s, k2) == Ok::<(EdnValue, int), ReadError>((EdnValue::Str(tt), i + n)));
        assert(tag_result("inst"@, EdnValue::Str(tt)) == Ok::<EdnValue, Seq<char>>(EdnValue::Tagged(":inst"@, Box::new(EdnValue::Integer(ms)))));
        assert(s[j] == 'i');
        assert(read_dispatch(s, j) == Ok::<(EdnValue, int), ReadError>((EdnValue::Tagged(tag, Box::new(inner)), i + n)));
        assert(read_value(s, i) == read_dispatch(s, j));
    } else {
        let name = tag.subrange(1, tag.len() as int);
        assert(tag_name(tag) == name);
        lemma_writes_ok(inner);
        let it = custom_inner_text(inner);
        let it = if inner is Char { it } else { ok_text(write_value(inner)) };
        assert(write_tagged(name, inner) == crate::ser::write_tag_value(name, inner));
        assert(t == seq!['#'] + name + seq![' '] + it);
        lemma_token_start(name);
        assert(t.subrange(1, 1 + (name.len() as int)) =~= name);
        assert(t[1 + (name.len() as int)] == ' ');
        assert(t.subrange(2 + (name.len() as int), n) =~= it);
        assert(s.subrange(j, j + (name.len() as int)) =~= t.subrange(1, 1 + (name.len() as int)));
        lemma_placed_at(s, i, t, 1 + (name.len() as int));
        lemma_placed_at(s, i, t, 2 + (name.len() as int));
        lemma_token_shift(s, j, name);
        let k = j + (name.len() as int);
        lemma_skip_space(s, k);
        let k2 = k + 1;
        assert(s.subrange(k2, k2 + (it.len() as int)) =~= t.subrange(2 + (name.len() as int), n));
        if inner is Char {
            lemma_inner_read(inner, s, k2);
        } else {
            lemma_value_read(inner, s, k2);
        }
        assert(seq![':'] + name =~= tag);
        assert(tag_result(name, inner) == Ok::<EdnValue, Seq<char>>(EdnValue::Tagged(tag, Box::new(inner))));
        assert(s[j] == name[0]);
        assert(read_dispatch(s, j) == Ok::<(EdnValue, int), ReadError>((EdnValue::Tagged(tag, Box::new(inner)), i + n)));
        assert(read_value(s, i) == read_dispatch(s, j));
    }
}

proof fn lemma_inner_read(inner: EdnValue, s: Seq<char>, i: int)
    requires
        custom_inner_ok(inner),
        placed(s, i, custom_inner_text(inner)),
    ensures
        read_value(s, i) == Ok::<(EdnValue, int), ReadError>((inner, i + custom_inner_text(inner).len())),
    decreases inner, 2int,
{
    let t = custom_inner_text(inner);
    let n = t.len() as int;
    match inner {
        EdnValue::Str(x) => {
            lemma_placed_at(s, i, t, 0);
            lemma_skip_at(s, i);
            lemma_placed_at(s, i, t, n - 1);
            assert(s.subrange(i + 1, i + 1 + (x.len() as int)) =~= t.subrange(1, n - 1));
            assert(t.subrange(1, n - 1) =~= x);
            assert(t[n - 1] == '"');
            lemma_read_raw(s, i + 1, Seq::empty(), x);
            assert(Seq::<char>::empty() + x =~= x);
        },
        EdnValue::Char(c) => {
            lemma_placed_at(s, i, t, 0);
            lemma_skip_at(s, i);
            reveal_strlit("newline");
            reveal_strlit("return");
            reveal_strlit("tab");
            reveal_strlit("space");
            reveal_strlit("u");
            reveal_with_fuel(run_end, 3);
            assert(t[1] == c);
            assert(!unicode_escape_at(t, 1));
            if alphabetic(c) {
                assert(t.subrange(1, 2) =~= seq![c]);
                assert(run_end(t, 1, alphabetic_class()) == 2);
                assert(seq![c][0] != "u"@[0]);
                assert(seq![c] != "u"@);
                assert(read_char(t, 1) == Ok::<(EdnValue, int), ReadError>((EdnValue::Char(c), 2)));
            } else {
                assert(read_char(t, 1) == Ok::<(EdnValue, int), ReadError>((EdnValue::Char(c), 2)));
            }
            lemma_char_shift(s, i, t, EdnValue::Char(c));
        },
        _ => {
            lemma_value_read(inner, s, i);
        },
    }
}

/// Writing a value that reads back and reading the text gives the value
/// again. Every string and every character reads back; the values left out
/// are those that no text reads as: symbols that are not tokens, that start
/// with a sign or that are `nil`, `true` or `false`; keywords that are not a
/// colon and a token; float texts that do not read as floats; maps that hold
/// a key twice; `#uuid` values, which read as plain strings; tags that are
/// not a token starting with a letter; and `#inst` instants whose text, as
/// the date library writes it, holds a quote or a backslash or does not read
/// back as the same instant.
pub proof fn lemma_round_trip(v: EdnValue)
    requires
        reads_back(v),
    ensures
        write_value(v) matches Ok(t) && parse_edn(t) == Ok::<EdnValue, ErrorView>(v),
{
    lemma_writes_ok(v);
    let t = ok_text(write_value(v));
    assert(t.subrange(0, t.len() as int) =~= t);
    lemma_value_read(v, t, 0);
}


/// Reading the string literal that `write_escaped_string` writes for `x`
/// gives `x` back, and reading stops right after the closing quote.
pub proof fn lemma_string_round_trip(x: Seq<char>)
    ensures
        read_value(quoted(x), 0) == Ok::<(EdnValue, int), ReadError>((EdnValue::Str(x), quoted(x).len() as int)),
        parse_edn(quoted(x)) == Ok::<EdnValue, ErrorView>(EdnValue::Str(x)),
{
    let v = EdnValue::Str(x);
    assert(write_value(v) == Ok::<Seq<char>, Seq<char>>(quoted(x)));
    let t = quoted(x);
    assert(t.subrange(0, t.len() as int) =~= t);
    lemma_value_read(v, t, 0);
    lemma_round_trip(v);
}

/// Reading the character literal that `write_edn_char` writes for `c`
/// gives `c` back, and reading stops at the end of the literal.
pub proof fn lemma_char_round_trip(c: char)
    ensures
        read_value(char_text(c), 0) == Ok::<(EdnValue, int), ReadError>((EdnValue::Char(c), char_text(c).len() as int)),
        parse_edn(char_text(c)) == Ok::<EdnValue, ErrorView>(EdnValue::Char(c)),
{
    let v = EdnValue::Char(c);
    assert(write_value(v) == Ok::<Seq<char>, Seq<char>>(char_text(c)));
    let t = char_text(c);
    assert(t.subrange(0, t.len() as int) =~= t);
    lemma_value_read(v, t, 0);
    lemma_round_trip(v);
}

proof fn lemma_first_space(t: Seq<char>, i: int, k: int)
    requires
        1 <= i <= k < t.len(),
        t[k] == ' ',
        forall|j: int| i <= j < k ==> t[j] != ' ',
    ensures
        first_space(t, i) == Some(k),
    decreases k - i,
{
    if i < k {
        lemma_first_space(t, i + 1, k);
    }
}

proof fn lemma_trim_same(x: Seq<char>)
    requires
        x.len() > 0,
        !whitespace(x[0]),
        !whitespace(x.last()),
    ensures
        trim(x) == x,
{
    assert(trim_start(x, 0) == 0);
    assert(trim_end(x, x.len() as int) == x.len());
    assert(x.subrange(0, x.len() as int) =~= x);
}

/// A token has no space and no parenthesis after its first character.
proof fn lemma_token_chars(t: Seq<char>, j: int)
    requires
        token(t),
        1 <= j < t.len(),
    ensures
        t[j] != ' ' && t[j] != '(',
{
    let sym = symbol_char_class();
    crate::grammar::lemma_run_end(t, 1, sym);
    let a = run_end(t, 1, sym);
    if a < t.len() && t[a] == '/' {
        crate::grammar::lemma_run_end(t, a + 1, sym);
    }
    if j == a {
        assert(t[j] == '/');
    }
}

proof fn lemma_not_wrapped(t: Seq<char>, p: Seq<char>)
    requires
        token(t),
        p.len() >= 2,
        p.last() == '(',
    ensures
        !wrapped(t, p),
{
    if wrapped(t, p) {
        let j = p.len() - 1;
        assert(t.subrange(0, p.len() as int)[j] == t[j]);
        lemma_token_chars(t, j);
    }
}

/// A tagged value written as `#name value`, as a string, reads back as the
/// same tagged value when that string is taken for what it stands for: the
/// tag is a token that starts with a letter and is neither `inst` nor
/// `uuid`; the value is one that reads back after such a tag, is not the
/// symbol `Nil`, and its text does not end in whitespace.
#[verifier::rlimit(60)]
#[verifier::spinoff_prover]
pub proof fn lemma_tagged_text_round_trip(name: Seq<char>, inner: EdnValue)
    requires
        tag_name_reads_back(name),
        custom_inner_ok(inner),
        inner != EdnValue::Symbol("Nil"@),
        !whitespace(custom_inner_text(inner).last()),
    ensures
        write_custom_tagged(name, inner) matches Ok(t)
            && text_value(t) == EdnValue::Tagged(seq![':'] + name, Box::new(inner)),
{
    lemma_custom_text(name, inner);
    let it = custom_inner_text(inner);
    let t = seq!['#'] + name + seq![' '] + it;
    let k = 1 + (name.len() as int);
    let n = t.len() as int;
    lemma_token_start(name);
    assert forall|j: int| 1 <= j < k implies t[j] != ' ' by {
        assert(t[j] == name[j - 1]);
        if j > 1 {
            lemma_token_chars(name, j - 1);
        }
    }
    assert(t[k] == ' ');
    lemma_first_space(t, 1, k);
    assert(t.subrange(1, k) =~= name);
    assert(t.subrange(k + 1, n) =~= it);
    lemma_trim_same(it);
    let tag = seq![':'] + name;
    reveal_strlit("Integer(");
    reveal_strlit("Float(");
    reveal_strlit("Bool(");
    reveal_strlit("Nil");
    reveal_strlit("Char(");
    reveal_strlit("Keyword(");
    reveal_strlit("Symbol(");
    match inner {
        EdnValue::Str(x) => {
            assert(it.subrange(1, it.len() - 1) =~= x);
        },
        EdnValue::Char(c) => {
            assert(it =~= seq!['\\', c]);
            assert(!has_prefix(it, "Integer("@) && !has_prefix(it, "Float("@) && !has_prefix(it, "Bool("@));
            assert(!has_prefix(it, "Char("@) && !has_prefix(it, "Keyword("@) && !has_prefix(it, "Symbol("@));
            assert(it != "Nil"@);
            assert(it.subrange(0, it.len() as int) =~= it);
            lemma_inner_read(inner, it, 0);
        },
        EdnValue::Symbol(x) => {
            assert(x == it);
            lemma_not_wrapped(it, "Integer("@);
            lemma_not_wrapped(it, "Float("@);
            lemma_not_wrapped(it, "Bool("@);
            lemma_not_wrapped(it, "Char("@);
            lemma_not_wrapped(it, "Keyword("@);
            lemma_not_wrapped(it, "Symbol("@);
            assert(it != "Nil"@);
            lemma_writes_ok(inner);
            assert(it.subrange(0, it.len() as int) =~= it);
            lemma_inner_read(inner, it, 0);
        },
        _ => {
            lemma_writes_ok(inner);
            let c0 = it[0];
            match inner {
                EdnValue::Integer(m) => {
                    lemma_int_text(m);
                    lemma_number_start(it, inner);
                },
                EdnValue::Float(x) => {
                    if !(x == "##NaN"@ || x == "##Inf"@ || x == "##-Inf"@) {
                        lemma_number_start(it, inner);
                    } else {
                        reveal_strlit("##NaN");
                        reveal_strlit("##Inf");
                        reveal_strlit("##-Inf");
                    }
                },
                EdnValue::Nil => {
                    reveal_strlit("nil");
                },
                EdnValue::Bool(_) => {
                    reveal_strlit("true");
                    reveal_strlit("false");
                },
                EdnValue::List(items) => {
                    lemma_items_ok(items);
                    assert(c0 == '(');
                },
                EdnValue::Vector(items) => {
                    lemma_items_ok(items);
                    assert(c0 == '[');
                },
                EdnValue::SetVal(items) => {
                    lemma_items_ok(items);
                    assert(c0 == '#');
                },
                EdnValue::MapVal(entries) => {
                    lemma_entries_ok(entries);
                    assert(c0 == '{');
                },
                EdnValue::Tagged(tag2, inner2) => {
                    reveal_strlit("#inst \"");
                    reveal_strlit(":inst");
                    reveal_strlit("inst");
                    reveal_strlit("uuid");
                    if tag2 == ":inst"@ {
                        assert(tag_name(tag2) =~= "inst"@);
                    } else {
                        assert(tag_name(tag2) == tag2.subrange(1, tag2.len() as int));
                        assert(write_tagged(tag_name(tag2), *inner2) == crate::ser::write_tag_value(tag_name(tag2), *inner2));
                        lemma_writes_ok(*inner2);
                    }
                    assert(c0 == '#');
                },
                _ => {},
            }
            assert(c0 != 'I' && c0 != 'F' && c0 != 'B' && c0 != 'N' && c0 != 'C' && c0 != 'K' && c0 != 'S');
            assert(!has_prefix(it, "Integer("@) && !has_prefix(it, "Float("@) && !has_prefix(it, "Bool("@)) by {
                if has_prefix(it, "Integer("@) { assert(it.subrange(0, 8)[0] == it[0]); }
                if has_prefix(it, "Float("@) { assert(it.subrange(0, 6)[0] == it[0]); }
                if has_prefix(it, "Bool("@) { assert(it.subrange(0, 5)[0] == it[0]); }
            }
            assert(!has_prefix(it, "Char("@) && !has_prefix(it, "Keyword("@) && !has_prefix(it, "Symbol("@)) by {
                if has_prefix(it, "Char("@) { assert(it.subrange(0, 5)[0] == it[0]); }
                if has_prefix(it, "Keyword("@) { assert(it.subrange(0, 8)[0] == it[0]); }
                if has_prefix(it, "Symbol("@) { assert(it.subrange(0, 7)[0] == it[0]); }
            }
            assert(it != "Nil"@);
            assert(it.subrange(0, it.len() as int) =~= it);
            lemma_inner_read(inner, it, 0);
        },
    }
    assert(tagged_part(tag, it, t) == EdnValue::Tagged(tag, Box::new(inner)));
}

} // verus!
